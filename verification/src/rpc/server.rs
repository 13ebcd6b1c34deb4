//! The daemon's side of the protocol: where it listens, and what it makes of a line.

use crate::mem::access;
use crate::mem::access::{MemEvent, MemoryAccess};
use crate::process::pid::ProcEntry;
use crate::rpc::methods;
use crate::rpc::methods::hold;
use crate::rpc::methods::hold::EffectView;
use crate::rpc::methods::scan;
use crate::rpc::methods::scan::ProcView;
use crate::rpc::methods::{dispatch, Reply, RpcState, StateView};
use crate::rpc::types::{JsonRpcRequest, JsonRpcResponse, PARSE_ERROR};
use crate::text;
use crate::text::{from_chars, to_chars, trim};
use vstd::prelude::*;

verus! {

// ─── The socket ─────────────────────────────────────────────────────────────

/// What came of knocking at a socket before the daemon listens there.
#[derive(Clone, Debug)]
pub enum Probe {
    /// There is no such file.
    Absent,
    /// Somebody answered.
    Connected,
    /// Nobody listens.
    Refused,
    /// The file was gone.
    Vanished,
    /// Something else went wrong.
    Failed(String),
}

/// What the daemon does about a socket.
#[derive(Clone, Debug)]
pub enum SocketPlan {
    /// Listen.
    Bind,
    /// Remove the file that a crashed daemon left, and listen.
    ReplaceStale,
    /// Give up.
    Fail(String),
}

/// A [`SocketPlan`] as a mathematical value.
pub enum SocketPlanView {
    /// Listen.
    Bind,
    /// Remove the file that a crashed daemon left, and listen.
    ReplaceStale,
    /// Give up.
    Fail(Seq<char>),
}

impl View for SocketPlan {
    type V = SocketPlanView;

    open spec fn view(&self) -> SocketPlanView {
        match self {
            SocketPlan::Bind => SocketPlanView::Bind,
            SocketPlan::ReplaceStale => SocketPlanView::ReplaceStale,
            SocketPlan::Fail(s) => SocketPlanView::Fail(s@),
        }
    }
}

/// What the daemon does about a socket: a running daemon is left alone, a stale file is
/// replaced.
pub open spec fn socket_plan(path: Seq<char>, probe: Probe) -> SocketPlanView {
    match probe {
        Probe::Absent => SocketPlanView::Bind,
        Probe::Vanished => SocketPlanView::Bind,
        Probe::Refused => SocketPlanView::ReplaceStale,
        Probe::Connected => SocketPlanView::Fail(
            "another pika daemon is already running on "@ + path
                + ". Stop it first or use a different --socket path."@,
        ),
        Probe::Failed(e) => SocketPlanView::Fail(
            "cannot check existing socket at "@ + path + ": "@ + e@,
        ),
    }
}

/// Decides what to do about a socket.
pub fn plan_socket(path: &str, probe: Probe) -> (r: SocketPlan)
    ensures
        r@ == socket_plan(path@, probe),
{
    match probe {
        Probe::Absent => SocketPlan::Bind,
        Probe::Vanished => SocketPlan::Bind,
        Probe::Refused => SocketPlan::ReplaceStale,
        Probe::Connected => {
            let mut message = "another pika daemon is already running on ".to_string();
            message.append(path);
            message.append(". Stop it first or use a different --socket path.");
            SocketPlan::Fail(message)
        },
        Probe::Failed(e) => {
            let mut message = "cannot check existing socket at ".to_string();
            message.append(path);
            message.append(": ");
            message.append(e.as_str());
            SocketPlan::Fail(message)
        },
    }
}

// ─── Lines ──────────────────────────────────────────────────────────────────

/// The request in a line: what stands between the white space around it, if anything does.
pub open spec fn in_line(line: Seq<char>) -> Option<Seq<char>> {
    if text::trimmed(line).len() == 0 {
        None
    } else {
        Some(text::trimmed(line))
    }
}

/// The request in a line; a blank line holds none.
pub fn line_content(line: &str) -> (r: Option<String>)
    ensures
        text::optional(r) == in_line(line@),
{
    let content = trim(to_chars(line).as_slice());
    if content.len() == 0 {
        None
    } else {
        Some(from_chars(content.as_slice()))
    }
}

/// A line was processed, and this is the response. What is no request is answered as such and
/// does nothing.
pub open spec fn processed(
    parsed: Result<JsonRpcRequest, String>,
    proc: ProcView,
    events: Seq<MemEvent>,
    before: StateView,
    after: StateView,
    effects: Seq<EffectView>,
    response: JsonRpcResponse,
) -> bool {
    match parsed {
        Err(e) => {
            &&& events.len() == 0 && after == before && effects.len() == 0
            &&& response.fails(None, PARSE_ERROR, "JSON parse error: "@ + e@)
        },
        Ok(req) => methods::dispatched(req, proc, events, before, after, effects, response),
    }
}

/// Processes a line, given the request that it was parsed to, or why it is none.
pub fn process_line<M: MemoryAccess>(
    state: &mut RpcState<M>,
    parsed: Result<JsonRpcRequest, String>,
    proc: &Result<Vec<ProcEntry>, String>,
) -> (r: Reply)
    ensures
        access::follows(final(state).mem, old(state).mem),
        processed(
            parsed,
            scan::proc_view(*proc),
            access::since(final(state).mem.trace(), old(state).mem.trace()),
            old(state)@,
            final(state)@,
            hold::effect_views(r.effects@),
            r.response,
        ),
{
    match parsed {
        Err(e) => {
            proof {
                let trace = state.mem.trace();
                assert(access::since(trace, trace) =~= Seq::empty());
                assert(trace.take(trace.len() as int) =~= trace);
            }
            let mut message = "JSON parse error: ".to_string();
            message.append(e.as_str());
            Reply {
                response: JsonRpcResponse::err(None, PARSE_ERROR, message),
                effects: Vec::new(),
            }
        },
        Ok(req) => dispatch(state, &req, proc),
    }
}

/// A daemon that answers is left alone, a socket that no daemon answers on is replaced, and
/// where there is none one is made.
pub proof fn running_daemons_are_left_alone(path: Seq<char>, e: String)
    ensures
        socket_plan(path, Probe::Connected) is Fail,
        socket_plan(path, Probe::Failed(e)) is Fail,
        socket_plan(path, Probe::Refused) is ReplaceStale,
        socket_plan(path, Probe::Absent) is Bind,
        socket_plan(path, Probe::Vanished) is Bind,
{
}

/// A line holds a request where anything but white space stands in it, and the space around a
/// request is no part of it.
pub proof fn blank_lines_hold_no_request(before: Seq<char>, inner: Seq<char>, after: Seq<char>)
    requires
        forall|i: int| 0 <= i < before.len() ==> text::is_space(#[trigger] before[i]),
        forall|i: int| 0 <= i < after.len() ==> text::is_space(#[trigger] after[i]),
        inner.len() > 0 ==> !text::is_space(inner[0]) && !text::is_space(inner.last()),
    ensures
        in_line(before + inner + after) == if inner.len() > 0 {
            Some(inner)
        } else {
            None
        },
{
    if inner.len() > 0 {
        text::trimming_takes_the_space_around(before, inner, after);
    } else {
        let line = before + inner + after;
        assert forall|i: int| 0 <= i < line.len() implies text::is_space(#[trigger] line[i]) by {
            if i < before.len() {
                assert(line[i] == before[i]);
            } else {
                assert(line[i] == after[i - before.len()]);
            }
        }
        text::white_space_is_all_trimmed(line);
    }
}

/// What is no request is answered with a parse error that carries no identifier, and does
/// nothing.
pub proof fn what_is_no_request_does_nothing(
    parsed: Result<JsonRpcRequest, String>,
    proc: ProcView,
    events: Seq<MemEvent>,
    before: StateView,
    after: StateView,
    effects: Seq<EffectView>,
    response: JsonRpcResponse,
)
    requires
        processed(parsed, proc, events, before, after, effects, response),
        parsed is Err,
    ensures
        events.len() == 0,
        after == before,
        effects.len() == 0,
        response.id is None,
        response.result is None,
        response.error matches Some(e) && e.code == -32700,
{
}

} // verus!
