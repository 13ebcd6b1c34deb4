//! The daemon's methods.
//!
//! [`dispatch`] hands a request to its method. What a method does to memory, to the sessions,
//! freezes, patches and watches of the daemon, and what it answers, is said by a predicate
//! beside it. Freezes and watches need threads: [`dispatch`] returns what those have to do, and
//! [`settle`] takes in what came of it.

pub mod answer;
pub mod hold;
pub mod memory;
pub mod safety;
pub mod scan;

use crate::mem::access;
use crate::mem::access::{MemEvent, MemoryAccess};
use crate::mem::freeze::{FreezeEntry, FreezeManager};
use crate::mem::patch::{PatchManager, PatchTable};
use crate::mem::watch::{WatchManager, WatchView};
use crate::process::pid::ProcEntry;
use crate::rpc::methods::answer::MethodResult;
use crate::rpc::methods::hold::{Effect, EffectView};
use crate::rpc::methods::scan::ProcView;
use crate::rpc::params;
use crate::rpc::params::{read_members, Param, Params};
use crate::rpc::types::{
    copy_id, BulkError, BulkJson, JsonRpcRequest, JsonRpcResponse, RpcResult, INTERNAL_ERROR,
    INVALID_REQUEST, METHOD_NOT_FOUND,
};
use crate::scan::engine::{SessionRegistry, SessionView};
use crate::text;
use crate::text::{address_text, same_text};
use serde_json::Value;
use vstd::prelude::*;

verus! {

/// What the daemon keeps.
pub struct RpcState<M: MemoryAccess> {
    /// The way to the memory of processes.
    pub mem: M,
    /// The scan sessions.
    pub sessions: SessionRegistry,
    /// The freezes.
    pub freeze: FreezeManager,
    /// The code patches.
    pub patch: PatchManager,
    /// The watches.
    pub watch: WatchManager,
}

/// What the daemon keeps, as a mathematical value.
pub struct StateView {
    /// The scan sessions.
    pub sessions: Map<Seq<char>, SessionView>,
    /// The freezes.
    pub freezes: Map<u64, FreezeEntry>,
    /// The code patches.
    pub patches: PatchTable,
    /// The watches.
    pub watches: Map<Seq<char>, WatchView>,
}

impl<M: MemoryAccess> View for RpcState<M> {
    type V = StateView;

    open spec fn view(&self) -> StateView {
        StateView {
            sessions: self.sessions@,
            freezes: self.freeze@,
            patches: self.patch@,
            watches: self.watch@,
        }
    }
}

impl StateView {
    /// Nothing is kept.
    pub open spec fn empty() -> StateView {
        StateView {
            sessions: Map::empty(),
            freezes: Map::empty(),
            patches: Map::empty(),
            watches: Map::empty(),
        }
    }
}

impl<M: MemoryAccess> RpcState<M> {
    /// A daemon that keeps nothing yet.
    pub fn new(mem: M) -> (r: RpcState<M>)
        ensures
            r.mem == mem,
            r@ == StateView::empty(),
    {
        RpcState {
            mem,
            sessions: SessionRegistry::new(),
            freeze: FreezeManager::new(),
            patch: PatchManager::new(),
            watch: WatchManager::new(),
        }
    }
}

// ─── Methods ────────────────────────────────────────────────────────────────

/// A method.
#[derive(Clone, Copy, Debug, PartialEq, Eq, Structural)]
pub enum Method {
    /// `pid.list`
    PidList,
    /// `pid.find`
    PidFind,
    /// `maps.get`
    MapsGet,
    /// `scan.start`
    ScanStart,
    /// `scan.filter`
    ScanFilter,
    /// `scan.aob`
    ScanAob,
    /// `scan.discard`
    ScanDiscard,
    /// `scan.list`
    ScanList,
    /// `scan.candidates`
    ScanCandidates,
    /// `memory.read`
    MemoryRead,
    /// `memory.write`
    MemoryWrite,
    /// `memory.write_all`
    MemoryWriteAll,
    /// `memory.disassemble`
    MemoryDisassemble,
    /// `pointer.scan`
    PointerScan,
    /// `freeze.start`
    FreezeStart,
    /// `freeze.start_all`
    FreezeStartAll,
    /// `freeze.stop`
    FreezeStop,
    /// `freeze.list`
    FreezeList,
    /// `watch.start`
    WatchStart,
    /// `watch.hits`
    WatchHits,
    /// `watch.stop`
    WatchStop,
    /// `watch.list`
    WatchList,
    /// `code.nop`
    CodeNop,
    /// `code.patch`
    CodePatch,
    /// `code.restore`
    CodeRestore,
    /// `code.list`
    CodeList,
}

/// The method of a name.
pub open spec fn method_named(s: Seq<char>) -> Option<Method> {
    if s == "scan.start"@ {
        Some(Method::ScanStart)
    } else if s == "scan.filter"@ {
        Some(Method::ScanFilter)
    } else if s == "scan.aob"@ {
        Some(Method::ScanAob)
    } else if s == "pointer.scan"@ {
        Some(Method::PointerScan)
    } else if s == "pid.list"@ {
        Some(Method::PidList)
    } else if s == "pid.find"@ {
        Some(Method::PidFind)
    } else if s == "maps.get"@ {
        Some(Method::MapsGet)
    } else if s == "scan.discard"@ {
        Some(Method::ScanDiscard)
    } else if s == "scan.list"@ {
        Some(Method::ScanList)
    } else if s == "scan.candidates"@ {
        Some(Method::ScanCandidates)
    } else if s == "memory.read"@ {
        Some(Method::MemoryRead)
    } else if s == "memory.write"@ {
        Some(Method::MemoryWrite)
    } else if s == "memory.write_all"@ {
        Some(Method::MemoryWriteAll)
    } else if s == "freeze.start_all"@ {
        Some(Method::FreezeStartAll)
    } else if s == "memory.disassemble"@ {
        Some(Method::MemoryDisassemble)
    } else if s == "freeze.start"@ {
        Some(Method::FreezeStart)
    } else if s == "freeze.stop"@ {
        Some(Method::FreezeStop)
    } else if s == "freeze.list"@ {
        Some(Method::FreezeList)
    } else if s == "watch.start"@ {
        Some(Method::WatchStart)
    } else if s == "watch.hits"@ {
        Some(Method::WatchHits)
    } else if s == "watch.stop"@ {
        Some(Method::WatchStop)
    } else if s == "watch.list"@ {
        Some(Method::WatchList)
    } else if s == "code.nop"@ {
        Some(Method::CodeNop)
    } else if s == "code.patch"@ {
        Some(Method::CodePatch)
    } else if s == "code.restore"@ {
        Some(Method::CodeRestore)
    } else if s == "code.list"@ {
        Some(Method::CodeList)
    } else {
        None
    }
}

impl Method {
    /// The method of a name.
    pub fn named(s: &str) -> (r: Option<Method>)
        ensures
            r == method_named(s@),
    {
        if same_text(s, "scan.start") {
            Some(Method::ScanStart)
        } else if same_text(s, "scan.filter") {
            Some(Method::ScanFilter)
        } else if same_text(s, "scan.aob") {
            Some(Method::ScanAob)
        } else if same_text(s, "pointer.scan") {
            Some(Method::PointerScan)
        } else if same_text(s, "pid.list") {
            Some(Method::PidList)
        } else if same_text(s, "pid.find") {
            Some(Method::PidFind)
        } else if same_text(s, "maps.get") {
            Some(Method::MapsGet)
        } else if same_text(s, "scan.discard") {
            Some(Method::ScanDiscard)
        } else if same_text(s, "scan.list") {
            Some(Method::ScanList)
        } else if same_text(s, "scan.candidates") {
            Some(Method::ScanCandidates)
        } else if same_text(s, "memory.read") {
            Some(Method::MemoryRead)
        } else if same_text(s, "memory.write") {
            Some(Method::MemoryWrite)
        } else if same_text(s, "memory.write_all") {
            Some(Method::MemoryWriteAll)
        } else if same_text(s, "freeze.start_all") {
            Some(Method::FreezeStartAll)
        } else if same_text(s, "memory.disassemble") {
            Some(Method::MemoryDisassemble)
        } else if same_text(s, "freeze.start") {
            Some(Method::FreezeStart)
        } else if same_text(s, "freeze.stop") {
            Some(Method::FreezeStop)
        } else if same_text(s, "freeze.list") {
            Some(Method::FreezeList)
        } else if same_text(s, "watch.start") {
            Some(Method::WatchStart)
        } else if same_text(s, "watch.hits") {
            Some(Method::WatchHits)
        } else if same_text(s, "watch.stop") {
            Some(Method::WatchStop)
        } else if same_text(s, "watch.list") {
            Some(Method::WatchList)
        } else if same_text(s, "code.nop") {
            Some(Method::CodeNop)
        } else if same_text(s, "code.patch") {
            Some(Method::CodePatch)
        } else if same_text(s, "code.restore") {
            Some(Method::CodeRestore)
        } else if same_text(s, "code.list") {
            Some(Method::CodeList)
        } else {
            None
        }
    }

    /// Whether the method may run for long, so that it has no place among the tasks that
    /// answer requests.
    pub fn is_heavy(self) -> (r: bool)
        ensures
            r == (self == Method::ScanStart || self == Method::ScanFilter || self
                == Method::ScanAob || self == Method::PointerScan),
    {
        matches!(
            self,
            Method::ScanStart | Method::ScanFilter | Method::ScanAob | Method::PointerScan
        )
    }
}

// ─── What a method does ─────────────────────────────────────────────────────

/// A method answered so: `events` is what it asked of memory, `effects` is what the threads
/// have to do, and the daemon keeps `after` in place of `before`.
pub open spec fn answered(
    method: Method,
    params: Params,
    proc: ProcView,
    events: Seq<MemEvent>,
    before: StateView,
    after: StateView,
    effects: Seq<EffectView>,
    r: MethodResult,
) -> bool {
    match method {
        Method::PidList => {
            &&& events.len() == 0 && after == before && effects.len() == 0
            &&& scan::pid_list_gave(proc, r)
        },
        Method::PidFind => {
            &&& events.len() == 0 && after == before && effects.len() == 0
            &&& scan::pid_find_gave(params, proc, r)
        },
        Method::MapsGet => {
            &&& after == before && effects.len() == 0
            &&& scan::maps_get_ran(params, events, r)
        },
        Method::ScanStart => {
            &&& after == (StateView { sessions: after.sessions, ..before }) && effects.len() == 0
            &&& scan::scan_start_ran(params, events, before.sessions, after.sessions, r)
        },
        Method::ScanFilter => {
            &&& after == (StateView { sessions: after.sessions, ..before }) && effects.len() == 0
            &&& scan::scan_filter_ran(params, events, before.sessions, after.sessions, r)
        },
        Method::ScanAob => {
            &&& after == before && effects.len() == 0
            &&& scan::scan_aob_ran(params, events, r)
        },
        Method::ScanDiscard => {
            &&& after == (StateView { sessions: after.sessions, ..before })
            &&& events.len() == 0 && effects.len() == 0
            &&& scan::scan_discard_gave(params, before.sessions, after.sessions, r)
        },
        Method::ScanList => {
            &&& events.len() == 0 && after == before && effects.len() == 0
            &&& scan::scan_list_gave(before.sessions, r)
        },
        Method::ScanCandidates => {
            &&& events.len() == 0 && after == before && effects.len() == 0
            &&& scan::scan_candidates_gave(params, before.sessions, r)
        },
        Method::MemoryRead => {
            &&& after == before && effects.len() == 0
            &&& memory::memory_read_ran(params, events, r)
        },
        Method::MemoryWrite => {
            &&& after == before && effects.len() == 0
            &&& memory::memory_write_ran(params, events, r)
        },
        Method::MemoryWriteAll => {
            &&& after == before && effects.len() == 0
            &&& memory::memory_write_all_ran(params, events, before.sessions, r)
        },
        Method::MemoryDisassemble => {
            &&& after == before && effects.len() == 0
            &&& memory::memory_disassemble_ran(params, events, r)
        },
        Method::PointerScan => {
            &&& after == before && effects.len() == 0
            &&& scan::pointer_scan_ran(params, events, r)
        },
        Method::FreezeStart => {
            &&& events.len() == 0 && after == (StateView { freezes: after.freezes, ..before })
            &&& hold::freeze_start_gave(params, before.freezes, after.freezes, effects, r)
        },
        Method::FreezeStartAll => {
            &&& events.len() == 0 && after == (StateView { freezes: after.freezes, ..before })
            &&& hold::freeze_start_all_gave(
                params,
                before.sessions,
                before.freezes,
                after.freezes,
                effects,
                r,
            )
        },
        Method::FreezeStop => {
            &&& events.len() == 0 && after == (StateView { freezes: after.freezes, ..before })
            &&& hold::freeze_stop_gave(params, before.freezes, after.freezes, effects, r)
        },
        Method::FreezeList => {
            &&& events.len() == 0 && after == before && effects.len() == 0
            &&& hold::freeze_list_gave(before.freezes, r)
        },
        Method::WatchStart => {
            &&& events.len() == 0 && after == (StateView { watches: after.watches, ..before })
            &&& hold::watch_start_gave(params, before.watches, after.watches, effects, r)
        },
        Method::WatchHits => {
            &&& events.len() == 0 && after == before && effects.len() == 0
            &&& hold::watch_hits_gave(params, before.watches, r)
        },
        Method::WatchStop => {
            &&& events.len() == 0 && after == (StateView { watches: after.watches, ..before })
            &&& hold::watch_stop_gave(params, before.watches, after.watches, effects, r)
        },
        Method::WatchList => {
            &&& events.len() == 0 && after == before && effects.len() == 0
            &&& hold::watch_list_gave(before.watches, r)
        },
        Method::CodeNop => {
            &&& after == (StateView { patches: after.patches, ..before }) && effects.len() == 0
            &&& hold::code_nop_ran(params, events, before.patches, after.patches, r)
        },
        Method::CodePatch => {
            &&& after == (StateView { patches: after.patches, ..before }) && effects.len() == 0
            &&& hold::code_patch_ran(params, events, before.patches, after.patches, r)
        },
        Method::CodeRestore => {
            &&& after == (StateView { patches: after.patches, ..before }) && effects.len() == 0
            &&& hold::code_restore_ran(params, events, before.patches, after.patches, r)
        },
        Method::CodeList => {
            &&& events.len() == 0 && after == before && effects.len() == 0
            &&& hold::code_list_gave(before.patches, r)
        },
    }
}

/// Runs a method.
pub fn perform<M: MemoryAccess>(
    state: &mut RpcState<M>,
    method: Method,
    list: &Vec<(String, Param)>,
    proc: &Result<Vec<ProcEntry>, String>,
) -> (r: (MethodResult, Vec<Effect>))
    ensures
        access::follows(final(state).mem, old(state).mem),
        answered(
            method,
            params::param_views(list@),
            scan::proc_view(*proc),
            access::since(final(state).mem.trace(), old(state).mem.trace()),
            old(state)@,
            final(state)@,
            hold::effect_views(r.1@),
            r.0,
        ),
{
    proof {
        let trace = state.mem.trace();
        assert(access::since(trace, trace) =~= Seq::empty());
        assert(access::continues(trace, trace)) by {
            assert(trace.take(trace.len() as int) =~= trace);
        }
    }
    let quiet: Vec<Effect> = Vec::new();
    match method {
        Method::PidList => (scan::handle_pid_list(proc), quiet),
        Method::PidFind => (scan::handle_pid_find(list, proc), quiet),
        Method::MapsGet => (scan::handle_maps_get(&mut state.mem, list), quiet),
        Method::ScanStart => (
            scan::handle_scan_start(&mut state.mem, &mut state.sessions, list),
            quiet,
        ),
        Method::ScanFilter => (
            scan::handle_scan_filter(&mut state.mem, &mut state.sessions, list),
            quiet,
        ),
        Method::ScanAob => (scan::handle_scan_aob(&mut state.mem, list), quiet),
        Method::ScanDiscard => (scan::handle_scan_discard(&mut state.sessions, list), quiet),
        Method::ScanList => (scan::handle_scan_list(&state.sessions), quiet),
        Method::ScanCandidates => (
            scan::handle_scan_candidates(&mut state.sessions, list),
            quiet,
        ),
        Method::MemoryRead => (memory::handle_memory_read(&mut state.mem, list), quiet),
        Method::MemoryWrite => (memory::handle_memory_write(&mut state.mem, list), quiet),
        Method::MemoryWriteAll => (
            memory::handle_memory_write_all(&mut state.mem, &mut state.sessions, list),
            quiet,
        ),
        Method::MemoryDisassemble => (
            memory::handle_memory_disassemble(&mut state.mem, list),
            quiet,
        ),
        Method::PointerScan => (scan::handle_pointer_scan(&mut state.mem, list), quiet),
        Method::FreezeStart => hold::handle_freeze_start(&mut state.freeze, list),
        Method::FreezeStartAll => hold::handle_freeze_start_all(
            &mut state.sessions,
            &mut state.freeze,
            list,
        ),
        Method::FreezeStop => hold::handle_freeze_stop(&mut state.freeze, list),
        Method::FreezeList => (hold::handle_freeze_list(&state.freeze), quiet),
        Method::WatchStart => hold::handle_watch_start(&mut state.watch, list),
        Method::WatchHits => (hold::handle_watch_hits(&state.watch, list), quiet),
        Method::WatchStop => hold::handle_watch_stop(&mut state.watch, list),
        Method::WatchList => (hold::handle_watch_list(&state.watch), quiet),
        Method::CodeNop => (
            hold::handle_code_nop(&mut state.mem, &mut state.patch, list),
            quiet,
        ),
        Method::CodePatch => (
            hold::handle_code_patch(&mut state.mem, &mut state.patch, list),
            quiet,
        ),
        Method::CodeRestore => (
            hold::handle_code_restore(&mut state.mem, &mut state.patch, list),
            quiet,
        ),
        Method::CodeList => (hold::handle_code_list(&state.patch), quiet),
    }
}

// ─── Requests ───────────────────────────────────────────────────────────────

/// A response, and what the threads have to do.
#[derive(Debug)]
pub struct Reply {
    /// The response.
    pub response: JsonRpcResponse,
    /// What the threads have to do.
    pub effects: Vec<Effect>,
}

/// The response to what a method came to. It carries the identifier that the request carried.
pub open spec fn responds(response: JsonRpcResponse, id: Option<Value>, r: MethodResult) -> bool {
    match r {
        Ok(x) => response.succeeds(id, x),
        Err(e) => response.fails(id, e.code, e.message@),
    }
}

/// A method was run on the members of a value, in some order, and this is the response.
pub open spec fn served(
    method: Method,
    value: Value,
    id: Option<Value>,
    proc: ProcView,
    events: Seq<MemEvent>,
    before: StateView,
    after: StateView,
    effects: Seq<EffectView>,
    response: JsonRpcResponse,
) -> bool {
    exists|params: Params, r: MethodResult|
        {
            &&& #[trigger] answered(method, params, proc, events, before, after, effects, r)
            &&& params::lists_members(params, params::members(value))
            &&& responds(response, id, r)
        }
}

/// A request was dispatched, and this is the response. One that is not of this protocol, or
/// that names no method, does nothing.
pub open spec fn dispatched(
    req: JsonRpcRequest,
    proc: ProcView,
    events: Seq<MemEvent>,
    before: StateView,
    after: StateView,
    effects: Seq<EffectView>,
    response: JsonRpcResponse,
) -> bool {
    match (req.fault(), method_named(req.method@)) {
        (Some(fault), _) => {
            &&& events.len() == 0 && after == before && effects.len() == 0
            &&& response.fails(req.id, INVALID_REQUEST, fault)
        },
        (None, None) => {
            &&& events.len() == 0 && after == before && effects.len() == 0
            &&& response.fails(req.id, METHOD_NOT_FOUND, "unknown method: "@ + req.method@)
        },
        (None, Some(method)) => served(
            method,
            req.params,
            req.id,
            proc,
            events,
            before,
            after,
            effects,
            response,
        ),
    }
}

/// Hands a request to its method.
pub fn dispatch<M: MemoryAccess>(
    state: &mut RpcState<M>,
    req: &JsonRpcRequest,
    proc: &Result<Vec<ProcEntry>, String>,
) -> (r: Reply)
    ensures
        access::follows(final(state).mem, old(state).mem),
        dispatched(
            *req,
            scan::proc_view(*proc),
            access::since(final(state).mem.trace(), old(state).mem.trace()),
            old(state)@,
            final(state)@,
            hold::effect_views(r.effects@),
            r.response,
        ),
{
    proof {
        let trace = state.mem.trace();
        assert(access::since(trace, trace) =~= Seq::empty());
        assert(access::continues(trace, trace)) by {
            assert(trace.take(trace.len() as int) =~= trace);
        }
    }
    if let Err(fault) = req.validate() {
        return Reply {
            response: JsonRpcResponse::err(copy_id(&req.id), INVALID_REQUEST, fault),
            effects: Vec::new(),
        };
    }
    let method = match Method::named(req.method.as_str()) {
        Some(m) => m,
        None => {
            let mut message = "unknown method: ".to_string();
            message.append(req.method.as_str());
            return Reply {
                response: JsonRpcResponse::err(copy_id(&req.id), METHOD_NOT_FOUND, message),
                effects: Vec::new(),
            };
        },
    };
    let list = read_members(&req.params);
    let (result, effects) = perform(state, method, &list, proc);
    let ghost came = result;
    let response = match result {
        Ok(x) => JsonRpcResponse::ok(copy_id(&req.id), x),
        Err(e) => JsonRpcResponse::err(copy_id(&req.id), e.code, e.message),
    };
    assert(responds(response, req.id, came));
    assert(answered(
        method,
        params::param_views(list@),
        scan::proc_view(*proc),
        access::since(state.mem.trace(), old(state).mem.trace()),
        old(state)@,
        state@,
        hold::effect_views(effects@),
        came,
    ));
    Reply { response, effects }
}

// ─── Threads ────────────────────────────────────────────────────────────────

/// What an effect came to: nothing, or why it failed.
pub open spec fn outcomes(v: Seq<Option<String>>) -> Seq<Result<(), Seq<char>>> {
    Seq::new(
        v.len(),
        |i: int|
            match v[i] {
                None => Ok(()),
                Some(e) => Err(e@),
            },
    )
}

/// What is held once the freezes whose threads could not be started are given up.
pub open spec fn held_after(
    held: Map<u64, FreezeEntry>,
    effects: Seq<EffectView>,
    results: Seq<Result<(), Seq<char>>>,
) -> Map<u64, FreezeEntry>
    decreases effects.len(),
{
    if effects.len() == 0 {
        held
    } else {
        let before = held_after(held, effects.drop_last(), results);
        match (effects.last(), results[effects.len() - 1]) {
            (EffectView::StartFreeze(e), Err(_)) => before.remove(e.address),
            _ => before,
        }
    }
}

/// What is watched once the watches whose threads could not be started are given up.
pub open spec fn watched_after(
    watches: Map<Seq<char>, WatchView>,
    effects: Seq<EffectView>,
    results: Seq<Result<(), Seq<char>>>,
) -> Map<Seq<char>, WatchView>
    decreases effects.len(),
{
    if effects.len() == 0 {
        watches
    } else {
        let before = watched_after(watches, effects.drop_last(), results);
        match (effects.last(), results[effects.len() - 1]) {
            (EffectView::StartWatch(id, _), Err(_)) => before.remove(id),
            _ => before,
        }
    }
}

/// The first failure, where there is one.
pub open spec fn first_failure(results: Seq<Result<(), Seq<char>>>) -> Option<Seq<char>>
    decreases results.len(),
{
    if results.len() == 0 {
        None
    } else {
        match results[0] {
            Err(e) => Some(e),
            Ok(()) => first_failure(results.drop_first()),
        }
    }
}

/// The address that an effect is about.
pub open spec fn place(e: EffectView) -> u64 {
    match e {
        EffectView::StartFreeze(f) => f.address,
        EffectView::StopFreeze(a) => a,
        _ => 0,
    }
}

/// The addresses that the effects are about.
pub open spec fn places(effects: Seq<EffectView>) -> Seq<u64> {
    Seq::new(effects.len(), |i: int| place(effects[i]))
}

/// The response once it is known what came of the effects: where the one thread that it is
/// about could not be started it is an error, and where it is about many each of them is
/// accounted for.
pub open spec fn settled(
    before: JsonRpcResponse,
    effects: Seq<EffectView>,
    results: Seq<Result<(), Seq<char>>>,
    after: JsonRpcResponse,
) -> bool {
    match before.result {
        Some(RpcResult::FreezeStarted { .. }) | Some(RpcResult::WatchStarted { .. }) => {
            match first_failure(results) {
                Some(e) => after.fails(before.id, INTERNAL_ERROR, e),
                None => after == before,
            }
        },
        Some(RpcResult::Frozen(_)) => {
            &&& after.jsonrpc == before.jsonrpc
            &&& after.error == before.error
            &&& after.id == before.id
            &&& after.result matches Some(RpcResult::Frozen(b))
            &&& b.shows(places(effects), results)
        },
        _ => after == before,
    }
}

fn find_failure(outcome: &Vec<Option<String>>) -> (r: Option<String>)
    ensures
        text::optional(r) == first_failure(outcomes(outcome@)),
{
    let ghost results = outcomes(outcome@);
    let mut i: usize = 0;
    assert(results.skip(0) =~= results);
    while i < outcome.len()
        invariant
            i <= outcome@.len(),
            results == outcomes(outcome@),
            first_failure(results) == first_failure(results.skip(i as int)),
        decreases outcome@.len() - i,
    {
        proof {
            assert(results.skip(i as int)[0] == results[i as int]);
            assert(results.skip(i as int).drop_first() =~= results.skip(i + 1));
        }
        if let Some(e) = &outcome[i] {
            return Some(e.clone());
        }
        i += 1;
    }
    assert(results.skip(i as int).len() == 0);
    None
}

fn place_of(e: &Effect) -> (r: u64)
    ensures
        r == place(e@),
{
    match e {
        Effect::StartFreeze(f) => f.address,
        Effect::StopFreeze(a) => *a,
        _ => 0,
    }
}

fn account(effects: &Vec<Effect>, outcome: &Vec<Option<String>>) -> (r: BulkJson)
    requires
        outcome@.len() == effects@.len(),
    ensures
        r.shows(places(hold::effect_views(effects@)), outcomes(outcome@)),
{
    let ghost all = places(hold::effect_views(effects@));
    let ghost results = outcomes(outcome@);
    let mut addresses: Vec<String> = Vec::new();
    let mut errors: Vec<BulkError> = Vec::new();
    let mut i: usize = 0;
    proof {
        assert(text::texts(addresses@) =~= memory::done_at(all.take(0), results));
        assert(memory::error_views(errors@) =~= memory::failed_at(all.take(0), results));
    }
    while i < effects.len()
        invariant
            i <= effects@.len(),
            outcome@.len() == effects@.len(),
            all == places(hold::effect_views(effects@)),
            results == outcomes(outcome@),
            text::texts(addresses@) == memory::done_at(all.take(i as int), results),
            memory::error_views(errors@) == memory::failed_at(all.take(i as int), results),
        decreases effects@.len() - i,
    {
        let address: u64 = place_of(&effects[i]);
        let ghost done_before = text::texts(addresses@);
        let ghost failed_before = memory::error_views(errors@);
        proof {
            assert(hold::effect_views(effects@)[i as int] == effects@[i as int]@);
            assert(all[i as int] == address);
            assert(all.take(i + 1).drop_last() =~= all.take(i as int));
            assert(all.take(i + 1).last() == address);
        }
        match &outcome[i] {
            None => {
                addresses.push(address_text(address));
                assert(text::texts(addresses@) =~= done_before.push(text::address(address)));
            },
            Some(e) => {
                let error = BulkError { address: address_text(address), error: e.clone() };
                errors.push(error);
                assert(memory::error_views(errors@) =~= failed_before.push(
                    (error.address@, error.error@),
                ));
            },
        }
        i += 1;
    }
    assert(all.take(effects@.len() as int) =~= all);
    BulkJson { done: addresses.len(), failed: errors.len(), addresses, errors }
}

/// Takes in what came of the effects of a reply, one outcome for each. Freezes and watches
/// whose threads could not be started are given up, and the response says so.
pub fn settle<M: MemoryAccess>(
    state: &mut RpcState<M>,
    reply: Reply,
    outcome: &Vec<Option<String>>,
) -> (r: JsonRpcResponse)
    requires
        outcome@.len() == reply.effects@.len(),
    ensures
        final(state).mem == old(state).mem,
        final(state)@.sessions == old(state)@.sessions,
        final(state)@.patches == old(state)@.patches,
        final(state)@.freezes == held_after(
            old(state)@.freezes,
            hold::effect_views(reply.effects@),
            outcomes(outcome@),
        ),
        final(state)@.watches == watched_after(
            old(state)@.watches,
            hold::effect_views(reply.effects@),
            outcomes(outcome@),
        ),
        settled(
            reply.response,
            hold::effect_views(reply.effects@),
            outcomes(outcome@),
            r,
        ),
{
    let Reply { response, effects } = reply;
    let ghost views = hold::effect_views(effects@);
    let ghost results = outcomes(outcome@);
    let mut i: usize = 0;
    while i < effects.len()
        invariant
            i <= effects@.len(),
            outcome@.len() == effects@.len(),
            views == hold::effect_views(effects@),
            results == outcomes(outcome@),
            state.mem == old(state).mem,
            state.sessions@ == old(state).sessions@,
            state.patch@ == old(state).patch@,
            state.freeze@ == held_after(old(state).freeze@, views.take(i as int), results),
            state.watch@ == watched_after(old(state).watch@, views.take(i as int), results),
        decreases effects@.len() - i,
    {
        proof {
            assert(views.take(i + 1).drop_last() =~= views.take(i as int));
            assert(views.take(i + 1).last() == effects@[i as int]@);
        }
        if outcome[i].is_some() {
            match &effects[i] {
                Effect::StartFreeze(e) => {
                    let _ = state.freeze.stop(e.address);
                },
                Effect::StartWatch(id, _) => {
                    let _ = state.watch.stop(id.as_str());
                },
                _ => {},
            }
        }
        i += 1;
    }
    assert(views.take(effects@.len() as int) =~= views);
    let JsonRpcResponse { jsonrpc, result, error, id } = response;
    match result {
        Some(RpcResult::FreezeStarted { address }) => match find_failure(outcome) {
            Some(e) => JsonRpcResponse::err(id, INTERNAL_ERROR, e),
            None => JsonRpcResponse {
                jsonrpc,
                result: Some(RpcResult::FreezeStarted { address }),
                error,
                id,
            },
        },
        Some(RpcResult::WatchStarted { watch_id }) => match find_failure(outcome) {
            Some(e) => JsonRpcResponse::err(id, INTERNAL_ERROR, e),
            None => JsonRpcResponse {
                jsonrpc,
                result: Some(RpcResult::WatchStarted { watch_id }),
                error,
                id,
            },
        },
        Some(RpcResult::Frozen(_)) => JsonRpcResponse {
            jsonrpc,
            result: Some(RpcResult::Frozen(account(&effects, outcome))),
            error,
            id,
        },
        other => JsonRpcResponse { jsonrpc, result: other, error, id },
    }
}

// ─── Laws ───────────────────────────────────────────────────────────────────

/// A method answers to its own name and to no other.
pub proof fn methods_go_by_their_names(s: Seq<char>)
    ensures
        method_named(s) == Some(Method::ScanStart) <==> s == "scan.start"@,
        method_named(s) == Some(Method::ScanFilter) <==> s == "scan.filter"@,
        method_named(s) == Some(Method::ScanAob) <==> s == "scan.aob"@,
        method_named(s) == Some(Method::PointerScan) <==> s == "pointer.scan"@,
        method_named(s) == Some(Method::PidList) <==> s == "pid.list"@,
        method_named(s) == Some(Method::PidFind) <==> s == "pid.find"@,
        method_named(s) == Some(Method::MapsGet) <==> s == "maps.get"@,
        method_named(s) == Some(Method::ScanDiscard) <==> s == "scan.discard"@,
        method_named(s) == Some(Method::ScanList) <==> s == "scan.list"@,
        method_named(s) == Some(Method::ScanCandidates) <==> s == "scan.candidates"@,
        method_named(s) == Some(Method::MemoryRead) <==> s == "memory.read"@,
        method_named(s) == Some(Method::MemoryWrite) <==> s == "memory.write"@,
        method_named(s) == Some(Method::MemoryWriteAll) <==> s == "memory.write_all"@,
        method_named(s) == Some(Method::FreezeStartAll) <==> s == "freeze.start_all"@,
        method_named(s) == Some(Method::MemoryDisassemble) <==> s == "memory.disassemble"@,
        method_named(s) == Some(Method::FreezeStart) <==> s == "freeze.start"@,
        method_named(s) == Some(Method::FreezeStop) <==> s == "freeze.stop"@,
        method_named(s) == Some(Method::FreezeList) <==> s == "freeze.list"@,
        method_named(s) == Some(Method::WatchStart) <==> s == "watch.start"@,
        method_named(s) == Some(Method::WatchHits) <==> s == "watch.hits"@,
        method_named(s) == Some(Method::WatchStop) <==> s == "watch.stop"@,
        method_named(s) == Some(Method::WatchList) <==> s == "watch.list"@,
        method_named(s) == Some(Method::CodeNop) <==> s == "code.nop"@,
        method_named(s) == Some(Method::CodePatch) <==> s == "code.patch"@,
        method_named(s) == Some(Method::CodeRestore) <==> s == "code.restore"@,
        method_named(s) == Some(Method::CodeList) <==> s == "code.list"@,
{
    reveal_strlit("scan.start");
    reveal_strlit("scan.filter");
    reveal_strlit("scan.aob");
    reveal_strlit("pointer.scan");
    reveal_strlit("pid.list");
    reveal_strlit("pid.find");
    reveal_strlit("maps.get");
    reveal_strlit("scan.discard");
    reveal_strlit("scan.list");
    reveal_strlit("scan.candidates");
    reveal_strlit("memory.read");
    reveal_strlit("memory.write");
    reveal_strlit("memory.write_all");
    reveal_strlit("freeze.start_all");
    reveal_strlit("memory.disassemble");
    reveal_strlit("freeze.start");
    reveal_strlit("freeze.stop");
    reveal_strlit("freeze.list");
    reveal_strlit("watch.start");
    reveal_strlit("watch.hits");
    reveal_strlit("watch.stop");
    reveal_strlit("watch.list");
    reveal_strlit("code.nop");
    reveal_strlit("code.patch");
    reveal_strlit("code.restore");
    reveal_strlit("code.list");
    assert("scan.start"@.len() == 10);
    assert("scan.filter"@.len() == 11);
    assert("scan.aob"@.len() == 8);
    assert("pointer.scan"@.len() == 12);
    assert("pid.list"@.len() == 8);
    assert("pid.find"@.len() == 8);
    assert("maps.get"@.len() == 8);
    assert("scan.discard"@.len() == 12);
    assert("scan.list"@.len() == 9);
    assert("scan.candidates"@.len() == 15);
    assert("memory.read"@.len() == 11);
    assert("memory.write"@.len() == 12);
    assert("memory.write_all"@.len() == 16);
    assert("freeze.start_all"@.len() == 16);
    assert("memory.disassemble"@.len() == 18);
    assert("freeze.start"@.len() == 12);
    assert("freeze.stop"@.len() == 11);
    assert("freeze.list"@.len() == 11);
    assert("watch.start"@.len() == 11);
    assert("watch.hits"@.len() == 10);
    assert("watch.stop"@.len() == 10);
    assert("watch.list"@.len() == 10);
    assert("code.nop"@.len() == 8);
    assert("code.patch"@.len() == 10);
    assert("code.restore"@.len() == 12);
    assert("code.list"@.len() == 9);
    assert("scan.aob"@[0] == 's' && "scan.aob"@[4] == '.');
    assert("pid.list"@[0] == 'p' && "pid.list"@[4] == 'l');
    assert("pid.find"@[0] == 'p' && "pid.find"@[4] == 'f');
    assert("maps.get"@[0] == 'm' && "maps.get"@[4] == '.');
    assert("code.nop"@[0] == 'c' && "code.nop"@[4] == '.');
    assert("scan.list"@[0] == 's');
    assert("code.list"@[0] == 'c');
    assert("scan.start"@[6] == 't');
    assert("watch.hits"@[6] == 'h');
    assert("watch.stop"@[6] == 's');
    assert("watch.list"@[6] == 'l');
    assert("code.patch"@[6] == 'a');
    assert("scan.filter"@[9] == 'e');
    assert("memory.read"@[9] == 'a');
    assert("freeze.stop"@[9] == 'o');
    assert("freeze.list"@[9] == 's');
    assert("watch.start"@[9] == 'r');
    assert("pointer.scan"@[0] == 'p');
    assert("scan.discard"@[0] == 's');
    assert("memory.write"@[0] == 'm');
    assert("freeze.start"@[0] == 'f');
    assert("code.restore"@[0] == 'c');
    assert("memory.write_all"@[0] == 'm');
    assert("freeze.start_all"@[0] == 'f');
}

/// A freeze whose loop could not be started is given up; one whose loop could be, and what was
/// held elsewhere, stays.
pub proof fn failed_freezes_are_given_up(
    held: Map<u64, FreezeEntry>,
    effects: Seq<EffectView>,
    results: Seq<Result<(), Seq<char>>>,
    a: u64,
)
    requires
        results.len() == effects.len(),
    ensures
        held_after(held, effects, results).contains_key(a) <==> held.contains_key(a) && !exists|
            i: int,
        |
            {
                &&& 0 <= i < effects.len()
                &&& (#[trigger] effects[i]) is StartFreeze
                &&& effects[i]->StartFreeze_0.address == a
                &&& results[i] is Err
            },
        held_after(held, effects, results).contains_key(a) ==> held_after(
            held,
            effects,
            results,
        )[a] == held[a],
    decreases effects.len(),
{
    if effects.len() > 0 {
        let n = effects.len() - 1;
        let rest = effects.drop_last();
        let outcomes = results.drop_last();
        lemma_held_after(held, rest, outcomes, results);
        failed_freezes_are_given_up(held, rest, outcomes, a);
        if exists|i: int|
            {
                &&& 0 <= i < rest.len()
                &&& (#[trigger] rest[i]) is StartFreeze
                &&& rest[i]->StartFreeze_0.address == a
                &&& outcomes[i] is Err
            } {
            let i = choose|i: int|
                {
                    &&& 0 <= i < rest.len()
                    &&& (#[trigger] rest[i]) is StartFreeze
                    &&& rest[i]->StartFreeze_0.address == a
                    &&& outcomes[i] is Err
                };
            assert(effects[i] == rest[i] && results[i] is Err);
        } else if effects[n] is StartFreeze && effects[n]->StartFreeze_0.address == a
            && results[n] is Err {
            assert(effects[n] is StartFreeze);
        } else {
            assert forall|i: int|
                0 <= i < effects.len() && (#[trigger] effects[i]) is StartFreeze
                    && effects[i]->StartFreeze_0.address == a implies results[i] is Ok by {
                if i < n {
                    assert(rest[i] == effects[i] && outcomes[i] == results[i]);
                }
            }
        }
    }
}

proof fn lemma_held_after(
    held: Map<u64, FreezeEntry>,
    effects: Seq<EffectView>,
    a: Seq<Result<(), Seq<char>>>,
    b: Seq<Result<(), Seq<char>>>,
)
    requires
        a.len() >= effects.len(),
        b.len() >= effects.len(),
        forall|i: int| 0 <= i < effects.len() ==> a[i] == b[i],
    ensures
        held_after(held, effects, a) == held_after(held, effects, b),
    decreases effects.len(),
{
    if effects.len() > 0 {
        lemma_held_after(held, effects.drop_last(), a, b);
    }
}

/// What is reported is the first thing that failed, and something is where anything failed.
pub proof fn the_first_failure_is_reported(results: Seq<Result<(), Seq<char>>>, i: int)
    requires
        0 <= i < results.len(),
        results[i] is Err,
        forall|j: int| 0 <= j < i ==> (#[trigger] results[j]) is Ok,
    ensures
        first_failure(results) == Some(results[i]->Err_0),
    decreases i,
{
    if i > 0 {
        let rest = results.drop_first();
        assert(results[0] is Ok);
        assert forall|j: int| 0 <= j < i - 1 implies (#[trigger] rest[j]) is Ok by {
            assert(rest[j] == results[j + 1]);
        }
        the_first_failure_is_reported(rest, i - 1);
    }
}

/// Nothing is reported where nothing failed.
pub proof fn success_is_not_reported(results: Seq<Result<(), Seq<char>>>)
    requires
        forall|j: int| 0 <= j < results.len() ==> (#[trigger] results[j]) is Ok,
    ensures
        first_failure(results) is None,
    decreases results.len(),
{
    if results.len() > 0 {
        let rest = results.drop_first();
        assert(results[0] is Ok);
        assert forall|j: int| 0 <= j < rest.len() implies (#[trigger] rest[j]) is Ok by {
            assert(rest[j] == results[j + 1]);
        }
        success_is_not_reported(rest);
    }
}

/// Methods that only look leave everything as it is, and none of them sets threads to work.
pub proof fn looking_changes_nothing(
    method: Method,
    params: Params,
    proc: ProcView,
    events: Seq<MemEvent>,
    before: StateView,
    after: StateView,
    effects: Seq<EffectView>,
    r: MethodResult,
)
    requires
        answered(method, params, proc, events, before, after, effects, r),
        method == Method::PidList || method == Method::PidFind || method == Method::MapsGet
            || method == Method::ScanAob || method == Method::ScanList || method
            == Method::ScanCandidates || method == Method::MemoryRead || method
            == Method::MemoryDisassemble || method == Method::PointerScan || method
            == Method::FreezeList || method == Method::WatchHits || method == Method::WatchList
            || method == Method::CodeList,
    ensures
        after == before,
        effects.len() == 0,
{
}

/// A method touches its own registry and no other.
pub proof fn methods_keep_to_their_own(
    method: Method,
    params: Params,
    proc: ProcView,
    events: Seq<MemEvent>,
    before: StateView,
    after: StateView,
    effects: Seq<EffectView>,
    r: MethodResult,
)
    requires
        answered(method, params, proc, events, before, after, effects, r),
    ensures
        after.sessions == before.sessions || method == Method::ScanStart || method
            == Method::ScanFilter || method == Method::ScanDiscard,
        after.freezes == before.freezes || method == Method::FreezeStart || method
            == Method::FreezeStartAll || method == Method::FreezeStop,
        after.watches == before.watches || method == Method::WatchStart || method
            == Method::WatchStop,
        after.patches == before.patches || method == Method::CodeNop || method
            == Method::CodePatch || method == Method::CodeRestore,
{
}

/// A watch whose tracer could not be started is given up; the others stay.
pub proof fn failed_watches_are_given_up(
    watches: Map<Seq<char>, WatchView>,
    effects: Seq<EffectView>,
    results: Seq<Result<(), Seq<char>>>,
    id: Seq<char>,
)
    requires
        results.len() == effects.len(),
    ensures
        watched_after(watches, effects, results).contains_key(id) <==> watches.contains_key(id)
            && !exists|i: int|
            {
                &&& 0 <= i < effects.len()
                &&& (#[trigger] effects[i]) is StartWatch
                &&& effects[i]->StartWatch_0 == id
                &&& results[i] is Err
            },
        watched_after(watches, effects, results).contains_key(id) ==> watched_after(
            watches,
            effects,
            results,
        )[id] == watches[id],
    decreases effects.len(),
{
    if effects.len() > 0 {
        let n = effects.len() - 1;
        let rest = effects.drop_last();
        let outcomes = results.drop_last();
        lemma_watched_after(watches, rest, outcomes, results);
        failed_watches_are_given_up(watches, rest, outcomes, id);
        if exists|i: int|
            {
                &&& 0 <= i < rest.len()
                &&& (#[trigger] rest[i]) is StartWatch
                &&& rest[i]->StartWatch_0 == id
                &&& outcomes[i] is Err
            } {
            let i = choose|i: int|
                {
                    &&& 0 <= i < rest.len()
                    &&& (#[trigger] rest[i]) is StartWatch
                    &&& rest[i]->StartWatch_0 == id
                    &&& outcomes[i] is Err
                };
            assert(effects[i] == rest[i] && results[i] is Err);
        } else if effects[n] is StartWatch && effects[n]->StartWatch_0 == id && results[n]
            is Err {
            assert(effects[n] is StartWatch);
        } else {
            assert forall|i: int|
                0 <= i < effects.len() && (#[trigger] effects[i]) is StartWatch
                    && effects[i]->StartWatch_0 == id implies results[i] is Ok by {
                if i < n {
                    assert(rest[i] == effects[i] && outcomes[i] == results[i]);
                }
            }
        }
    }
}

proof fn lemma_watched_after(
    watches: Map<Seq<char>, WatchView>,
    effects: Seq<EffectView>,
    a: Seq<Result<(), Seq<char>>>,
    b: Seq<Result<(), Seq<char>>>,
)
    requires
        a.len() >= effects.len(),
        b.len() >= effects.len(),
        forall|i: int| 0 <= i < effects.len() ==> a[i] == b[i],
    ensures
        watched_after(watches, effects, a) == watched_after(watches, effects, b),
    decreases effects.len(),
{
    if effects.len() > 0 {
        lemma_watched_after(watches, effects.drop_last(), a, b);
    }
}

} // verus!
