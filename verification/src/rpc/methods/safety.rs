//! What every method keeps to.

use crate::mem::access::MemEvent;
use crate::mem::disassemble;
use crate::mem::freeze::FreezeEntry;
use crate::mem::patch;
use crate::mem::patch::{PatchErrorView, PatchView};
use crate::mem::write::WriteErrorView;
use crate::process::maps::RegionView;
use crate::rpc::methods;
use crate::rpc::methods::answer::MethodResult;
use crate::rpc::methods::hold::EffectView;
use crate::rpc::methods::memory;
use crate::rpc::methods::scan::ProcView;
use crate::rpc::methods::{hold, scan, Method, StateView};
use crate::rpc::params;
use crate::rpc::params::Params;
use crate::rpc::types::{
    JsonRpcRequest, JsonRpcResponse, INTERNAL_ERROR, INVALID_PARAMS, INVALID_REQUEST, PARSE_ERROR,
};
use crate::scan::aob;
use crate::scan::candidate::CandidateView;
use crate::scan::engine;
use crate::scan::engine::SessionView;
use crate::scan::pointer;
use serde_json::Value;
use vstd::prelude::*;

verus! {

/// An event that leaves the target as it is.
pub open spec fn harmless(e: MemEvent) -> bool {
    !e.mutates()
}

/// Every event leaves the target as it is.
pub open spec fn all_harmless(events: Seq<MemEvent>) -> bool {
    forall|i: int| 0 <= i < events.len() ==> harmless(#[trigger] events[i])
}

proof fn lemma_chained_harmless(parts: Seq<Seq<MemEvent>>)
    requires
        forall|i: int| 0 <= i < parts.len() ==> all_harmless(#[trigger] parts[i]),
    ensures
        all_harmless(engine::chained(parts)),
{
    let good = |e: MemEvent| harmless(e);
    assert forall|i: int, j: int| 0 <= i < parts.len() && 0 <= j < parts[i].len() implies good(
        #[trigger] parts[i][j],
    ) by {
        assert(all_harmless(parts[i]));
    }
    engine::lemma_chained_all(parts, good);
    assert forall|k: int| 0 <= k < engine::chained(parts).len() implies harmless(
        #[trigger] engine::chained(parts)[k],
    ) by {
        assert(good(engine::chained(parts)[k]));
    }
}

proof fn lemma_regions_harmless(
    parts: Seq<Seq<MemEvent>>,
    pid: u32,
    targets: Seq<RegionView>,
)
    requires
        engine::reads_regions(parts, pid, targets),
    ensures
        all_harmless(engine::chained(parts)),
{
    assert forall|i: int| 0 <= i < parts.len() implies all_harmless(#[trigger] parts[i]) by {
        assert(engine::reads_region(parts[i], pid, targets[i]));
    }
    lemma_chained_harmless(parts);
}

proof fn lemma_first_look(events: Seq<MemEvent>)
    requires
        events.len() > 0,
        harmless(events[0]),
        all_harmless(events.skip(1)),
    ensures
        all_harmless(events),
{
    assert forall|i: int| 0 <= i < events.len() implies harmless(#[trigger] events[i]) by {
        if i > 0 {
            assert(events.skip(1)[i - 1] == events[i]);
        }
    }
}

proof fn lemma_scan_start(
    params: Params,
    events: Seq<MemEvent>,
    before: Map<Seq<char>, SessionView>,
    after: Map<Seq<char>, SessionView>,
    r: MethodResult,
)
    requires
        scan::scan_start_ran(params, events, before, after, r),
    ensures
        all_harmless(events),
{
    if events.len() > 0 {
        let pid = params::process(params)->0;
        let value = params::quantity(params, "value"@)->0;
        let dtype = scan::type_or_auto(params);
        let result = choose|result: Result<SessionView, Seq<char>>| #[trigger]
            engine::first_scan_ran(events, pid, value, dtype, result) && scan::scan_start_gave(
                result,
                before,
                after,
                r,
            );
        if let Ok(regions) = events[0]->Maps_outcome {
            let rest = events.skip(1);
            let targets = engine::scan_targets(regions);
            let patterns = engine::scan_patterns(value, dtype);
            let finds = choose|finds: Seq<CandidateView>| #[trigger]
                engine::scanned(rest, pid, targets, patterns, finds) && engine::one_per_address(
                    result->Ok_0.candidates,
                    finds,
                );
            let parts = choose|parts: Seq<Seq<MemEvent>>| #[trigger]
                engine::reads_regions(parts, pid, targets) && rest == engine::chained(parts)
                    && finds == engine::reads_finds(rest, patterns);
            lemma_regions_harmless(parts, pid, targets);
            lemma_first_look(events);
        }
    }
}

proof fn lemma_scan_aob(params: Params, events: Seq<MemEvent>, r: MethodResult)
    requires
        scan::scan_aob_ran(params, events, r),
    ensures
        all_harmless(events),
{
    if events.len() > 0 {
        let pid = params::process(params)->0;
        let pattern = aob::text_pattern(params::words(params, "pattern"@)->0)->Ok_0;
        let wide = params::flagged(params, "include_readonly"@);
        let result = choose|result: Result<Seq<u64>, Seq<char>>| #[trigger]
            aob::aob_scan_ran(events, pid, pattern, wide, result) && scan::scan_aob_gave(
                result,
                r,
            );
        if let Ok(regions) = events[0]->Maps_outcome {
            let rest = events.skip(1);
            let targets = aob::aob_targets(regions, wide);
            let found = result->Ok_0;
            let parts = choose|parts: Seq<Seq<MemEvent>>| #[trigger]
                engine::reads_regions(parts, pid, targets) && rest == engine::chained(parts)
                    && found == aob::all_matches(parts, targets, pattern);
            lemma_regions_harmless(parts, pid, targets);
            lemma_first_look(events);
        }
    }
}

proof fn lemma_all_reads_harmless(
    scans: Seq<Seq<Seq<MemEvent>>>,
    pid: u32,
    targets: Seq<RegionView>,
)
    requires
        forall|k: int|
            0 <= k < scans.len() ==> pointer::reads_all(#[trigger] scans[k], pid, targets),
    ensures
        all_harmless(pointer::all_reads(scans)),
    decreases scans.len(),
{
    if scans.len() > 0 {
        let rest = scans.drop_last();
        let parts = scans.last();
        assert forall|k: int| 0 <= k < rest.len() implies pointer::reads_all(
            #[trigger] rest[k],
            pid,
            targets,
        ) by {
            assert(rest[k] == scans[k]);
        }
        lemma_all_reads_harmless(rest, pid, targets);
        assert(pointer::reads_all(scans[scans.len() - 1], pid, targets));
        assert forall|i: int| 0 <= i < parts.len() implies all_harmless(#[trigger] parts[i]) by {
            assert(pointer::reads_for_pointers(parts[i], pid, targets[i]));
        }
        lemma_chained_harmless(parts);
        let whole = pointer::all_reads(scans);
        let before = pointer::all_reads(rest);
        assert forall|k: int| 0 <= k < whole.len() implies harmless(#[trigger] whole[k]) by {
            if k < before.len() {
                assert(whole[k] == before[k]);
            } else {
                assert(whole[k] == engine::chained(parts)[k - before.len()]);
            }
        }
    }
}

proof fn lemma_pointer_scan(params: Params, events: Seq<MemEvent>, r: MethodResult)
    requires
        scan::pointer_scan_ran(params, events, r),
    ensures
        all_harmless(events),
{
    if events.len() > 0 {
        let pid = params::process(params)->0;
        let target = params::address_of(params::param(params, "target"@))->0;
        let limits = scan::pointer_limits(params);
        if let Ok(regions) = events[0]->Maps_outcome {
            let rest = events.skip(1);
            let chains = pointer::chain_views(r->Ok_0->Chains_0@);
            let scans = choose|scans: Seq<Seq<Seq<MemEvent>>>| #[trigger]
                pointer::search_ran(scans, pid, target, regions, limits) && rest
                    == pointer::all_reads(scans) && chains == pointer::search_after(
                    scans,
                    target,
                    pointer::modules_of(regions),
                    limits,
                ).chains;
            lemma_all_reads_harmless(scans, pid, pointer::pointer_targets(regions));
            lemma_first_look(events);
        }
    }
}

/// The methods that write values.
pub open spec fn writes_values(method: Method) -> bool {
    method == Method::MemoryWrite || method == Method::MemoryWriteAll
}

/// The methods that change code.
pub open spec fn changes_code(method: Method) -> bool {
    method == Method::CodeNop || method == Method::CodePatch || method == Method::CodeRestore
}

/// No method changes memory but those that write values or change code: all others, scans and
/// filters among them, only look.
pub proof fn other_methods_only_look(
    method: Method,
    params: Params,
    proc: ProcView,
    events: Seq<MemEvent>,
    before: StateView,
    after: StateView,
    effects: Seq<EffectView>,
    r: MethodResult,
)
    requires
        methods::answered(method, params, proc, events, before, after, effects, r),
        !writes_values(method),
        !changes_code(method),
    ensures
        forall|i: int| 0 <= i < events.len() ==> !(#[trigger] events[i]).mutates(),
{
    match method {
        Method::ScanStart => {
            lemma_scan_start(params, events, before.sessions, after.sessions, r);
        },
        Method::ScanAob => {
            lemma_scan_aob(params, events, r);
        },
        Method::PointerScan => {
            lemma_pointer_scan(params, events, r);
        },
        _ => {},
    }
    assert forall|i: int| 0 <= i < events.len() implies !(#[trigger] events[i]).mutates() by {
        assert(method == Method::ScanStart || method == Method::ScanAob || method
            == Method::PointerScan ==> harmless(events[i]));
    }
}

/// Every write of a value is gated: whichever method it comes from, the memory map of its
/// process was read right before it and shows its bytes in a safe region.
pub proof fn every_write_is_guarded(
    method: Method,
    params: Params,
    proc: ProcView,
    events: Seq<MemEvent>,
    before: StateView,
    after: StateView,
    effects: Seq<EffectView>,
    r: MethodResult,
)
    requires
        methods::answered(method, params, proc, events, before, after, effects, r),
    ensures
        forall|i: int|
            0 <= i < events.len() && (#[trigger] events[i]) is Write
                ==> crate::mem::write::guarded(events, i),
{
    match method {
        Method::MemoryWrite => {
            if events.len() > 0 {
                let pid = params::process(params)->0;
                let address = params::address_of(params::param(params, "address"@))->0;
                let value = params::quantity(params, "value"@)->0;
                let dtype = params::type_of(params::param(params, "dtype"@))->0;
                let result = choose|result: Result<(), WriteErrorView>| #[trigger]
                    crate::mem::write::write_ran(events, pid, address, value, dtype, result)
                        && memory::memory_write_gave(result, r);
                crate::mem::write::writes_are_guarded(
                    events,
                    pid,
                    address,
                    value,
                    dtype,
                    result,
                );
            }
        },
        Method::MemoryWriteAll => {
            if events.len() > 0 {
                let s = before.sessions[params::words(params, "session_id"@)->0];
                let value = params::quantity(params, "value"@)->0;
                let dtype = params::type_of(params::param(params, "dtype"@))->0;
                let addresses = memory::addresses_of(s.candidates);
                let b = r->Ok_0->Written_0;
                let (parts, results) = choose|
                    parts: Seq<Seq<MemEvent>>,
                    results: Seq<Result<(), WriteErrorView>>,
                |
                    {
                        &&& #[trigger] memory::writes_each(
                            parts,
                            s.pid,
                            addresses,
                            value,
                            dtype,
                            results,
                        )
                        &&& events == engine::chained(parts)
                        &&& b.shows(addresses, memory::all_said(results))
                    };
                memory::bulk_writes_are_guarded(
                    parts,
                    s.pid,
                    addresses,
                    value,
                    dtype,
                    results,
                );
            }
        },
        Method::CodeNop => {
            lemma_code_nop(params, events, before, after, r);
        },
        Method::CodePatch => {},
        Method::CodeRestore => {},
        _ => {
            other_methods_only_look(method, params, proc, events, before, after, effects, r);
        },
    }
}

proof fn lemma_code_nop(
    params: Params,
    events: Seq<MemEvent>,
    before: StateView,
    after: StateView,
    r: MethodResult,
)
    requires
        hold::code_nop_ran(params, events, before.patches, after.patches, r),
    ensures
        forall|i: int| 0 <= i < events.len() ==> !((#[trigger] events[i]) is Write),
{
    if events.len() > 0 {
        let pid = params::process(params)->0;
        let address = params::address_of(params::param(params, "address"@))->0;
        let result = choose|result: Result<PatchView, PatchErrorView>| #[trigger]
            patch::nop_ran(events, pid, address, hold::nop_size(params), before.patches, result);
        if hold::nop_size(params) is None {
            let d = choose|
                d: Result<Seq<disassemble::DecodedView>, disassemble::DisasmErrorView>,
            | #[trigger]
                disassemble::decode_ran(events.take(1), pid, address, 1, d) && patch::nop_decoded(
                    events.skip(1),
                    pid,
                    address,
                    d,
                    before.patches,
                    result,
                );
            assert(events.take(1)[0] == events[0]);
            assert forall|i: int| 0 <= i < events.len() implies !((#[trigger] events[i])
                is Write) by {
                if i > 0 {
                    assert(events.skip(1)[i - 1] == events[i]);
                }
            }
        }
    }
}

/// Doing a thing to more candidates than the limit is refused unless it is insisted on:
/// nothing is written.
pub proof fn bulk_limit_holds(
    params: Params,
    events: Seq<MemEvent>,
    sessions: Map<Seq<char>, SessionView>,
    r: MethodResult,
)
    requires
        memory::memory_write_all_ran(params, events, sessions, r),
        params::words(params, "session_id"@) is Some,
        sessions.contains_key(params::words(params, "session_id"@)->0),
        sessions[params::words(params, "session_id"@)->0].candidates.len()
            > memory::BULK_WRITE_LIMIT,
        !params::flagged(params, "force"@),
    ensures
        events.len() == 0,
        r is Err,
{
}

/// Holding more candidates than the limit is refused unless it is insisted on: nothing is held.
pub proof fn bulk_limit_holds_for_freezes(
    params: Params,
    sessions: Map<Seq<char>, SessionView>,
    before: Map<u64, FreezeEntry>,
    after: Map<u64, FreezeEntry>,
    effects: Seq<EffectView>,
    r: MethodResult,
)
    requires
        hold::freeze_start_all_gave(params, sessions, before, after, effects, r),
        params::words(params, "session_id"@) is Some,
        sessions.contains_key(params::words(params, "session_id"@)->0),
        sessions[params::words(params, "session_id"@)->0].candidates.len()
            > memory::BULK_WRITE_LIMIT,
        !params::flagged(params, "force"@),
    ensures
        effects.len() == 0,
        after == before,
        r is Err,
{
}

/// A request whose parameters are refused does nothing: no memory is touched, nothing that the
/// daemon keeps changes, and no thread has anything to do.
pub proof fn refused_parameters_do_nothing(
    method: Method,
    params: Params,
    proc: ProcView,
    events: Seq<MemEvent>,
    before: StateView,
    after: StateView,
    effects: Seq<EffectView>,
    r: MethodResult,
)
    requires
        methods::answered(method, params, proc, events, before, after, effects, r),
        r is Err,
        r->Err_0.code == INVALID_PARAMS,
    ensures
        events.len() == 0,
        after == before,
        effects.len() == 0,
{
}

/// A code change is guarded: right before new bytes are written over code, the memory map
/// of the process was read and allows it, and what stood there was read in full.
pub open spec fn code_guarded(events: Seq<MemEvent>, i: int) -> bool {
    &&& i >= 2
    &&& events[i] is Code
    &&& events[i - 2] is Maps
    &&& events[i - 2]->Maps_pid == events[i]->Code_pid
    &&& patch::code_check(
        events[i - 2],
        events[i]->Code_pid,
        events[i]->Code_address,
        events[i]->Code_data.len(),
    ) is Ok
    &&& events[i - 1] is Read
    &&& events[i - 1]->Read_pid == events[i]->Code_pid
    &&& events[i - 1]->Read_address == events[i]->Code_address
    &&& events[i - 1]->Read_outcome is Ok
    &&& events[i - 1]->Read_outcome->Ok_0.0 >= events[i]->Code_data.len()
}

/// Patches and no-ops are written only after a fresh look at the memory map, and after what
/// they replace was read in full.
pub proof fn every_patch_is_guarded(
    method: Method,
    params: Params,
    proc: ProcView,
    events: Seq<MemEvent>,
    before: StateView,
    after: StateView,
    effects: Seq<EffectView>,
    r: MethodResult,
)
    requires
        methods::answered(method, params, proc, events, before, after, effects, r),
        method == Method::CodeNop || method == Method::CodePatch,
    ensures
        forall|i: int|
            0 <= i < events.len() && (#[trigger] events[i]).mutates() ==> code_guarded(events, i),
{
    if events.len() > 0 {
        let pid = params::process(params)->0;
        let address = params::address_of(params::param(params, "address"@))->0;
        if method == Method::CodeNop && hold::nop_size(params) is None {
            let result = choose|result: Result<PatchView, PatchErrorView>| #[trigger]
                patch::nop_ran(events, pid, address, hold::nop_size(params), before.patches, result);
            let d = choose|
                d: Result<Seq<disassemble::DecodedView>, disassemble::DisasmErrorView>,
            | #[trigger]
                disassemble::decode_ran(events.take(1), pid, address, 1, d) && patch::nop_decoded(
                    events.skip(1),
                    pid,
                    address,
                    d,
                    before.patches,
                    result,
                );
            assert(events.take(1)[0] == events[0]);
            assert forall|i: int|
                0 <= i < events.len() && (#[trigger] events[i]).mutates() implies code_guarded(
                events,
                i,
            ) by {
                let rest = events.skip(1);
                if i > 0 {
                    assert(rest[i - 1] == events[i]);
                    assert(rest[0] == events[1]);
                    assert(rest[1] == events[2]);
                }
            }
        }
    }
}

/// A response as JSON-RPC 2.0 asks for: it holds a result or an error, not both, and carries
/// the identifier of its request.
pub open spec fn well_answered(response: JsonRpcResponse, id: Option<Value>) -> bool {
    &&& response.jsonrpc@ == "2.0"@
    &&& response.result is Some <==> response.error is None
    &&& response.id == id
}

/// Every request gets a response as JSON-RPC 2.0 asks for, whether it succeeds or fails; one
/// of another protocol, or without a method, is an invalid request.
pub proof fn every_request_is_well_answered(
    req: JsonRpcRequest,
    proc: ProcView,
    events: Seq<MemEvent>,
    before: StateView,
    after: StateView,
    effects: Seq<EffectView>,
    response: JsonRpcResponse,
)
    requires
        methods::dispatched(req, proc, events, before, after, effects, response),
    ensures
        well_answered(response, req.id),
        req.fault() is Some ==> (response.error matches Some(e) && e.code == INVALID_REQUEST),
{
}

/// What comes of the threads changes neither the form of a response nor its identifier.
pub proof fn settling_keeps_a_response_well_formed(
    before: JsonRpcResponse,
    effects: Seq<EffectView>,
    results: Seq<Result<(), Seq<char>>>,
    after: JsonRpcResponse,
)
    requires
        methods::settled(before, effects, results, after),
        well_answered(before, before.id),
    ensures
        well_answered(after, before.id),
{
}

/// Errors carry the codes that JSON-RPC 2.0 gives them: a request of another protocol is
/// invalid, and a name that no method has is not found.
pub proof fn errors_carry_their_codes(
    req: JsonRpcRequest,
    proc: ProcView,
    events: Seq<MemEvent>,
    before: StateView,
    after: StateView,
    effects: Seq<EffectView>,
    response: JsonRpcResponse,
)
    requires
        methods::dispatched(req, proc, events, before, after, effects, response),
    ensures
        req.jsonrpc@ != "2.0"@ ==> (response.error matches Some(e) && e.code == -32600),
        req.jsonrpc@ == "2.0"@ && req.method@.len() > 0 && methods::method_named(
            req.method@,
        ) is None ==> (response.error matches Some(e) && e.code == -32601 && e.message@
            == "unknown method: "@ + req.method@),
        req.jsonrpc@ != "2.0"@ || methods::method_named(req.method@) is None ==> events.len() == 0
            && after == before && effects.len() == 0,
        PARSE_ERROR == -32700,
        INVALID_PARAMS == -32602,
        INTERNAL_ERROR == -32603,
{
}

} // verus!
