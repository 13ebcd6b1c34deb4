//! Processes, memory maps and scans.

use crate::mem::access;
use crate::mem::access::{MemEvent, MemoryAccess};
use crate::number::Double;
use crate::process::maps;
use crate::process::maps::{MapRegion, RegionView};
use crate::process::pid;
use crate::process::pid::{find_process, list_wine_processes, ProcEntry};
use crate::rpc::methods::answer;
use crate::rpc::methods::answer::{bad_params, failed, missing_session, MethodResult, Refusal};
use crate::rpc::params;
use crate::rpc::params::{
    get_address, get_flagged, get_integer, get_process, get_quantity, get_type, get_whole,
    get_words, Param, Params,
};
use crate::rpc::types::{RegionJson, RpcResult, INTERNAL_ERROR, INVALID_PARAMS};
use crate::scan::aob;
use crate::scan::aob::{aob_scan, parse_aob_pattern};
use crate::scan::candidate;
use crate::scan::candidate::{Candidate, CandidateJson, CandidateView, ValueType};
use crate::scan::engine;
use crate::scan::engine::{first_scan, SessionRegistry, SessionView};
use crate::scan::filter;
use crate::scan::filter::{filter_candidates, FilterMode};
use crate::scan::pointer;
use crate::scan::pointer::{find_pointer_chains, PointerScanParams};
use crate::text;
use crate::text::address_text;
use vstd::prelude::*;

verus! {

// ─── Processes ──────────────────────────────────────────────────────────────

/// What the process file system showed, or why it could not be read.
pub type ProcView = Result<Seq<pid::EntryView>, Seq<char>>;

/// What the process file system showed, as a mathematical value.
pub open spec fn proc_view(p: Result<Vec<ProcEntry>, String>) -> ProcView {
    match p {
        Ok(v) => Ok(pid::entry_views(v@)),
        Err(e) => Err(e@),
    }
}

/// Listing the games gave this.
pub open spec fn pid_list_gave(proc: ProcView, r: MethodResult) -> bool {
    match proc {
        Err(e) => answer::refuses(r, INTERNAL_ERROR, e),
        Ok(entries) => r matches Ok(RpcResult::Processes(v)) && pid::process_views(v@)
            == pid::games(entries),
    }
}

/// Lists the games.
pub fn handle_pid_list(proc: &Result<Vec<ProcEntry>, String>) -> (r: MethodResult)
    ensures
        pid_list_gave(proc_view(*proc), r),
{
    match proc {
        Err(e) => failed(e.clone()),
        Ok(entries) => Ok(RpcResult::Processes(list_wine_processes(entries))),
    }
}

/// Finding games by name gave this.
pub open spec fn pid_find_gave(params: Params, proc: ProcView, r: MethodResult) -> bool {
    match params::words(params, "name"@) {
        None => answer::refuses(r, INVALID_PARAMS, "missing 'name' parameter"@),
        Some(name) => match proc {
            Err(e) => answer::refuses(r, INTERNAL_ERROR, e),
            Ok(entries) => r matches Ok(RpcResult::Processes(v)) && pid::process_views(v@)
                == pid::named(pid::games(entries), name),
        },
    }
}

/// Finds games by name.
pub fn handle_pid_find(list: &Vec<(String, Param)>, proc: &Result<Vec<ProcEntry>, String>) -> (r:
    MethodResult)
    ensures
        pid_find_gave(params::param_views(list@), proc_view(*proc), r),
{
    let name = match get_words(list, "name") {
        Some(s) => s,
        None => return bad_params("missing 'name' parameter"),
    };
    match proc {
        Err(e) => failed(e.clone()),
        Ok(entries) => Ok(RpcResult::Processes(find_process(name.as_str(), entries))),
    }
}

// ─── Memory map ─────────────────────────────────────────────────────────────

impl RegionJson {
    /// This is how a region is shown.
    pub open spec fn shows(self, r: RegionView) -> bool {
        &&& self.start == r.start
        &&& self.end == r.end
        &&& self.size == r.span()
        &&& self.permissions@ == r.permissions.letters()
        &&& self.safety@ == r.safety.says()
        &&& self.pathname@ == r.pathname
    }
}

/// Each region is shown, in order.
pub open spec fn shows_regions(v: Seq<RegionJson>, regions: Seq<RegionView>) -> bool {
    v.len() == regions.len() && forall|i: int|
        0 <= i < v.len() ==> (#[trigger] v[i]).shows(regions[i])
}

fn show_regions(regions: &Vec<MapRegion>) -> (r: Vec<RegionJson>)
    ensures
        shows_regions(r@, maps::region_views(regions@)),
{
    let mut out: Vec<RegionJson> = Vec::new();
    let mut i: usize = 0;
    while i < regions.len()
        invariant
            i <= regions@.len(),
            out@.len() == i,
            forall|k: int| 0 <= k < i ==> (#[trigger] out@[k]).shows(regions@[k]@),
        decreases regions@.len() - i,
    {
        let region = &regions[i];
        let size: u64 = if region.start <= region.end {
            region.size()
        } else {
            0
        };
        out.push(
            RegionJson {
                start: region.start,
                end: region.end,
                size,
                permissions: region.permissions.as_str(),
                safety: region.safety.name(),
                pathname: region.pathname.clone(),
            },
        );
        i += 1;
    }
    out
}

/// Showing a memory map did this and came to this.
pub open spec fn maps_get_ran(params: Params, events: Seq<MemEvent>, r: MethodResult) -> bool {
    match params::process(params) {
        None => events.len() == 0 && answer::refuses(
            r,
            INVALID_PARAMS,
            "missing 'pid' parameter"@,
        ),
        Some(pid) => {
            &&& events.len() == 1
            &&& events[0] is Maps
            &&& events[0]->Maps_pid == pid
            &&& match events[0]->Maps_outcome {
                Err(e) => answer::refuses(r, INTERNAL_ERROR, e),
                Ok(regions) => r matches Ok(RpcResult::Regions(v)) && shows_regions(v@, regions),
            }
        },
    }
}

/// Shows the memory map of a process.
pub fn handle_maps_get<M: MemoryAccess>(mem: &mut M, list: &Vec<(String, Param)>) -> (r:
    MethodResult)
    ensures
        access::follows(*final(mem), *old(mem)),
        maps_get_ran(
            params::param_views(list@),
            access::since(final(mem).trace(), old(mem).trace()),
            r,
        ),
{
    let ghost start = mem.trace();
    let pid: u32 = match get_process(list) {
        Some(pid) => pid,
        None => {
            assert(access::since(mem.trace(), start) =~= Seq::empty());
            return bad_params("missing 'pid' parameter");
        },
    };
    let result = mem.read_maps(pid);
    let ghost looked = mem.trace().last();
    assert(access::since(mem.trace(), start) =~= seq![looked]);
    match result {
        Err(e) => failed(e.message),
        Ok(regions) => Ok(RpcResult::Regions(show_regions(&regions))),
    }
}

// ─── Scans ──────────────────────────────────────────────────────────────────

/// The first scan that was asked for came to this: a session, which is kept, or an error.
pub open spec fn scan_start_gave(
    result: Result<SessionView, Seq<char>>,
    before: Map<Seq<char>, SessionView>,
    after: Map<Seq<char>, SessionView>,
    r: MethodResult,
) -> bool {
    match result {
        Err(e) => after == before && answer::refuses(r, INTERNAL_ERROR, e),
        Ok(session) => {
            &&& after == before.insert(session.id, session)
            &&& r matches Ok(RpcResult::ScanStarted { session_id, candidates })
            &&& session_id@ == session.id
            &&& candidates == session.candidates.len()
        },
    }
}

/// Starting a scan did this and came to this. Without a type every type is scanned for.
pub open spec fn scan_start_ran(
    params: Params,
    events: Seq<MemEvent>,
    before: Map<Seq<char>, SessionView>,
    after: Map<Seq<char>, SessionView>,
    r: MethodResult,
) -> bool {
    match (params::process(params), params::quantity(params, "value"@)) {
        (None, _) => events.len() == 0 && after == before && answer::refuses(
            r,
            INVALID_PARAMS,
            "missing 'pid' parameter"@,
        ),
        (_, None) => events.len() == 0 && after == before && answer::refuses(
            r,
            INVALID_PARAMS,
            "missing 'value' parameter"@,
        ),
        (Some(pid), Some(value)) => exists|result: Result<SessionView, Seq<char>>| #[trigger]
            engine::first_scan_ran(
                events,
                pid,
                value,
                type_or_auto(params),
                result,
            ) && scan_start_gave(result, before, after, r),
    }
}

/// The type among the parameters; any type where there is none.
pub open spec fn type_or_auto(params: Params) -> ValueType {
    match params::type_of(params::param(params, "dtype"@)) {
        Some(t) => t,
        None => ValueType::Auto,
    }
}

/// Scans for a value and opens a session.
pub fn handle_scan_start<M: MemoryAccess>(
    mem: &mut M,
    sessions: &mut SessionRegistry,
    list: &Vec<(String, Param)>,
) -> (r: MethodResult)
    ensures
        access::follows(*final(mem), *old(mem)),
        scan_start_ran(
            params::param_views(list@),
            access::since(final(mem).trace(), old(mem).trace()),
            old(sessions)@,
            final(sessions)@,
            r,
        ),
{
    let ghost start = mem.trace();
    assert(access::since(start, start) =~= Seq::empty());
    let pid: u32 = match get_process(list) {
        Some(pid) => pid,
        None => return bad_params("missing 'pid' parameter"),
    };
    let value = match get_quantity(list, "value") {
        Some(v) => v,
        None => return bad_params("missing 'value' parameter"),
    };
    let dtype = match get_type(list) {
        Some(t) => t,
        None => ValueType::Auto,
    };
    let scan = first_scan(mem, pid, value, dtype);
    let ghost result = engine::session_outcome(scan);
    assert(engine::first_scan_ran(
        access::since(mem.trace(), start),
        pid,
        value,
        type_or_auto(params::param_views(list@)),
        result,
    ));
    match scan {
        Err(e) => failed(e.message),
        Ok(session) => {
            let session_id = session.id.clone();
            let candidates: usize = session.candidates.len();
            sessions.insert(session);
            Ok(RpcResult::ScanStarted { session_id, candidates })
        },
    }
}

/// Each candidate is shown, in order.
pub open spec fn shows_candidates(v: Seq<CandidateJson>, candidates: Seq<CandidateView>) -> bool {
    v.len() == candidates.len() && forall|i: int|
        0 <= i < v.len() ==> (#[trigger] v[i]).shows(candidates[i])
}

fn show_candidates(candidates: &Vec<Candidate>, from: usize, to: usize) -> (r: Vec<CandidateJson>)
    requires
        from <= to <= candidates@.len(),
    ensures
        shows_candidates(
            r@,
            candidate::candidate_views(candidates@).subrange(from as int, to as int),
        ),
{
    let ghost views = candidate::candidate_views(candidates@).subrange(from as int, to as int);
    let mut out: Vec<CandidateJson> = Vec::new();
    let mut i: usize = from;
    while i < to
        invariant
            from <= i <= to <= candidates@.len(),
            views == candidate::candidate_views(candidates@).subrange(from as int, to as int),
            out@.len() == i - from,
            forall|k: int| 0 <= k < i - from ==> (#[trigger] out@[k]).shows(views[k]),
        decreases to - i,
    {
        assert(views[i - from] == candidates@[i as int]@);
        out.push(CandidateJson::from(&candidates[i]));
        i += 1;
    }
    out
}

/// How many of the candidates that are left a filter shows.
pub const TOP: usize = 100;

/// The value to filter by; 0 where there is none, which only modes that look at none allow.
pub open spec fn filter_value(params: Params) -> Double {
    match params::quantity(params, "new_value"@) {
        Some(v) => v,
        None => Double { bits: 0 },
    }
}

/// The name of the mode to filter by; `exact` where there is none.
pub open spec fn filter_mode(params: Params) -> Seq<char> {
    match params::words(params, "mode"@) {
        Some(s) => s,
        None => "exact"@,
    }
}

/// The smaller of two numbers.
pub open spec fn least(a: int, b: int) -> int {
    if a <= b {
        a
    } else {
        b
    }
}

/// Filtering a session did this and came to this.
pub open spec fn scan_filter_ran(
    params: Params,
    events: Seq<MemEvent>,
    before: Map<Seq<char>, SessionView>,
    after: Map<Seq<char>, SessionView>,
    r: MethodResult,
) -> bool {
    match params::words(params, "session_id"@) {
        None => events.len() == 0 && after == before && answer::refuses(
            r,
            INVALID_PARAMS,
            "missing 'session_id'"@,
        ),
        Some(id) => match filter::mode_named(filter_mode(params)) {
            None => events.len() == 0 && after == before && answer::refuses(
                r,
                INVALID_PARAMS,
                "unknown filter mode: '"@ + filter_mode(params)
                    + "'. Options: exact, not-equal, increased, decreased, changed, unchanged"@,
            ),
            Some(mode) => if mode.takes_value() && params::quantity(params, "new_value"@) is None {
                events.len() == 0 && after == before && answer::refuses(
                    r,
                    INVALID_PARAMS,
                    "missing 'new_value'"@,
                )
            } else if !before.contains_key(id) {
                events.len() == 0 && after == before && answer::refuses(
                    r,
                    INVALID_PARAMS,
                    answer::no_session(id),
                )
            } else {
                let s = before[id];
                let kept = filter::survivors(
                    s.candidates,
                    filter::outcomes(events),
                    filter_value(params),
                    mode,
                );
                &&& filter::reads_each(events, s.pid, s.candidates)
                &&& after == before.insert(id, (SessionView { candidates: kept, ..s }))
                &&& r matches Ok(RpcResult::Filtered { session_id, candidates, top })
                &&& session_id@ == s.id
                &&& candidates == kept.len()
                &&& shows_candidates(top@, kept.take(least(TOP as int, kept.len() as int)))
            },
        },
    }
}

/// Filters the candidates of a session.
pub fn handle_scan_filter<M: MemoryAccess>(
    mem: &mut M,
    sessions: &mut SessionRegistry,
    list: &Vec<(String, Param)>,
) -> (r: MethodResult)
    ensures
        access::follows(*final(mem), *old(mem)),
        scan_filter_ran(
            params::param_views(list@),
            access::since(final(mem).trace(), old(mem).trace()),
            old(sessions)@,
            final(sessions)@,
            r,
        ),
{
    let ghost start = mem.trace();
    assert(access::since(start, start) =~= Seq::empty());
    let id = match get_words(list, "session_id") {
        Some(s) => s,
        None => return bad_params("missing 'session_id'"),
    };
    let given = get_quantity(list, "new_value");
    let named = match get_words(list, "mode") {
        Some(s) => FilterMode::from_str_loose(s.as_str()),
        None => FilterMode::from_str_loose("exact"),
    };
    let mode = match named {
        Ok(m) => m,
        Err(e) => return Err(Refusal { code: INVALID_PARAMS, message: e.message() }),
    };
    if mode.needs_value() && given.is_none() {
        return bad_params("missing 'new_value'");
    }
    let value = match given {
        Some(v) => v,
        None => Double::from_bits(0),
    };
    match sessions.remove(id.as_str()) {
        None => {
            assert(sessions@ =~= old(sessions)@);
            missing_session(id.as_str())
        },
        Some(session) => {
            let mut session = session;
            let ghost s = session@;
            let result = filter_candidates(
                mem,
                session.pid,
                &mut session.candidates,
                value,
                session.dtype,
                mode,
            );
            let total: usize = session.candidates.len();
            let shown: usize = if TOP <= total {
                TOP
            } else {
                total
            };
            let top = show_candidates(&session.candidates, 0, shown);
            let session_id = session.id.clone();
            let ghost kept = candidate::candidate_views(session.candidates@);
            assert(kept.subrange(0, shown as int) =~= kept.take(shown as int));
            sessions.put_back(id.as_str(), session);
            assert(sessions@ =~= old(sessions)@.insert(
                id@,
                (SessionView { candidates: kept, ..s }),
            ));
            match result {
                Err(e) => failed(e.message),
                Ok(n) => Ok(RpcResult::Filtered { session_id, candidates: n, top }),
            }
        },
    }
}

/// Each address is shown, in order.
pub open spec fn shows_addresses(v: Seq<String>, addresses: Seq<u64>) -> bool {
    v.len() == addresses.len() && forall|i: int|
        0 <= i < v.len() ==> (#[trigger] v[i])@ == text::address(addresses[i])
}

fn show_addresses(addresses: &Vec<u64>) -> (r: Vec<String>)
    ensures
        shows_addresses(r@, addresses@),
{
    let mut out: Vec<String> = Vec::new();
    let mut i: usize = 0;
    while i < addresses.len()
        invariant
            i <= addresses@.len(),
            out@.len() == i,
            forall|k: int| 0 <= k < i ==> (#[trigger] out@[k])@ == text::address(addresses@[k]),
        decreases addresses@.len() - i,
    {
        out.push(address_text(addresses[i]));
        i += 1;
    }
    out
}

/// The search that was asked for came to this.
pub open spec fn scan_aob_gave(result: Result<Seq<u64>, Seq<char>>, r: MethodResult) -> bool {
    match result {
        Err(e) => answer::refuses(r, INTERNAL_ERROR, e),
        Ok(found) => {
            &&& r matches Ok(RpcResult::Matches { count, addresses })
            &&& count == found.len()
            &&& shows_addresses(addresses@, found)
        },
    }
}

/// Searching for a byte pattern did this and came to this.
pub open spec fn scan_aob_ran(params: Params, events: Seq<MemEvent>, r: MethodResult) -> bool {
    match (params::process(params), params::words(params, "pattern"@)) {
        (None, _) => events.len() == 0 && answer::refuses(r, INVALID_PARAMS, "missing 'pid'"@),
        (_, None) => events.len() == 0 && answer::refuses(
            r,
            INVALID_PARAMS,
            "missing 'pattern'"@,
        ),
        (Some(pid), Some(s)) => match aob::text_pattern(s) {
            Err(e) => events.len() == 0 && answer::refuses(
                r,
                INVALID_PARAMS,
                aob::aob_message(e),
            ),
            Ok(pattern) => exists|result: Result<Seq<u64>, Seq<char>>| #[trigger]
                aob::aob_scan_ran(
                    events,
                    pid,
                    pattern,
                    params::flagged(params, "include_readonly"@),
                    result,
                ) && scan_aob_gave(result, r),
        },
    }
}

/// Searches for a byte pattern.
pub fn handle_scan_aob<M: MemoryAccess>(mem: &mut M, list: &Vec<(String, Param)>) -> (r:
    MethodResult)
    ensures
        access::follows(*final(mem), *old(mem)),
        scan_aob_ran(
            params::param_views(list@),
            access::since(final(mem).trace(), old(mem).trace()),
            r,
        ),
{
    let ghost start = mem.trace();
    assert(access::since(start, start) =~= Seq::empty());
    let pid: u32 = match get_process(list) {
        Some(pid) => pid,
        None => return bad_params("missing 'pid'"),
    };
    let s = match get_words(list, "pattern") {
        Some(s) => s,
        None => return bad_params("missing 'pattern'"),
    };
    let include_readonly = get_flagged(list, "include_readonly");
    let pattern = match parse_aob_pattern(s.as_str()) {
        Ok(p) => p,
        Err(e) => return Err(Refusal { code: INVALID_PARAMS, message: e.message() }),
    };
    let scan = aob_scan(mem, pid, pattern.as_slice(), include_readonly);
    let ghost result = aob::addresses_outcome(scan);
    let r = match scan {
        Err(e) => failed(e.message),
        Ok(found) => Ok(
            RpcResult::Matches { count: found.len(), addresses: show_addresses(&found) },
        ),
    };
    assert(scan_aob_gave(result, r));
    r
}

/// Listing the sessions gave this.
pub open spec fn scan_list_gave(sessions: Map<Seq<char>, SessionView>, r: MethodResult) -> bool {
    r matches Ok(RpcResult::Sessions(v)) && engine::lists_sessions(v@, sessions)
}

/// Lists the sessions.
pub fn handle_scan_list(sessions: &SessionRegistry) -> (r: MethodResult)
    ensures
        scan_list_gave(sessions@, r),
{
    Ok(RpcResult::Sessions(sessions.list()))
}

/// How many candidates a page holds at most.
pub const PAGE: usize = 1000;

/// How many candidates come before the page that is asked for.
pub open spec fn page_offset(params: Params) -> usize {
    match params::whole(params, "offset"@) {
        Some(n) => n as usize,
        None => 0,
    }
}

/// How many candidates the page that is asked for may hold.
pub open spec fn page_limit(params: Params) -> int {
    match params::whole(params, "limit"@) {
        Some(n) => least(n as usize as int, PAGE as int),
        None => 100,
    }
}

/// Showing some candidates of a session gave this.
pub open spec fn scan_candidates_gave(
    params: Params,
    sessions: Map<Seq<char>, SessionView>,
    r: MethodResult,
) -> bool {
    match params::words(params, "session_id"@) {
        None => answer::refuses(r, INVALID_PARAMS, "missing 'session_id'"@),
        Some(id) => if !sessions.contains_key(id) {
            answer::refuses(r, INVALID_PARAMS, answer::no_session(id))
        } else {
            let s = sessions[id];
            let size = s.candidates.len() as int;
            let skipped = page_offset(params);
            let from = least(skipped as int, size);
            let to = least(size, skipped + page_limit(params));
            &&& r matches Ok(RpcResult::Page { session_id, total, offset, count, candidates })
            &&& session_id@ == s.id
            &&& total == size
            &&& offset == skipped
            &&& count == candidates@.len()
            &&& shows_candidates(candidates@, s.candidates.subrange(from, to))
        },
    }
}

/// Shows some candidates of a session.
pub fn handle_scan_candidates(sessions: &mut SessionRegistry, list: &Vec<(String, Param)>) -> (r:
    MethodResult)
    ensures
        scan_candidates_gave(params::param_views(list@), old(sessions)@, r),
        final(sessions)@ == old(sessions)@,
{
    let id = match get_words(list, "session_id") {
        Some(s) => s,
        None => return bad_params("missing 'session_id'"),
    };
    let offset: usize = match get_whole(list, "offset") {
        Some(n) => n as usize,
        None => 0,
    };
    let limit: usize = match get_whole(list, "limit") {
        Some(n) => {
            let wanted: usize = n as usize;
            if wanted <= PAGE {
                wanted
            } else {
                PAGE
            }
        },
        None => 100,
    };
    match sessions.remove(id.as_str()) {
        None => {
            assert(sessions@ =~= old(sessions)@);
            missing_session(id.as_str())
        },
        Some(session) => {
            let total: usize = session.candidates.len();
            let from: usize = if offset <= total {
                offset
            } else {
                total
            };
            let to: usize = if limit <= total - from {
                from + limit
            } else {
                total
            };
            let candidates = show_candidates(&session.candidates, from, to);
            let session_id = session.id.clone();
            sessions.put_back(id.as_str(), session);
            assert(sessions@ =~= old(sessions)@);
            Ok(RpcResult::Page { session_id, total, offset, count: candidates.len(), candidates })
        },
    }
}

/// Closing a session gave this.
pub open spec fn scan_discard_gave(
    params: Params,
    before: Map<Seq<char>, SessionView>,
    after: Map<Seq<char>, SessionView>,
    r: MethodResult,
) -> bool {
    match params::words(params, "session_id"@) {
        None => after == before && answer::refuses(r, INVALID_PARAMS, "missing 'session_id'"@),
        Some(id) => after == before.remove(id) && r == Ok::<_, Refusal>(
            RpcResult::Discarded(before.contains_key(id)),
        ),
    }
}

/// Closes a session.
pub fn handle_scan_discard(sessions: &mut SessionRegistry, list: &Vec<(String, Param)>) -> (r:
    MethodResult)
    ensures
        scan_discard_gave(params::param_views(list@), old(sessions)@, final(sessions)@, r),
{
    let id = match get_words(list, "session_id") {
        Some(s) => s,
        None => return bad_params("missing 'session_id'"),
    };
    match sessions.remove(id.as_str()) {
        Some(_) => Ok(RpcResult::Discarded(true)),
        None => Ok(RpcResult::Discarded(false)),
    }
}

// ─── Pointer chains ─────────────────────────────────────────────────────────

/// How many chains are returned at most.
pub const CHAINS: usize = 100;

/// The limits of the search that is asked for: five steps, and offsets of up to a page, where
/// nothing is said.
pub open spec fn pointer_limits(params: Params) -> PointerScanParams {
    PointerScanParams {
        max_offset: match params::integer(params, "max_offset"@) {
            Some(n) => n,
            None => 0x1000,
        },
        max_depth: match params::whole(params, "max_depth"@) {
            Some(n) => n as usize,
            None => 5,
        },
        max_results: CHAINS,
    }
}

/// Searching for pointer chains did this and came to this.
pub open spec fn pointer_scan_ran(params: Params, events: Seq<MemEvent>, r: MethodResult) -> bool {
    match (params::process(params), params::address_of(params::param(params, "target"@))) {
        (None, _) => events.len() == 0 && answer::refuses(r, INVALID_PARAMS, "missing 'pid'"@),
        (_, None) => events.len() == 0 && answer::refuses(
            r,
            INVALID_PARAMS,
            "missing or invalid 'target'"@,
        ),
        (Some(pid), Some(target)) => {
            &&& events.len() > 0
            &&& events[0] is Maps
            &&& events[0]->Maps_pid == pid
            &&& match events[0]->Maps_outcome {
                Err(e) => events.len() == 1 && answer::refuses(r, INTERNAL_ERROR, e),
                Ok(regions) => {
                    &&& r matches Ok(RpcResult::Chains(v))
                    &&& pointer::search_gave(
                        events.skip(1),
                        pid,
                        target,
                        regions,
                        pointer_limits(params),
                        pointer::chain_views(v@),
                    )
                },
            }
        },
    }
}

/// Searches for pointer chains.
pub fn handle_pointer_scan<M: MemoryAccess>(mem: &mut M, list: &Vec<(String, Param)>) -> (r:
    MethodResult)
    ensures
        access::follows(*final(mem), *old(mem)),
        pointer_scan_ran(
            params::param_views(list@),
            access::since(final(mem).trace(), old(mem).trace()),
            r,
        ),
{
    let ghost start = mem.trace();
    assert(access::since(start, start) =~= Seq::empty());
    let pid: u32 = match get_process(list) {
        Some(pid) => pid,
        None => return bad_params("missing 'pid'"),
    };
    let target: u64 = match get_address(list, "target") {
        Some(a) => a,
        None => return bad_params("missing or invalid 'target'"),
    };
    let max_depth: usize = match get_whole(list, "max_depth") {
        Some(n) => n as usize,
        None => 5,
    };
    let max_offset: i64 = match get_integer(list, "max_offset") {
        Some(n) => n,
        None => 0x1000,
    };
    let result = mem.read_maps(pid);
    let ghost middle = mem.trace();
    let ghost looked = middle.last();
    assert(access::since(middle, start) =~= seq![looked]);
    let regions = match result {
        Err(e) => return failed(e.message),
        Ok(regions) => regions,
    };
    let limits = PointerScanParams { max_offset, max_depth, max_results: CHAINS };
    match find_pointer_chains(mem, pid, target, regions.as_slice(), &limits) {
        Err(e) => failed(e.message),
        Ok(chains) => {
            proof {
                let rest = access::since(mem.trace(), middle);
                access::trace_splits(mem.trace(), middle);
                assert(mem.trace() =~= start + (seq![looked] + rest));
                access::trace_grows(start, seq![looked] + rest);
                assert((seq![looked] + rest).skip(1) =~= rest);
            }
            Ok(RpcResult::Chains(chains))
        },
    }
}

// ─── Laws ───────────────────────────────────────────────────────────────────

/// A page shows the candidates from the offset on: as many as are asked for, but no more than a
/// thousand and no more than there are; a hundred where nothing is said, from the first on.
pub proof fn pages_show_what_is_asked_for(
    params: Params,
    sessions: Map<Seq<char>, SessionView>,
    r: MethodResult,
)
    requires
        scan_candidates_gave(params, sessions, r),
        params::words(params, "session_id"@) is Some,
        sessions.contains_key(params::words(params, "session_id"@)->0),
        params::whole(params, "offset"@) is Some ==> params::whole(params, "offset"@)->0
            <= usize::MAX,
        params::whole(params, "limit"@) is Some ==> params::whole(params, "limit"@)->0
            <= usize::MAX,
    ensures
        r matches Ok(RpcResult::Page { session_id, total, offset, count, candidates }) && {
            let s = sessions[params::words(params, "session_id"@)->0];
            let skipped = if params::whole(params, "offset"@) is Some {
                params::whole(params, "offset"@)->0 as int
            } else {
                0
            };
            let asked = if params::whole(params, "limit"@) is Some {
                params::whole(params, "limit"@)->0 as int
            } else {
                100
            };
            &&& total == s.candidates.len()
            &&& count == candidates@.len()
            &&& count <= 1000
            &&& count <= asked
            &&& skipped >= total ==> count == 0
            &&& skipped < total ==> skipped + count <= total
            &&& skipped + count < total && count < asked ==> count == 1000
            &&& forall|k: int|
                0 <= k < count ==> (#[trigger] candidates@[k]).shows(s.candidates[skipped + k])
        },
{
}

/// A filter goes by the exact value where no mode is given.
pub proof fn filters_are_exact_where_nothing_is_said(params: Params)
    ensures
        params::words(params, "mode"@) is None ==> filter::mode_named(filter_mode(params)) == Some(
            FilterMode::Exact,
        ),
        params::words(params, "mode"@) is Some ==> filter_mode(params) == params::words(
            params,
            "mode"@,
        )->0,
        params::quantity(params, "new_value"@) is Some ==> filter_value(params)
            == params::quantity(params, "new_value"@)->0,
{
    reveal_strlit("exact");
    filter::modes_go_by_their_names("exact"@);
    assert(filter::loosened("exact"@) =~= "exact"@);
}

/// A filter shows the first hundred of the candidates that are left, and counts them all.
pub proof fn filters_show_the_first_hundred(
    params: Params,
    events: Seq<MemEvent>,
    before: Map<Seq<char>, SessionView>,
    after: Map<Seq<char>, SessionView>,
    r: MethodResult,
)
    requires
        scan_filter_ran(params, events, before, after, r),
    ensures
        r is Err ==> after == before && events.len() == 0,
        r matches Ok(RpcResult::Filtered { session_id, candidates, top }) ==> {
            let id = params::words(params, "session_id"@)->0;
            let left = after[id].candidates;
            &&& after.contains_key(id)
            &&& after[id].pid == before[id].pid
            &&& after[id].dtype == before[id].dtype
            &&& candidates == left.len()
            &&& top@.len() <= 100
            &&& top@.len() < 100 ==> top@.len() == left.len()
            &&& forall|k: int| 0 <= k < top@.len() ==> (#[trigger] top@[k]).shows(left[k])
        },
{
}

/// A scan goes for every type where none is given, and for the one that is given otherwise.
pub proof fn scans_go_for_the_type_asked_for(params: Params)
    ensures
        params::type_of(params::param(params, "dtype"@)) is None ==> type_or_auto(params)
            == ValueType::Auto,
        params::type_of(params::param(params, "dtype"@)) is Some ==> type_or_auto(params)
            == params::type_of(params::param(params, "dtype"@))->0,
{
}

/// A search for pointers goes as far as it is asked to: five steps with offsets of up to 4096
/// bytes where nothing is said, and a hundred chains at most.
pub proof fn searches_go_as_far_as_asked(params: Params)
    ensures
        pointer_limits(params).max_results == 100,
        params::whole(params, "max_depth"@) is None ==> pointer_limits(params).max_depth == 5,
        params::whole(params, "max_depth"@) is Some && params::whole(params, "max_depth"@)->0
            <= usize::MAX ==> pointer_limits(params).max_depth == params::whole(
            params,
            "max_depth"@,
        )->0,
        params::integer(params, "max_offset"@) is None ==> pointer_limits(params).max_offset
            == 4096,
        params::integer(params, "max_offset"@) is Some ==> pointer_limits(params).max_offset
            == params::integer(params, "max_offset"@)->0,
{
}

/// A region is shown with where it begins and ends, and how many bytes lie between.
pub proof fn regions_are_shown_whole(v: Seq<RegionJson>, regions: Seq<RegionView>, i: int)
    requires
        shows_regions(v, regions),
        0 <= i < regions.len(),
    ensures
        v.len() == regions.len(),
        v[i].start == regions[i].start,
        v[i].end == regions[i].end,
        regions[i].start <= regions[i].end ==> v[i].start + v[i].size == v[i].end,
        v[i].pathname@ == regions[i].pathname,
        v[i].permissions@.len() == 4,
        v[i].permissions@[0] == 'r' <==> regions[i].permissions.read,
        v[i].permissions@[1] == 'w' <==> regions[i].permissions.write,
        v[i].permissions@[2] == 'x' <==> regions[i].permissions.execute,
        v[i].permissions@[3] == 's' <==> regions[i].permissions.shared,
        v[i].permissions@[3] == 'p' <==> !regions[i].permissions.shared,
{
    assert(v[i].shows(regions[i]));
}

/// A discarded session is gone and the others stay; the reply says whether there was one.
pub proof fn discarding_closes_one_session(
    params: Params,
    before: Map<Seq<char>, SessionView>,
    after: Map<Seq<char>, SessionView>,
    r: MethodResult,
    other: Seq<char>,
)
    requires
        scan_discard_gave(params, before, after, r),
    ensures
        params::words(params, "session_id"@) is Some ==> {
            let id = params::words(params, "session_id"@)->0;
            &&& !after.contains_key(id)
            &&& r matches Ok(RpcResult::Discarded(there)) && there == before.contains_key(id)
            &&& other != id ==> after.contains_key(other) == before.contains_key(other)
            &&& other != id && before.contains_key(other) ==> after[other] == before[other]
        },
        params::words(params, "session_id"@) is None ==> r is Err && after == before,
{
}

} // verus!
