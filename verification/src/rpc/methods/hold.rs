//! Freezes, watches and code patches.

use crate::mem::access;
use crate::mem::access::{MemEvent, MemoryAccess};
use crate::mem::freeze;
use crate::mem::freeze::{FreezeEntry, FreezeManager};
use crate::mem::hex;
use crate::mem::hex::{hex_decode, hex_encode};
use crate::mem::patch;
use crate::mem::patch::{PatchErrorView, PatchManager, PatchTable, PatchView};
use crate::mem::watch;
use crate::mem::watch::{WatchConfig, WatchManager, WatchMode, WatchSize, WatchView};
use crate::number::Double;
use crate::rpc::methods::answer;
use crate::rpc::methods::answer::{bad_params, failed, missing_session, MethodResult, Refusal};
use crate::rpc::methods::memory;
use crate::rpc::methods::memory::{refuse_bulk, BULK_WRITE_LIMIT};
use crate::rpc::params;
use crate::rpc::params::{
    get_address, get_flagged, get_process, get_quantity, get_type, get_whole, get_words, Param,
    Params,
};
use crate::rpc::types::{BulkJson, RpcResult, INTERNAL_ERROR, INVALID_PARAMS};
use crate::scan::candidate;
use crate::scan::candidate::{Candidate, ValueType};
use crate::scan::engine::{SessionRegistry, SessionView};
use crate::shared;
use crate::text;
use crate::text::{address_text, push_decimal, same_text};
use vstd::prelude::*;

verus! {

/// Work for the threads of the daemon.
#[derive(Clone, Debug)]
pub enum Effect {
    /// Hold a value; a loop that holds one at its address stops first.
    StartFreeze(FreezeEntry),
    /// Hold no value at an address any longer.
    StopFreeze(u64),
    /// Trace a watch.
    StartWatch(String, WatchConfig),
    /// Trace a watch no longer.
    StopWatch(String),
}

/// An [`Effect`] as a mathematical value.
pub enum EffectView {
    /// Hold a value; a loop that holds one at its address stops first.
    StartFreeze(FreezeEntry),
    /// Hold no value at an address any longer.
    StopFreeze(u64),
    /// Trace a watch.
    StartWatch(Seq<char>, WatchConfig),
    /// Trace a watch no longer.
    StopWatch(Seq<char>),
}

impl View for Effect {
    type V = EffectView;

    open spec fn view(&self) -> EffectView {
        match self {
            Effect::StartFreeze(e) => EffectView::StartFreeze(*e),
            Effect::StopFreeze(a) => EffectView::StopFreeze(*a),
            Effect::StartWatch(id, c) => EffectView::StartWatch(id@, *c),
            Effect::StopWatch(id) => EffectView::StopWatch(id@),
        }
    }
}

/// The mathematical values of a list of effects.
pub open spec fn effect_views(v: Seq<Effect>) -> Seq<EffectView> {
    Seq::new(v.len(), |i: int| v[i]@)
}

fn one_effect(e: Effect) -> (r: Vec<Effect>)
    ensures
        effect_views(r@) == seq![e@],
{
    let mut r: Vec<Effect> = Vec::new();
    r.push(e);
    assert(effect_views(r@) =~= seq![e@]);
    r
}

fn no_effects() -> (r: Vec<Effect>)
    ensures
        effect_views(r@) == Seq::<EffectView>::empty(),
{
    let r: Vec<Effect> = Vec::new();
    assert(effect_views(r@) =~= Seq::empty());
    r
}

// ─── Freezes ────────────────────────────────────────────────────────────────

/// How often a value is written; every 100 milliseconds where nothing is said.
pub open spec fn interval(params: Params) -> u64 {
    match params::whole(params, "interval_ms"@) {
        Some(n) => n,
        None => 100,
    }
}

fn get_interval(list: &Vec<(String, Param)>) -> (r: u64)
    ensures
        r == interval(params::param_views(list@)),
{
    match get_whole(list, "interval_ms") {
        Some(n) => n,
        None => 100,
    }
}

/// Freezing an address gave this.
pub open spec fn freeze_start_gave(
    params: Params,
    before: Map<u64, FreezeEntry>,
    after: Map<u64, FreezeEntry>,
    effects: Seq<EffectView>,
    r: MethodResult,
) -> bool {
    match (
        params::process(params),
        params::address_of(params::param(params, "address"@)),
        params::quantity(params, "value"@),
        params::type_of(params::param(params, "dtype"@)),
    ) {
        (None, _, _, _) => after == before && effects.len() == 0 && answer::refuses(
            r,
            INVALID_PARAMS,
            "missing 'pid'"@,
        ),
        (_, None, _, _) => after == before && effects.len() == 0 && answer::refuses(
            r,
            INVALID_PARAMS,
            "missing or invalid 'address'"@,
        ),
        (_, _, None, _) => after == before && effects.len() == 0 && answer::refuses(
            r,
            INVALID_PARAMS,
            "missing 'value'"@,
        ),
        (_, _, _, None) => after == before && effects.len() == 0 && answer::refuses(
            r,
            INVALID_PARAMS,
            "missing or invalid 'dtype'"@,
        ),
        (Some(pid), Some(address), Some(value), Some(dtype)) => {
            let entry = FreezeEntry { pid, address, value, dtype, interval_ms: interval(params) };
            &&& after == before.insert(address, entry)
            &&& effects == seq![EffectView::StartFreeze(entry)]
            &&& r matches Ok(RpcResult::FreezeStarted { address: shown })
            &&& shown@ == text::address(address)
        },
    }
}

/// Freezes an address.
pub fn handle_freeze_start(frozen: &mut FreezeManager, list: &Vec<(String, Param)>) -> (r: (
    MethodResult,
    Vec<Effect>,
))
    ensures
        freeze_start_gave(
            params::param_views(list@),
            old(frozen)@,
            final(frozen)@,
            effect_views(r.1@),
            r.0,
        ),
{
    let pid: u32 = match get_process(list) {
        Some(pid) => pid,
        None => return (bad_params("missing 'pid'"), no_effects()),
    };
    let address: u64 = match get_address(list, "address") {
        Some(a) => a,
        None => return (bad_params("missing or invalid 'address'"), no_effects()),
    };
    let value = match get_quantity(list, "value") {
        Some(v) => v,
        None => return (bad_params("missing 'value'"), no_effects()),
    };
    let dtype = match get_type(list) {
        Some(t) => t,
        None => return (bad_params("missing or invalid 'dtype'"), no_effects()),
    };
    let entry = FreezeEntry { pid, address, value, dtype, interval_ms: get_interval(list) };
    let _ = frozen.start(entry);
    (
        Ok(RpcResult::FreezeStarted { address: address_text(address) }),
        one_effect(Effect::StartFreeze(entry)),
    )
}

/// What is held at each candidate of a session once it is frozen.
pub open spec fn entries_of(
    s: SessionView,
    value: Double,
    dtype: ValueType,
    interval_ms: u64,
) -> Seq<FreezeEntry> {
    Seq::new(
        s.candidates.len(),
        |i: int|
            FreezeEntry {
                pid: s.pid,
                address: s.candidates[i].address,
                value,
                dtype,
                interval_ms,
            },
    )
}

/// What is held after some more is.
pub open spec fn held_with(held: Map<u64, FreezeEntry>, entries: Seq<FreezeEntry>) -> Map<
    u64,
    FreezeEntry,
>
    decreases entries.len(),
{
    if entries.len() == 0 {
        held
    } else {
        held_with(held, entries.drop_last()).insert(entries.last().address, entries.last())
    }
}

/// The effects that hold each of the values.
pub open spec fn starts(entries: Seq<FreezeEntry>) -> Seq<EffectView> {
    Seq::new(entries.len(), |i: int| EffectView::StartFreeze(entries[i]))
}

/// The addresses of the entries, as they are shown.
pub open spec fn shown_addresses(entries: Seq<FreezeEntry>) -> Seq<Seq<char>> {
    Seq::new(entries.len(), |i: int| text::address(entries[i].address))
}

impl BulkJson {
    /// This is how entries that were all frozen are shown.
    pub open spec fn shows_frozen(self, entries: Seq<FreezeEntry>) -> bool {
        &&& self.done == entries.len()
        &&& self.failed == 0
        &&& text::texts(self.addresses@) == shown_addresses(entries)
        &&& self.errors@.len() == 0
    }
}

/// Freezing all candidates of a session gave this.
pub open spec fn freeze_start_all_gave(
    params: Params,
    sessions: Map<Seq<char>, SessionView>,
    before: Map<u64, FreezeEntry>,
    after: Map<u64, FreezeEntry>,
    effects: Seq<EffectView>,
    r: MethodResult,
) -> bool {
    match (
        params::words(params, "session_id"@),
        params::quantity(params, "value"@),
        params::type_of(params::param(params, "dtype"@)),
    ) {
        (None, _, _) => after == before && effects.len() == 0 && answer::refuses(
            r,
            INVALID_PARAMS,
            "missing 'session_id'"@,
        ),
        (_, None, _) => after == before && effects.len() == 0 && answer::refuses(
            r,
            INVALID_PARAMS,
            "missing 'value'"@,
        ),
        (_, _, None) => after == before && effects.len() == 0 && answer::refuses(
            r,
            INVALID_PARAMS,
            "missing or invalid 'dtype'"@,
        ),
        (Some(id), Some(value), Some(dtype)) => if !sessions.contains_key(id) {
            after == before && effects.len() == 0 && answer::refuses(
                r,
                INVALID_PARAMS,
                answer::no_session(id),
            )
        } else if memory::too_many(params, sessions[id]) {
            after == before && effects.len() == 0 && answer::refuses(
                r,
                INVALID_PARAMS,
                memory::too_many_message("freeze "@, sessions[id].candidates.len()),
            )
        } else {
            let entries = entries_of(sessions[id], value, dtype, interval(params));
            &&& after == held_with(before, entries)
            &&& effects == starts(entries)
            &&& r matches Ok(RpcResult::Frozen(b))
            &&& b.shows_frozen(entries)
        },
    }
}

fn freeze_each(
    frozen: &mut FreezeManager,
    pid: u32,
    candidates: &Vec<Candidate>,
    value: Double,
    dtype: ValueType,
    interval_ms: u64,
    session: Ghost<SessionView>,
) -> (r: (BulkJson, Vec<Effect>))
    requires
        session@.pid == pid,
        session@.candidates == candidate::candidate_views(candidates@),
    ensures
        final(frozen)@ == held_with(
            old(frozen)@,
            entries_of(session@, value, dtype, interval_ms),
        ),
        effect_views(r.1@) == starts(entries_of(session@, value, dtype, interval_ms)),
        r.0.shows_frozen(entries_of(session@, value, dtype, interval_ms)),
{
    let ghost entries = entries_of(session@, value, dtype, interval_ms);
    let mut effects: Vec<Effect> = Vec::new();
    let mut addresses: Vec<String> = Vec::new();
    let mut i: usize = 0;
    while i < candidates.len()
        invariant
            i <= candidates@.len(),
            session@.pid == pid,
            session@.candidates == candidate::candidate_views(candidates@),
            entries == entries_of(session@, value, dtype, interval_ms),
            frozen@ == held_with(old(frozen)@, entries.take(i as int)),
            effects@.len() == i,
            forall|k: int|
                0 <= k < i ==> (#[trigger] effects@[k])@ == EffectView::StartFreeze(entries[k]),
            addresses@.len() == i,
            forall|k: int|
                0 <= k < i ==> (#[trigger] addresses@[k])@ == text::address(entries[k].address),
        decreases candidates@.len() - i,
    {
        let address: u64 = candidates[i].address;
        let entry = FreezeEntry { pid, address, value, dtype, interval_ms };
        proof {
            assert(entries[i as int] == entry);
            assert(entries.take(i + 1).drop_last() =~= entries.take(i as int));
            assert(entries.take(i + 1).last() == entry);
        }
        let _ = frozen.start(entry);
        effects.push(Effect::StartFreeze(entry));
        addresses.push(address_text(address));
        i += 1;
    }
    proof {
        assert(entries.take(candidates@.len() as int) =~= entries);
        assert(effect_views(effects@) =~= starts(entries));
        assert(text::texts(addresses@) =~= shown_addresses(entries));
    }
    (BulkJson { done: addresses.len(), failed: 0, addresses, errors: Vec::new() }, effects)
}

/// Freezes all candidates of a session.
pub fn handle_freeze_start_all(
    sessions: &mut SessionRegistry,
    frozen: &mut FreezeManager,
    list: &Vec<(String, Param)>,
) -> (r: (MethodResult, Vec<Effect>))
    ensures
        freeze_start_all_gave(
            params::param_views(list@),
            old(sessions)@,
            old(frozen)@,
            final(frozen)@,
            effect_views(r.1@),
            r.0,
        ),
        final(sessions)@ == old(sessions)@,
{
    let id = match get_words(list, "session_id") {
        Some(s) => s,
        None => return (bad_params("missing 'session_id'"), no_effects()),
    };
    let value = match get_quantity(list, "value") {
        Some(v) => v,
        None => return (bad_params("missing 'value'"), no_effects()),
    };
    let dtype = match get_type(list) {
        Some(t) => t,
        None => return (bad_params("missing or invalid 'dtype'"), no_effects()),
    };
    let interval_ms: u64 = get_interval(list);
    let force = get_flagged(list, "force");
    match sessions.remove(id.as_str()) {
        None => {
            assert(sessions@ =~= old(sessions)@);
            (missing_session(id.as_str()), no_effects())
        },
        Some(session) => {
            let count: usize = session.candidates.len();
            if count > BULK_WRITE_LIMIT && !force {
                sessions.put_back(id.as_str(), session);
                assert(sessions@ =~= old(sessions)@);
                return (refuse_bulk("freeze ", count), no_effects());
            }
            let (b, effects) = freeze_each(
                frozen,
                session.pid,
                &session.candidates,
                value,
                dtype,
                interval_ms,
                Ghost(session@),
            );
            sessions.put_back(id.as_str(), session);
            assert(sessions@ =~= old(sessions)@);
            (Ok(RpcResult::Frozen(b)), effects)
        },
    }
}

/// Freezing an address no longer gave this.
pub open spec fn freeze_stop_gave(
    params: Params,
    before: Map<u64, FreezeEntry>,
    after: Map<u64, FreezeEntry>,
    effects: Seq<EffectView>,
    r: MethodResult,
) -> bool {
    match params::address_of(params::param(params, "address"@)) {
        None => after == before && effects.len() == 0 && answer::refuses(
            r,
            INVALID_PARAMS,
            "missing or invalid 'address'"@,
        ),
        Some(address) => {
            &&& after == before.remove(address)
            &&& effects == seq![EffectView::StopFreeze(address)]
            &&& r == Ok::<_, Refusal>(RpcResult::Done)
        },
    }
}

/// Freezes an address no longer.
pub fn handle_freeze_stop(frozen: &mut FreezeManager, list: &Vec<(String, Param)>) -> (r: (
    MethodResult,
    Vec<Effect>,
))
    ensures
        freeze_stop_gave(
            params::param_views(list@),
            old(frozen)@,
            final(frozen)@,
            effect_views(r.1@),
            r.0,
        ),
{
    match get_address(list, "address") {
        None => (bad_params("missing or invalid 'address'"), no_effects()),
        Some(address) => {
            let _ = frozen.stop(address);
            (Ok(RpcResult::Done), one_effect(Effect::StopFreeze(address)))
        },
    }
}

/// Listing the freezes gave this.
pub open spec fn freeze_list_gave(held: Map<u64, FreezeEntry>, r: MethodResult) -> bool {
    r matches Ok(RpcResult::Freezes(v)) && freeze::shows_freezes(v@, held)
}

/// Lists the freezes.
pub fn handle_freeze_list(frozen: &FreezeManager) -> (r: MethodResult)
    ensures
        freeze_list_gave(frozen@, r),
{
    Ok(RpcResult::Freezes(frozen.list()))
}

// ─── Watches ────────────────────────────────────────────────────────────────

/// The name of the mode that is asked for; `write` where nothing is said.
pub open spec fn mode_text(params: Params) -> Seq<char> {
    match params::words(params, "mode"@) {
        Some(s) => s,
        None => "write"@,
    }
}

/// The mode of a name.
pub open spec fn watch_mode(s: Seq<char>) -> Option<WatchMode> {
    if s == "write"@ {
        Some(WatchMode::Write)
    } else if s == "access"@ || s == "readwrite"@ || s == "read_write"@ {
        Some(WatchMode::ReadWrite)
    } else {
        None
    }
}

/// How many bytes are asked for; four where nothing is said.
pub open spec fn size_wanted(params: Params) -> u64 {
    match params::whole(params, "size"@) {
        Some(n) => n,
        None => 4,
    }
}

/// The size of so many bytes.
pub open spec fn watch_size(n: u64) -> Option<WatchSize> {
    if n == 1 {
        Some(WatchSize::Byte1)
    } else if n == 2 {
        Some(WatchSize::Byte2)
    } else if n == 4 {
        Some(WatchSize::Byte4)
    } else if n == 8 {
        Some(WatchSize::Byte8)
    } else {
        None
    }
}

/// What is said of a mode that does not exist.
pub open spec fn bad_mode(s: Seq<char>) -> Seq<char> {
    "invalid mode: "@ + s + " (expected 'write' or 'access')"@
}

/// What is said of a size that does not exist.
pub open spec fn bad_size(n: u64) -> Seq<char> {
    "invalid size: "@ + text::decimal(n as nat) + " (expected 1, 2, 4, or 8)"@
}

fn find_watch_mode(s: &str) -> (r: Option<WatchMode>)
    ensures
        r == watch_mode(s@),
{
    if same_text(s, "write") {
        Some(WatchMode::Write)
    } else if same_text(s, "access") || same_text(s, "readwrite") || same_text(s, "read_write") {
        Some(WatchMode::ReadWrite)
    } else {
        None
    }
}

fn find_watch_size(n: u64) -> (r: Option<WatchSize>)
    ensures
        r == watch_size(n),
{
    match n {
        1 => Some(WatchSize::Byte1),
        2 => Some(WatchSize::Byte2),
        4 => Some(WatchSize::Byte4),
        8 => Some(WatchSize::Byte8),
        _ => None,
    }
}

/// Opening a watch gave this: the watch has caught nothing yet, under an identifier that is
/// returned.
pub open spec fn watch_opened(
    config: WatchConfig,
    before: Map<Seq<char>, WatchView>,
    after: Map<Seq<char>, WatchView>,
    effects: Seq<EffectView>,
    r: MethodResult,
) -> bool {
    &&& r matches Ok(RpcResult::WatchStarted { watch_id })
    &&& shared::is_id(watch_id@)
    &&& after == before.insert(watch_id@, (WatchView { config, hits: Seq::empty(), active: true }))
    &&& effects == seq![EffectView::StartWatch(watch_id@, config)]
}

/// Starting a watch gave this.
pub open spec fn watch_start_gave(
    params: Params,
    before: Map<Seq<char>, WatchView>,
    after: Map<Seq<char>, WatchView>,
    effects: Seq<EffectView>,
    r: MethodResult,
) -> bool {
    match (
        params::process(params),
        params::address_of(params::param(params, "address"@)),
        watch_mode(mode_text(params)),
        watch_size(size_wanted(params)),
    ) {
        (None, _, _, _) => after == before && effects.len() == 0 && answer::refuses(
            r,
            INVALID_PARAMS,
            "missing 'pid'"@,
        ),
        (_, None, _, _) => after == before && effects.len() == 0 && answer::refuses(
            r,
            INVALID_PARAMS,
            "missing or invalid 'address'"@,
        ),
        (_, _, None, _) => after == before && effects.len() == 0 && answer::refuses(
            r,
            INVALID_PARAMS,
            bad_mode(mode_text(params)),
        ),
        (_, _, _, None) => after == before && effects.len() == 0 && answer::refuses(
            r,
            INVALID_PARAMS,
            bad_size(size_wanted(params)),
        ),
        (Some(pid), Some(address), Some(mode), Some(size)) => watch_opened(
            WatchConfig {
                pid,
                address,
                mode,
                size,
                capture_registers: params::flagged(params, "detail"@),
            },
            before,
            after,
            effects,
            r,
        ),
    }
}

/// Starts a watch.
pub fn handle_watch_start(watches: &mut WatchManager, list: &Vec<(String, Param)>) -> (r: (
    MethodResult,
    Vec<Effect>,
))
    ensures
        watch_start_gave(
            params::param_views(list@),
            old(watches)@,
            final(watches)@,
            effect_views(r.1@),
            r.0,
        ),
{
    let pid: u32 = match get_process(list) {
        Some(pid) => pid,
        None => return (bad_params("missing 'pid'"), no_effects()),
    };
    let address: u64 = match get_address(list, "address") {
        Some(a) => a,
        None => return (bad_params("missing or invalid 'address'"), no_effects()),
    };
    let name = match get_words(list, "mode") {
        Some(s) => s.clone(),
        None => "write".to_string(),
    };
    let mode = match find_watch_mode(name.as_str()) {
        Some(m) => m,
        None => {
            let mut message = "invalid mode: ".to_string();
            message.append(name.as_str());
            message.append(" (expected 'write' or 'access')");
            return (Err(Refusal { code: INVALID_PARAMS, message }), no_effects());
        },
    };
    let wanted: u64 = match get_whole(list, "size") {
        Some(n) => n,
        None => 4,
    };
    let size = match find_watch_size(wanted) {
        Some(s) => s,
        None => {
            let mut message = "invalid size: ".to_string();
            push_decimal(&mut message, wanted);
            message.append(" (expected 1, 2, 4, or 8)");
            return (Err(Refusal { code: INVALID_PARAMS, message }), no_effects());
        },
    };
    let capture_registers = get_flagged(list, "detail");
    let config = WatchConfig { pid, address, mode, size, capture_registers };
    let watch_id = watches.start(config);
    let effects = one_effect(Effect::StartWatch(watch_id.clone(), config));
    (Ok(RpcResult::WatchStarted { watch_id }), effects)
}

/// Showing what a watch caught gave this.
pub open spec fn watch_hits_gave(
    params: Params,
    watches: Map<Seq<char>, WatchView>,
    r: MethodResult,
) -> bool {
    match params::words(params, "watch_id"@) {
        None => answer::refuses(r, INVALID_PARAMS, "missing 'watch_id'"@),
        Some(id) => if watches.contains_key(id) {
            r matches Ok(RpcResult::Hits(v)) && watch::shows_hits(v@, watches[id].hits)
        } else {
            answer::refuses(r, INTERNAL_ERROR, watch::no_watch(id))
        },
    }
}

/// Shows what a watch caught.
pub fn handle_watch_hits(watches: &WatchManager, list: &Vec<(String, Param)>) -> (r: MethodResult)
    ensures
        watch_hits_gave(params::param_views(list@), watches@, r),
{
    let id = match get_words(list, "watch_id") {
        Some(s) => s,
        None => return bad_params("missing 'watch_id'"),
    };
    match watches.hits(id.as_str()) {
        Err(e) => failed(e.message()),
        Ok(v) => Ok(RpcResult::Hits(v)),
    }
}

/// Stopping a watch gave this.
pub open spec fn watch_stop_gave(
    params: Params,
    before: Map<Seq<char>, WatchView>,
    after: Map<Seq<char>, WatchView>,
    effects: Seq<EffectView>,
    r: MethodResult,
) -> bool {
    match params::words(params, "watch_id"@) {
        None => after == before && effects.len() == 0 && answer::refuses(
            r,
            INVALID_PARAMS,
            "missing 'watch_id'"@,
        ),
        Some(id) => if before.contains_key(id) {
            &&& after == before.remove(id)
            &&& effects == seq![EffectView::StopWatch(id)]
            &&& r == Ok::<_, Refusal>(RpcResult::Done)
        } else {
            after == before && effects.len() == 0 && answer::refuses(
                r,
                INTERNAL_ERROR,
                watch::no_watch(id),
            )
        },
    }
}

/// Stops a watch.
pub fn handle_watch_stop(watches: &mut WatchManager, list: &Vec<(String, Param)>) -> (r: (
    MethodResult,
    Vec<Effect>,
))
    ensures
        watch_stop_gave(
            params::param_views(list@),
            old(watches)@,
            final(watches)@,
            effect_views(r.1@),
            r.0,
        ),
{
    let id = match get_words(list, "watch_id") {
        Some(s) => s,
        None => return (bad_params("missing 'watch_id'"), no_effects()),
    };
    match watches.stop(id.as_str()) {
        Err(e) => {
            assert(watches@ =~= old(watches)@);
            (failed(e.message()), no_effects())
        },
        Ok(()) => (Ok(RpcResult::Done), one_effect(Effect::StopWatch(id.clone()))),
    }
}

/// Listing the watches gave this.
pub open spec fn watch_list_gave(watches: Map<Seq<char>, WatchView>, r: MethodResult) -> bool {
    r matches Ok(RpcResult::Watches(v)) && watch::shows_watches(v@, watches)
}

/// Lists the watches.
pub fn handle_watch_list(watches: &WatchManager) -> (r: MethodResult)
    ensures
        watch_list_gave(watches@, r),
{
    Ok(RpcResult::Watches(watches.list()))
}

// ─── Code patches ───────────────────────────────────────────────────────────

/// How many bytes are to be overwritten, where that is said.
pub open spec fn nop_size(params: Params) -> Option<usize> {
    match params::whole(params, "size"@) {
        Some(n) => Some(n as usize),
        None => None,
    }
}

/// Overwriting with no-ops came to this.
pub open spec fn code_nop_gave(result: Result<PatchView, PatchErrorView>, r: MethodResult) -> bool {
    match result {
        Err(e) => answer::refuses(r, INTERNAL_ERROR, patch::patch_message(e)),
        Ok(p) => {
            &&& r matches Ok(RpcResult::Nopped { address, original_bytes, patched_bytes })
            &&& address@ == text::address(p.address)
            &&& original_bytes@ == hex::hex_text(p.original)
            &&& patched_bytes@ == hex::hex_text(p.patched)
        },
    }
}

/// Overwriting code with no-ops did this and came to this.
pub open spec fn code_nop_ran(
    params: Params,
    events: Seq<MemEvent>,
    before: PatchTable,
    after: PatchTable,
    r: MethodResult,
) -> bool {
    match (params::process(params), params::address_of(params::param(params, "address"@))) {
        (None, _) => events.len() == 0 && after == before && answer::refuses(
            r,
            INVALID_PARAMS,
            "missing 'pid'"@,
        ),
        (_, None) => events.len() == 0 && after == before && answer::refuses(
            r,
            INVALID_PARAMS,
            "missing or invalid 'address'"@,
        ),
        (Some(pid), Some(address)) => exists|result: Result<PatchView, PatchErrorView>|
            #[trigger]
            patch::nop_ran(events, pid, address, nop_size(params), before, result) && after
                == patch::patches_after(before, pid, address, result) && code_nop_gave(result, r),
    }
}

/// Overwrites code with no-ops.
pub fn handle_code_nop<M: MemoryAccess>(
    mem: &mut M,
    patches: &mut PatchManager,
    list: &Vec<(String, Param)>,
) -> (r: MethodResult)
    ensures
        access::follows(*final(mem), *old(mem)),
        code_nop_ran(
            params::param_views(list@),
            access::since(final(mem).trace(), old(mem).trace()),
            old(patches)@,
            final(patches)@,
            r,
        ),
{
    let ghost start = mem.trace();
    assert(access::since(start, start) =~= Seq::empty());
    let pid: u32 = match get_process(list) {
        Some(pid) => pid,
        None => return bad_params("missing 'pid'"),
    };
    let address: u64 = match get_address(list, "address") {
        Some(a) => a,
        None => return bad_params("missing or invalid 'address'"),
    };
    let size = match get_whole(list, "size") {
        Some(n) => Some(n as usize),
        None => None,
    };
    let result = patches.nop_at(mem, pid, address, size);
    let ghost outcome = patch::record_outcome(result);
    let r = match result {
        Err(e) => failed(e.message()),
        Ok(p) => Ok(
            RpcResult::Nopped {
                address: address_text(p.address),
                original_bytes: hex_encode(p.original_bytes.as_slice()),
                patched_bytes: hex_encode(p.patched_bytes.as_slice()),
            },
        ),
    };
    assert(code_nop_gave(outcome, r));
    r
}

/// Patching came to this.
pub open spec fn code_patch_gave(
    result: Result<PatchView, PatchErrorView>,
    r: MethodResult,
) -> bool {
    match result {
        Err(e) => answer::refuses(r, INTERNAL_ERROR, patch::patch_message(e)),
        Ok(p) => {
            &&& r matches Ok(RpcResult::Patched { address, original_bytes })
            &&& address@ == text::address(p.address)
            &&& original_bytes@ == hex::hex_text(p.original)
        },
    }
}

/// Writing bytes over code did this and came to this. No bytes are no patch.
pub open spec fn bytes_patched(
    events: Seq<MemEvent>,
    pid: u32,
    address: u64,
    bytes: Seq<u8>,
    patches: PatchTable,
    result: Result<PatchView, PatchErrorView>,
) -> bool {
    if bytes.len() == 0 {
        events.len() == 0 && result == Err::<PatchView, _>(PatchErrorView::EmptyPatch)
    } else {
        patch::patch_ran(events, pid, address, bytes, "custom patch"@, patches, result)
    }
}

/// Writing bytes over code did this, came to this, and was kept where it succeeded.
pub open spec fn patched_with(
    events: Seq<MemEvent>,
    pid: u32,
    address: u64,
    bytes: Seq<u8>,
    before: PatchTable,
    after: PatchTable,
    r: MethodResult,
) -> bool {
    exists|result: Result<PatchView, PatchErrorView>| #[trigger]
        bytes_patched(events, pid, address, bytes, before, result) && after
            == patch::patches_after(before, pid, address, result) && code_patch_gave(result, r)
}

/// Patching code did this and came to this.
pub open spec fn code_patch_ran(
    params: Params,
    events: Seq<MemEvent>,
    before: PatchTable,
    after: PatchTable,
    r: MethodResult,
) -> bool {
    match (
        params::process(params),
        params::address_of(params::param(params, "address"@)),
        params::words(params, "bytes"@),
    ) {
        (None, _, _) => events.len() == 0 && after == before && answer::refuses(
            r,
            INVALID_PARAMS,
            "missing 'pid'"@,
        ),
        (_, None, _) => events.len() == 0 && after == before && answer::refuses(
            r,
            INVALID_PARAMS,
            "missing or invalid 'address'"@,
        ),
        (_, _, None) => events.len() == 0 && after == before && answer::refuses(
            r,
            INVALID_PARAMS,
            "missing 'bytes'"@,
        ),
        (Some(pid), Some(address), Some(s)) => match hex::text_bytes(s) {
            Err(e) => events.len() == 0 && after == before && answer::refuses(
                r,
                INVALID_PARAMS,
                "invalid hex bytes: "@ + hex::hex_message(e),
            ),
            Ok(bytes) => patched_with(events, pid, address, bytes, before, after, r),
        },
    }
}

/// Patches code.
pub fn handle_code_patch<M: MemoryAccess>(
    mem: &mut M,
    patches: &mut PatchManager,
    list: &Vec<(String, Param)>,
) -> (r: MethodResult)
    ensures
        access::follows(*final(mem), *old(mem)),
        code_patch_ran(
            params::param_views(list@),
            access::since(final(mem).trace(), old(mem).trace()),
            old(patches)@,
            final(patches)@,
            r,
        ),
{
    let ghost start = mem.trace();
    assert(access::since(start, start) =~= Seq::empty());
    let pid: u32 = match get_process(list) {
        Some(pid) => pid,
        None => return bad_params("missing 'pid'"),
    };
    let address: u64 = match get_address(list, "address") {
        Some(a) => a,
        None => return bad_params("missing or invalid 'address'"),
    };
    let s = match get_words(list, "bytes") {
        Some(s) => s,
        None => return bad_params("missing 'bytes'"),
    };
    let bytes = match hex_decode(s.as_str()) {
        Ok(b) => b,
        Err(e) => {
            let mut message = "invalid hex bytes: ".to_string();
            let why = e.message();
            message.append(why.as_str());
            return Err(Refusal { code: INVALID_PARAMS, message });
        },
    };
    let result = patches.patch_at(mem, pid, address, bytes.as_slice());
    let ghost outcome = patch::record_outcome(result);
    assert(bytes_patched(
        access::since(mem.trace(), start),
        pid,
        address,
        bytes@,
        old(patches)@,
        outcome,
    ));
    let r = match result {
        Err(e) => failed(e.message()),
        Ok(p) => Ok(
            RpcResult::Patched {
                address: address_text(p.address),
                original_bytes: hex_encode(p.original_bytes.as_slice()),
            },
        ),
    };
    assert(code_patch_gave(outcome, r));
    assert(patched_with(
        access::since(mem.trace(), start),
        pid,
        address,
        bytes@,
        old(patches)@,
        patches@,
        r,
    ));
    r
}

/// Restoring came to this.
pub open spec fn code_restore_gave(result: Result<(), PatchErrorView>, r: MethodResult) -> bool {
    match result {
        Err(e) => answer::refuses(r, INTERNAL_ERROR, patch::patch_message(e)),
        Ok(()) => r == Ok::<_, Refusal>(RpcResult::Done),
    }
}

/// Restoring code did this and came to this.
pub open spec fn code_restore_ran(
    params: Params,
    events: Seq<MemEvent>,
    before: PatchTable,
    after: PatchTable,
    r: MethodResult,
) -> bool {
    match (params::process(params), params::address_of(params::param(params, "address"@))) {
        (None, _) => events.len() == 0 && after == before && answer::refuses(
            r,
            INVALID_PARAMS,
            "missing 'pid'"@,
        ),
        (_, None) => events.len() == 0 && after == before && answer::refuses(
            r,
            INVALID_PARAMS,
            "missing or invalid 'address'"@,
        ),
        (Some(pid), Some(address)) => exists|result: Result<(), PatchErrorView>| #[trigger]
            patch::restore_ran(events, pid, address, before, result) && after
                == patch::patches_restored(before, pid, address, result) && code_restore_gave(
                result,
                r,
            ),
    }
}

/// Restores code.
pub fn handle_code_restore<M: MemoryAccess>(
    mem: &mut M,
    patches: &mut PatchManager,
    list: &Vec<(String, Param)>,
) -> (r: MethodResult)
    ensures
        access::follows(*final(mem), *old(mem)),
        code_restore_ran(
            params::param_views(list@),
            access::since(final(mem).trace(), old(mem).trace()),
            old(patches)@,
            final(patches)@,
            r,
        ),
{
    let ghost start = mem.trace();
    assert(access::since(start, start) =~= Seq::empty());
    let pid: u32 = match get_process(list) {
        Some(pid) => pid,
        None => return bad_params("missing 'pid'"),
    };
    let address: u64 = match get_address(list, "address") {
        Some(a) => a,
        None => return bad_params("missing or invalid 'address'"),
    };
    let result = patches.restore_at(mem, pid, address);
    let ghost outcome = patch::unit_outcome(result);
    let r = match result {
        Err(e) => failed(e.message()),
        Ok(()) => Ok(RpcResult::Done),
    };
    assert(code_restore_gave(outcome, r));
    r
}

/// Listing the patches gave this.
pub open spec fn code_list_gave(patches: PatchTable, r: MethodResult) -> bool {
    r matches Ok(RpcResult::Patches(v)) && patch::shows_patches(v@, patches)
}

/// Lists the patches.
pub fn handle_code_list(patches: &PatchManager) -> (r: MethodResult)
    ensures
        code_list_gave(patches@, r),
{
    Ok(RpcResult::Patches(patches.list()))
}

// ─── Laws ───────────────────────────────────────────────────────────────────

/// Freezing holds the value that was asked for, where it was asked for, and every tenth of a
/// second where no interval is given; what is held elsewhere stays. It succeeds where process,
/// address, value and type are given, and changes nothing otherwise.
pub proof fn freezing_holds_the_value(
    params: Params,
    before: Map<u64, FreezeEntry>,
    after: Map<u64, FreezeEntry>,
    effects: Seq<EffectView>,
    r: MethodResult,
    elsewhere: u64,
)
    requires
        freeze_start_gave(params, before, after, effects, r),
    ensures
        r is Ok <==> {
            &&& params::process(params) is Some
            &&& params::address_of(params::param(params, "address"@)) is Some
            &&& params::quantity(params, "value"@) is Some
            &&& params::type_of(params::param(params, "dtype"@)) is Some
        },
        r is Ok ==> {
            let address = params::address_of(params::param(params, "address"@))->0;
            &&& after.contains_key(address)
            &&& after[address].pid == params::process(params)->0
            &&& after[address].address == address
            &&& after[address].value == params::quantity(params, "value"@)->0
            &&& after[address].dtype == params::type_of(params::param(params, "dtype"@))->0
            &&& after[address].interval_ms == if params::whole(params, "interval_ms"@) is Some {
                params::whole(params, "interval_ms"@)->0
            } else {
                100
            }
            &&& effects.len() == 1
            &&& effects[0] == EffectView::StartFreeze(after[address])
            &&& elsewhere != address ==> freeze::held(after, elsewhere) == freeze::held(
                before,
                elsewhere,
            )
        },
        r is Err ==> after == before && effects.len() == 0,
{
}

proof fn lemma_held_with(held: Map<u64, FreezeEntry>, entries: Seq<FreezeEntry>, a: u64)
    ensures
        (exists|i: int| 0 <= i < entries.len() && (#[trigger] entries[i]).address == a)
            ==> held_with(held, entries).contains_key(a) && exists|i: int|
            0 <= i < entries.len() && #[trigger] entries[i] == held_with(held, entries)[a]
                && entries[i].address == a,
        (forall|i: int| 0 <= i < entries.len() ==> (#[trigger] entries[i]).address != a)
            ==> freeze::held(held_with(held, entries), a) == freeze::held(held, a),
    decreases entries.len(),
{
    if entries.len() > 0 {
        let rest = entries.drop_last();
        lemma_held_with(held, rest, a);
        if entries.last().address == a {
            assert(entries[entries.len() - 1].address == a);
        } else if exists|i: int| 0 <= i < entries.len() && (#[trigger] entries[i]).address == a {
            let i = choose|i: int| 0 <= i < entries.len() && (#[trigger] entries[i]).address == a;
            assert(rest[i].address == a);
            let k = choose|k: int|
                0 <= k < rest.len() && #[trigger] rest[k] == held_with(held, rest)[a]
                    && rest[k].address == a;
            assert(entries[k] == rest[k]);
        } else {
            assert forall|i: int| 0 <= i < rest.len() implies (#[trigger] rest[i]).address
                != a by {
                assert(entries[i] == rest[i]);
            }
        }
    }
}

/// Freezing all candidates of a session holds the value at each of them, in the process of the
/// session; what is held elsewhere stays.
pub proof fn freezing_all_holds_each(
    held: Map<u64, FreezeEntry>,
    s: SessionView,
    value: Double,
    dtype: ValueType,
    interval_ms: u64,
    a: u64,
)
    ensures
        (exists|i: int| 0 <= i < s.candidates.len() && (#[trigger] s.candidates[i]).address == a)
            ==> {
            let after = held_with(held, entries_of(s, value, dtype, interval_ms));
            &&& after.contains_key(a)
            &&& after[a].pid == s.pid
            &&& after[a].address == a
            &&& after[a].value == value
            &&& after[a].dtype == dtype
            &&& after[a].interval_ms == interval_ms
        },
        (forall|i: int|
            0 <= i < s.candidates.len() ==> (#[trigger] s.candidates[i]).address != a)
            ==> freeze::held(
            held_with(held, entries_of(s, value, dtype, interval_ms)),
            a,
        ) == freeze::held(held, a),
{
    let entries = entries_of(s, value, dtype, interval_ms);
    lemma_held_with(held, entries, a);
    if exists|i: int| 0 <= i < s.candidates.len() && (#[trigger] s.candidates[i]).address == a {
        let i = choose|i: int|
            0 <= i < s.candidates.len() && (#[trigger] s.candidates[i]).address == a;
        assert(entries[i].address == a);
    } else {
        assert forall|i: int| 0 <= i < entries.len() implies (#[trigger] entries[i]).address
            != a by {
            assert(s.candidates[i].address != a);
        }
    }
}

/// Freezing no longer gives up what is held at the address, and nothing else.
pub proof fn stopping_gives_up_one_freeze(
    params: Params,
    before: Map<u64, FreezeEntry>,
    after: Map<u64, FreezeEntry>,
    effects: Seq<EffectView>,
    r: MethodResult,
    elsewhere: u64,
)
    requires
        freeze_stop_gave(params, before, after, effects, r),
    ensures
        r is Ok <==> params::address_of(params::param(params, "address"@)) is Some,
        r is Ok ==> {
            let address = params::address_of(params::param(params, "address"@))->0;
            &&& !after.contains_key(address)
            &&& effects.len() == 1
            &&& effects[0] == EffectView::StopFreeze(address)
            &&& elsewhere != address ==> freeze::held(after, elsewhere) == freeze::held(
                before,
                elsewhere,
            )
        },
        r is Err ==> after == before && effects.len() == 0,
{
}

/// A watch spans one, two, four or eight bytes, as many as are asked for.
pub proof fn watches_span_what_is_asked_for(n: u64)
    ensures
        watch_size(n) is Some <==> n == 1 || n == 2 || n == 4 || n == 8,
        watch_size(n) is Some ==> watch_size(n)->0.bytes() == n,
        WatchSize::Byte1.bytes() == 1,
        WatchSize::Byte2.bytes() == 2,
        WatchSize::Byte4.bytes() == 4,
        WatchSize::Byte8.bytes() == 8,
{
}

/// Only four names are modes of a watch.
pub proof fn watch_modes_go_by_their_names(s: Seq<char>)
    ensures
        watch_mode(s) == Some(WatchMode::Write) <==> s == "write"@,
        watch_mode(s) == Some(WatchMode::ReadWrite) <==> s == "access"@ || s == "readwrite"@ || s
            == "read_write"@,
        watch_mode(WatchMode::Write.says()) == Some(WatchMode::Write),
        watch_mode(WatchMode::ReadWrite.says()) == Some(WatchMode::ReadWrite),
{
    reveal_strlit("write");
    reveal_strlit("access");
    reveal_strlit("readwrite");
    reveal_strlit("read_write");
    assert("write"@.len() == 5);
    assert("access"@.len() == 6);
    assert("readwrite"@.len() == 9);
    assert("read_write"@.len() == 10);
}

/// A watch is set on what was asked for. Where no mode is given it catches writes, where no
/// size is given it spans four bytes, and it captures registers only where details are asked
/// for. Other watches stay.
pub proof fn watches_are_set_as_asked_for(
    params: Params,
    before: Map<Seq<char>, WatchView>,
    after: Map<Seq<char>, WatchView>,
    effects: Seq<EffectView>,
    r: MethodResult,
    other: Seq<char>,
)
    requires
        watch_start_gave(params, before, after, effects, r),
    ensures
        r is Err ==> after == before && effects.len() == 0,
        r matches Ok(RpcResult::WatchStarted { watch_id }) ==> {
            let w = after[watch_id@];
            &&& after.contains_key(watch_id@)
            &&& w.config.pid == params::process(params)->0
            &&& w.config.address == params::address_of(params::param(params, "address"@))->0
            &&& params::words(params, "mode"@) is None ==> w.config.mode == WatchMode::Write
            &&& params::words(params, "mode"@) == Some("write"@) ==> w.config.mode
                == WatchMode::Write
            &&& params::words(params, "mode"@) == Some("access"@) ==> w.config.mode
                == WatchMode::ReadWrite
            &&& w.config.size.bytes() == if params::whole(params, "size"@) is Some {
                params::whole(params, "size"@)->0
            } else {
                4
            }
            &&& w.config.capture_registers <==> params::param(params, "detail"@) == Some(
                params::ParamView::Flag(true),
            )
            &&& w.hits.len() == 0
            &&& w.active
            &&& effects.len() == 1
            &&& effects[0] == EffectView::StartWatch(watch_id@, w.config)
            &&& other != watch_id@ && before.contains_key(other) ==> after.contains_key(other)
                && after[other] == before[other]
        },
        params::process(params) is Some && params::address_of(
            params::param(params, "address"@),
        ) is Some && params::words(params, "mode"@) is None && params::whole(
            params,
            "size"@,
        ) is None ==> r is Ok,
{
    watch_modes_go_by_their_names("write"@);
    watch_modes_go_by_their_names("access"@);
    reveal_strlit("write");
    reveal_strlit("access");
    assert("write"@.len() == 5);
    assert("access"@.len() == 6);
}

/// A patch that succeeded wrote the bytes that the text spells to the address and the process
/// that were asked for, and the reply shows what stood there before the first patch.
pub proof fn patches_are_as_asked_for(
    params: Params,
    events: Seq<MemEvent>,
    before: PatchTable,
    after: PatchTable,
    r: MethodResult,
)
    requires
        code_patch_ran(params, events, before, after, r),
    ensures
        r is Err ==> after == before,
        r matches Ok(RpcResult::Patched { address: shown, original_bytes }) ==> {
            let pid = params::process(params);
            let address = params::address_of(params::param(params, "address"@));
            let bytes = hex::text_bytes(params::words(params, "bytes"@)->0);
            let p = patch::patch_there(after, pid->0, address->0);
            &&& pid is Some && address is Some && bytes is Ok
            &&& shown@ == "0x"@ + text::numeral(address->0 as nat, 16)
            &&& events.len() == 3
            &&& events[2] is Code
            &&& events[2]->Code_pid == pid->0
            &&& events[2]->Code_address == address->0
            &&& events[2]->Code_data == bytes->Ok_0
            &&& p is Some
            &&& p->0.patched == bytes->Ok_0
            &&& original_bytes@ == hex::hex_text(p->0.original)
        },
{
}

} // verus!
