//! Reading, writing and decoding memory.

use crate::bytes;
use crate::bytes::from_bytes;
use crate::mem::access;
use crate::mem::access::{MemEvent, MemoryAccess};
use crate::mem::disassemble;
use crate::mem::disassemble::{disassemble_at, MAX_INSTRUCTION};
use crate::mem::hex;
use crate::mem::hex::hex_string;
use crate::mem::write::{write_value, WriteErrorView};
use crate::number::Double;
use crate::rpc::methods::answer;
use crate::rpc::methods::answer::{bad_params, failed, missing_session, MethodResult, Refusal};
use crate::rpc::params;
use crate::rpc::params::{
    get_address, get_flagged, get_process, get_quantity, get_type, get_whole, get_words, Param,
    Params,
};
use crate::rpc::types::{
    BulkError, BulkJson, Interpretations, MemoryJson, RpcResult, INTERNAL_ERROR, INVALID_PARAMS,
};
use crate::scan::candidate;
use crate::scan::candidate::{Candidate, CandidateView, ValueType};
use crate::scan::engine;
use crate::scan::engine::{SessionRegistry, SessionView};
use crate::text;
use crate::text::{address_text, push_decimal};
use vstd::prelude::*;
use vstd::slice::slice_subrange;

verus! {

// ─── Reading ────────────────────────────────────────────────────────────────

/// How many bytes a read may ask for at most.
pub const READ_LIMIT: usize = 4096;

/// How many bytes a read is for; 128 where nothing is said.
pub open spec fn read_length(params: Params) -> nat {
    match params::whole(params, "length"@) {
        Some(n) => if n as usize <= READ_LIMIT {
            n as usize as nat
        } else {
            READ_LIMIT as nat
        },
        None => 128,
    }
}

/// What the first bytes can stand for: the first four, where there are four, and the first
/// eight, where there are eight.
pub open spec fn meanings(data: Seq<u8>) -> Interpretations {
    let low = bytes::le_value(data.take(4));
    let all = bytes::le_value(data.take(8));
    let four = data.len() >= 4;
    let eight = data.len() >= 8;
    Interpretations {
        int32: if four {
            Some(bytes::signed(low, 0x1_0000_0000) as i32)
        } else {
            None
        },
        uint32: if four {
            Some(low as u32)
        } else {
            None
        },
        float32: if four {
            Some(low as u32)
        } else {
            None
        },
        int64: if eight {
            Some(bytes::signed(all, 0x1_0000_0000_0000_0000) as i64)
        } else {
            None
        },
        uint64: if eight {
            Some(all as u64)
        } else {
            None
        },
        float64: if eight {
            Some(Double { bits: all as u64 })
        } else {
            None
        },
    }
}

fn signed_32(n: u32) -> (r: i32)
    ensures
        r == bytes::signed(n as nat, 0x1_0000_0000),
{
    if n < 0x8000_0000 {
        n as i32
    } else {
        (n as i64 - 0x1_0000_0000) as i32
    }
}

fn signed_64(n: u64) -> (r: i64)
    ensures
        r == bytes::signed(n as nat, 0x1_0000_0000_0000_0000),
{
    if n < 0x8000_0000_0000_0000 {
        n as i64
    } else {
        (n as i128 - 0x1_0000_0000_0000_0000) as i64
    }
}

/// What the first bytes can stand for.
pub fn interpret(data: &[u8]) -> (r: Interpretations)
    ensures
        r == meanings(data@),
{
    let mut r = Interpretations {
        int32: None,
        uint32: None,
        float32: None,
        int64: None,
        uint64: None,
        float64: None,
    };
    if data.len() >= 4 {
        let low: u32 = from_bytes(data, 4) as u32;
        r.int32 = Some(signed_32(low));
        r.uint32 = Some(low);
        r.float32 = Some(low);
    }
    if data.len() >= 8 {
        let all: u64 = from_bytes(data, 8);
        r.int64 = Some(signed_64(all));
        r.uint64 = Some(all);
        r.float64 = Some(Double::from_bits(all));
    }
    r
}

impl MemoryJson {
    /// This is how the bytes at an address are shown.
    pub open spec fn shows(self, address: u64, data: Seq<u8>) -> bool {
        &&& self.address@ == text::address(address)
        &&& self.bytes_read == data.len()
        &&& self.hex@ == hex::hex_run(data)
        &&& self.interpretations == meanings(data)
    }
}

/// Reading memory did this and came to this.
pub open spec fn memory_read_ran(params: Params, events: Seq<MemEvent>, r: MethodResult) -> bool {
    match (params::process(params), params::address_of(params::param(params, "address"@))) {
        (None, _) => events.len() == 0 && answer::refuses(r, INVALID_PARAMS, "missing 'pid'"@),
        (_, None) => events.len() == 0 && answer::refuses(
            r,
            INVALID_PARAMS,
            "missing or invalid 'address'"@,
        ),
        (Some(pid), Some(address)) => {
            &&& events.len() == 1
            &&& events[0] is Read
            &&& events[0]->Read_pid == pid
            &&& events[0]->Read_address == address
            &&& events[0]->wanted == read_length(params)
            &&& access::fills(events[0])
            &&& match events[0]->Read_outcome {
                Err(e) => answer::refuses(r, INTERNAL_ERROR, e),
                Ok((n, buffer)) => r matches Ok(RpcResult::Memory(m)) && m.shows(
                    address,
                    buffer.take(n as int),
                ),
            }
        },
    }
}

/// A read gives no more bytes than were asked for, nor more than the limit.
pub proof fn reads_are_bounded(params: Params, events: Seq<MemEvent>, r: MethodResult)
    requires
        memory_read_ran(params, events, r),
    ensures
        r matches Ok(RpcResult::Memory(m)) ==> m.bytes_read <= read_length(params)
            && m.bytes_read <= READ_LIMIT,
{
}

/// Reads memory.
pub fn handle_memory_read<M: MemoryAccess>(mem: &mut M, list: &Vec<(String, Param)>) -> (r:
    MethodResult)
    ensures
        access::follows(*final(mem), *old(mem)),
        memory_read_ran(
            params::param_views(list@),
            access::since(final(mem).trace(), old(mem).trace()),
            r,
        ),
{
    let ghost start = mem.trace();
    assert(access::since(start, start) =~= Seq::empty());
    let pid: u32 = match get_process(list) {
        Some(pid) => pid,
        None => return bad_params("missing 'pid'"),
    };
    let address: u64 = match get_address(list, "address") {
        Some(a) => a,
        None => return bad_params("missing or invalid 'address'"),
    };
    let length: usize = match get_whole(list, "length") {
        Some(n) => {
            let wanted: usize = n as usize;
            if wanted <= READ_LIMIT {
                wanted
            } else {
                READ_LIMIT
            }
        },
        None => 128,
    };
    let mut buffer: Vec<u8> = vec![0u8; length];
    let result = mem.read(pid, address, buffer.as_mut_slice());
    let ghost event = mem.trace().last();
    assert(access::since(mem.trace(), start) =~= seq![event]);
    match result {
        Err(e) => failed(e.message),
        Ok(n) => {
            let data = slice_subrange(buffer.as_slice(), 0, n);
            assert(data@ =~= buffer@.take(n as int));
            Ok(
                RpcResult::Memory(
                    MemoryJson {
                        address: address_text(address),
                        bytes_read: n,
                        hex: hex_string(data),
                        interpretations: interpret(data),
                    },
                ),
            )
        },
    }
}

// ─── Writing ────────────────────────────────────────────────────────────────

/// The write that was asked for came to this.
pub open spec fn memory_write_gave(result: Result<(), WriteErrorView>, r: MethodResult) -> bool {
    match result {
        Err(e) => answer::refuses(r, INTERNAL_ERROR, crate::mem::write::write_message(e)),
        Ok(()) => r == Ok::<_, Refusal>(RpcResult::Done),
    }
}

/// Writing a value did this and came to this.
pub open spec fn memory_write_ran(params: Params, events: Seq<MemEvent>, r: MethodResult) -> bool {
    match (
        params::process(params),
        params::address_of(params::param(params, "address"@)),
        params::quantity(params, "value"@),
        params::type_of(params::param(params, "dtype"@)),
    ) {
        (None, _, _, _) => events.len() == 0 && answer::refuses(
            r,
            INVALID_PARAMS,
            "missing 'pid'"@,
        ),
        (_, None, _, _) => events.len() == 0 && answer::refuses(
            r,
            INVALID_PARAMS,
            "missing or invalid 'address'"@,
        ),
        (_, _, None, _) => events.len() == 0 && answer::refuses(
            r,
            INVALID_PARAMS,
            "missing 'value'"@,
        ),
        (_, _, _, None) => events.len() == 0 && answer::refuses(
            r,
            INVALID_PARAMS,
            "missing or invalid 'dtype'"@,
        ),
        (Some(pid), Some(address), Some(value), Some(dtype)) => exists|
            result: Result<(), WriteErrorView>,
        | #[trigger]
            crate::mem::write::write_ran(events, pid, address, value, dtype, result)
                && memory_write_gave(result, r),
    }
}

/// Writes a value.
pub fn handle_memory_write<M: MemoryAccess>(mem: &mut M, list: &Vec<(String, Param)>) -> (r:
    MethodResult)
    ensures
        access::follows(*final(mem), *old(mem)),
        memory_write_ran(
            params::param_views(list@),
            access::since(final(mem).trace(), old(mem).trace()),
            r,
        ),
{
    let ghost start = mem.trace();
    assert(access::since(start, start) =~= Seq::empty());
    let pid: u32 = match get_process(list) {
        Some(pid) => pid,
        None => return bad_params("missing 'pid'"),
    };
    let address: u64 = match get_address(list, "address") {
        Some(a) => a,
        None => return bad_params("missing or invalid 'address'"),
    };
    let value = match get_quantity(list, "value") {
        Some(v) => v,
        None => return bad_params("missing 'value'"),
    };
    let dtype = match get_type(list) {
        Some(t) => t,
        None => return bad_params("missing or invalid 'dtype'"),
    };
    let result = write_value(mem, pid, address, value, dtype);
    let ghost outcome = crate::mem::write::written_outcome(result);
    let r = match result {
        Err(e) => failed(e.message()),
        Ok(()) => Ok(RpcResult::Done),
    };
    assert(memory_write_gave(outcome, r));
    r
}

/// More candidates than this are only written or frozen where that is insisted on.
pub const BULK_WRITE_LIMIT: usize = 16;

/// Doing something to all candidates is refused: there are too many, and it is not insisted
/// on.
pub open spec fn too_many(params: Params, s: SessionView) -> bool {
    s.candidates.len() > BULK_WRITE_LIMIT && !params::flagged(params, "force"@)
}

/// What is said where there are too many candidates.
pub open spec fn too_many_message(what: Seq<char>, count: nat) -> Seq<char> {
    "refusing to "@ + what + text::decimal(count) + " addresses (limit: "@ + text::decimal(
        BULK_WRITE_LIMIT as nat,
    ) + "). Narrow your scan or use --force"@
}

/// Refuses because there are too many candidates.
pub fn refuse_bulk(what: &str, count: usize) -> (r: MethodResult)
    ensures
        answer::refuses(r, INVALID_PARAMS, too_many_message(what@, count as nat)),
{
    let mut message = "refusing to ".to_string();
    message.append(what);
    push_decimal(&mut message, count as u64);
    message.append(" addresses (limit: ");
    push_decimal(&mut message, BULK_WRITE_LIMIT as u64);
    message.append("). Narrow your scan or use --force");
    Err(Refusal { code: INVALID_PARAMS, message })
}

/// The addresses of candidates.
pub open spec fn addresses_of(candidates: Seq<CandidateView>) -> Seq<u64> {
    Seq::new(candidates.len(), |i: int| candidates[i].address)
}

/// The addresses that a thing was done for, as they are shown.
pub open spec fn done_at(addresses: Seq<u64>, results: Seq<Result<(), Seq<char>>>) -> Seq<Seq<char>>
    decreases addresses.len(),
{
    if addresses.len() == 0 {
        Seq::empty()
    } else {
        let before = done_at(addresses.drop_last(), results);
        match results[addresses.len() - 1] {
            Ok(()) => before.push(text::address(addresses.last())),
            Err(_) => before,
        }
    }
}

/// The addresses that a thing failed for, as they are shown, and what went wrong.
pub open spec fn failed_at(addresses: Seq<u64>, results: Seq<Result<(), Seq<char>>>) -> Seq<
    (Seq<char>, Seq<char>),
>
    decreases addresses.len(),
{
    if addresses.len() == 0 {
        Seq::empty()
    } else {
        let before = failed_at(addresses.drop_last(), results);
        match results[addresses.len() - 1] {
            Ok(()) => before,
            Err(e) => before.push((text::address(addresses.last()), e)),
        }
    }
}

/// The mathematical values of a list of errors.
pub open spec fn error_views(v: Seq<BulkError>) -> Seq<(Seq<char>, Seq<char>)> {
    Seq::new(v.len(), |i: int| (v[i].address@, v[i].error@))
}

impl BulkJson {
    /// This is how what came of each address is shown.
    pub open spec fn shows(self, addresses: Seq<u64>, results: Seq<Result<(), Seq<char>>>) -> bool {
        &&& self.done == self.addresses@.len()
        &&& self.failed == self.errors@.len()
        &&& text::texts(self.addresses@) == done_at(addresses, results)
        &&& error_views(self.errors@) == failed_at(addresses, results)
    }
}

/// What a write came to, and what is said of it.
pub open spec fn said(result: Result<(), WriteErrorView>) -> Result<(), Seq<char>> {
    match result {
        Ok(()) => Ok(()),
        Err(e) => Err(crate::mem::write::write_message(e)),
    }
}

/// A value was written to each address in turn: `parts` is what each write did, `results` is
/// what it came to.
pub open spec fn writes_each(
    parts: Seq<Seq<MemEvent>>,
    pid: u32,
    addresses: Seq<u64>,
    value: Double,
    dtype: ValueType,
    results: Seq<Result<(), WriteErrorView>>,
) -> bool {
    &&& parts.len() == addresses.len()
    &&& results.len() == addresses.len()
    &&& forall|i: int|
        0 <= i < parts.len() ==> crate::mem::write::write_ran(
            #[trigger] parts[i],
            pid,
            addresses[i],
            value,
            dtype,
            results[i],
        )
}

/// What writing to each address came to, and what is said of it.
pub open spec fn all_said(results: Seq<Result<(), WriteErrorView>>) -> Seq<Result<(), Seq<char>>> {
    Seq::new(results.len(), |i: int| said(results[i]))
}

/// A value was written to each address in turn, and this is how what came of it is shown.
pub open spec fn wrote_all(
    events: Seq<MemEvent>,
    pid: u32,
    addresses: Seq<u64>,
    value: Double,
    dtype: ValueType,
    b: BulkJson,
) -> bool {
    exists|parts: Seq<Seq<MemEvent>>, results: Seq<Result<(), WriteErrorView>>|
        {
            &&& #[trigger] writes_each(parts, pid, addresses, value, dtype, results)
            &&& events == engine::chained(parts)
            &&& b.shows(addresses, all_said(results))
        }
}

/// Writing a value to all candidates did this and came to this.
pub open spec fn memory_write_all_ran(
    params: Params,
    events: Seq<MemEvent>,
    sessions: Map<Seq<char>, SessionView>,
    r: MethodResult,
) -> bool {
    match (
        params::words(params, "session_id"@),
        params::quantity(params, "value"@),
        params::type_of(params::param(params, "dtype"@)),
    ) {
        (None, _, _) => events.len() == 0 && answer::refuses(
            r,
            INVALID_PARAMS,
            "missing 'session_id'"@,
        ),
        (_, None, _) => events.len() == 0 && answer::refuses(
            r,
            INVALID_PARAMS,
            "missing 'value'"@,
        ),
        (_, _, None) => events.len() == 0 && answer::refuses(
            r,
            INVALID_PARAMS,
            "missing or invalid 'dtype'"@,
        ),
        (Some(id), Some(value), Some(dtype)) => if !sessions.contains_key(id) {
            events.len() == 0 && answer::refuses(r, INVALID_PARAMS, answer::no_session(id))
        } else if too_many(params, sessions[id]) {
            events.len() == 0 && answer::refuses(
                r,
                INVALID_PARAMS,
                too_many_message("write to "@, sessions[id].candidates.len()),
            )
        } else {
            r matches Ok(RpcResult::Written(b)) && wrote_all(
                events,
                sessions[id].pid,
                addresses_of(sessions[id].candidates),
                value,
                dtype,
                b,
            )
        },
    }
}

fn write_each<M: MemoryAccess>(
    mem: &mut M,
    pid: u32,
    candidates: &Vec<Candidate>,
    value: Double,
    dtype: ValueType,
) -> (r: BulkJson)
    ensures
        access::follows(*final(mem), *old(mem)),
        wrote_all(
            access::since(final(mem).trace(), old(mem).trace()),
            pid,
            addresses_of(candidate::candidate_views(candidates@)),
            value,
            dtype,
            r,
        ),
{
    let ghost all = addresses_of(candidate::candidate_views(candidates@));
    let ghost start = mem.trace();
    let ghost mut parts: Seq<Seq<MemEvent>> = Seq::empty();
    let ghost mut results: Seq<Result<(), WriteErrorView>> = Seq::empty();
    let mut addresses: Vec<String> = Vec::new();
    let mut errors: Vec<BulkError> = Vec::new();
    let mut i: usize = 0;
    proof {
        assert(start + engine::chained(parts) =~= start);
        assert(text::texts(addresses@) =~= done_at(all.take(0), all_said(results)));
        assert(error_views(errors@) =~= failed_at(all.take(0), all_said(results)));
    }
    while i < candidates.len()
        invariant
            i <= candidates@.len(),
            all == addresses_of(candidate::candidate_views(candidates@)),
            mem.trace() == start + engine::chained(parts),
            mem.answers() == old(mem).answers(),
            old(mem).sound() ==> mem.sound(),
            writes_each(parts, pid, all.take(i as int), value, dtype, results),
            text::texts(addresses@) == done_at(all.take(i as int), all_said(results)),
            error_views(errors@) == failed_at(all.take(i as int), all_said(results)),
        decreases candidates@.len() - i,
    {
        let address: u64 = candidates[i].address;
        let ghost middle = mem.trace();
        let ghost written_before = text::texts(addresses@);
        let ghost errors_before = error_views(errors@);
        assert(all[i as int] == address);
        let result = write_value(mem, pid, address, value, dtype);
        proof {
            let new = access::since(mem.trace(), middle);
            let outcome = crate::mem::write::written_outcome(result);
            let earlier = parts;
            let known = results;
            access::trace_splits(mem.trace(), middle);
            parts = parts.push(new);
            results = results.push(outcome);
            assert(parts.drop_last() =~= earlier);
            assert((start + engine::chained(earlier)) + new =~= start + (engine::chained(earlier)
                + new));
            assert(all.take(i + 1).drop_last() =~= all.take(i as int));
            assert(all.take(i + 1).last() == address);
            lemma_said_so_far(all.take(i as int), known, outcome);
        }
        match result {
            Ok(()) => {
                addresses.push(address_text(address));
                assert(text::texts(addresses@) =~= written_before.push(text::address(address)));
            },
            Err(e) => {
                let error = BulkError { address: address_text(address), error: e.message() };
                errors.push(error);
                assert(error_views(errors@) =~= errors_before.push((error.address@, error.error@)));
            },
        }
        i += 1;
    }
    proof {
        assert(all.take(candidates@.len() as int) =~= all);
        access::trace_grows(start, engine::chained(parts));
    }
    let b = BulkJson { done: addresses.len(), failed: errors.len(), addresses, errors };
    assert(b.shows(all, all_said(results)));
    b
}

proof fn lemma_said_so_far(
    addresses: Seq<u64>,
    results: Seq<Result<(), WriteErrorView>>,
    next: Result<(), WriteErrorView>,
)
    requires
        addresses.len() <= results.len(),
    ensures
        done_at(addresses, all_said(results.push(next))) == done_at(addresses, all_said(results)),
        failed_at(addresses, all_said(results.push(next))) == failed_at(
            addresses,
            all_said(results),
        ),
    decreases addresses.len(),
{
    if addresses.len() > 0 {
        lemma_said_so_far(addresses.drop_last(), results, next);
        let k = addresses.len() - 1;
        assert(all_said(results.push(next))[k] == all_said(results)[k]);
    }
}

/// Writes a value to all candidates of a session.
pub fn handle_memory_write_all<M: MemoryAccess>(
    mem: &mut M,
    sessions: &mut SessionRegistry,
    list: &Vec<(String, Param)>,
) -> (r: MethodResult)
    ensures
        access::follows(*final(mem), *old(mem)),
        memory_write_all_ran(
            params::param_views(list@),
            access::since(final(mem).trace(), old(mem).trace()),
            old(sessions)@,
            r,
        ),
        final(sessions)@ == old(sessions)@,
{
    let ghost start = mem.trace();
    assert(access::since(start, start) =~= Seq::empty());
    let id = match get_words(list, "session_id") {
        Some(s) => s,
        None => return bad_params("missing 'session_id'"),
    };
    let value = match get_quantity(list, "value") {
        Some(v) => v,
        None => return bad_params("missing 'value'"),
    };
    let dtype = match get_type(list) {
        Some(t) => t,
        None => return bad_params("missing or invalid 'dtype'"),
    };
    let force = get_flagged(list, "force");
    match sessions.remove(id.as_str()) {
        None => {
            assert(sessions@ =~= old(sessions)@);
            missing_session(id.as_str())
        },
        Some(session) => {
            let count: usize = session.candidates.len();
            if count > BULK_WRITE_LIMIT && !force {
                sessions.put_back(id.as_str(), session);
                assert(sessions@ =~= old(sessions)@);
                return refuse_bulk("write to ", count);
            }
            let b = write_each(mem, session.pid, &session.candidates, value, dtype);
            sessions.put_back(id.as_str(), session);
            assert(sessions@ =~= old(sessions)@);
            Ok(RpcResult::Written(b))
        },
    }
}

/// Writing to all candidates of a session is guarded like writing to one: each write follows a
/// fresh look at the memory map that shows its bytes in a safe region.
pub proof fn bulk_writes_are_guarded(
    parts: Seq<Seq<MemEvent>>,
    pid: u32,
    addresses: Seq<u64>,
    value: Double,
    dtype: ValueType,
    results: Seq<Result<(), WriteErrorView>>,
)
    requires
        writes_each(parts, pid, addresses, value, dtype, results),
    ensures
        forall|i: int|
            0 <= i < engine::chained(parts).len() && (#[trigger] engine::chained(
                parts,
            )[i]).mutates() ==> crate::mem::write::guarded(engine::chained(parts), i),
    decreases parts.len(),
{
    if parts.len() > 0 {
        let n = parts.len() - 1;
        bulk_writes_are_guarded(
            parts.drop_last(),
            pid,
            addresses.drop_last(),
            value,
            dtype,
            results.drop_last(),
        );
        crate::mem::write::writes_are_guarded(
            parts[n],
            pid,
            addresses[n],
            value,
            dtype,
            results[n],
        );
        let before = engine::chained(parts.drop_last());
        let whole = engine::chained(parts);
        assert(whole =~= before + parts[n]);
        assert forall|i: int|
            0 <= i < whole.len() && (#[trigger] whole[i]).mutates() implies crate::mem::write::guarded(
            whole,
            i,
        ) by {
            if i < before.len() {
                assert(whole[i] == before[i]);
                assert(crate::mem::write::guarded(before, i));
                assert(whole[i - 1] == before[i - 1]);
            } else {
                let k = i - before.len();
                assert(whole[i] == parts[n][k]);
                assert(crate::mem::write::guarded(parts[n], k));
                assert(whole[i - 1] == parts[n][k - 1]);
            }
        }
    }
}

// ─── Decoding ───────────────────────────────────────────────────────────────

/// How many instructions are asked for; 20 where nothing is said.
pub open spec fn instruction_count(params: Params) -> usize {
    match params::whole(params, "num_instructions"@) {
        Some(n) => n as usize,
        None => 20,
    }
}

/// The decoding that was asked for came to this.
pub open spec fn disassemble_gave(
    decoded: Result<Seq<disassemble::DecodedView>, disassemble::DisasmErrorView>,
    r: MethodResult,
) -> bool {
    match decoded {
        Err(e) => answer::refuses(r, INTERNAL_ERROR, e.says()),
        Ok(d) => r matches Ok(RpcResult::Instructions(v)) && disassemble::shows_all(v@, d),
    }
}

/// Decoding instructions did this and came to this. More than memory could hold the code of
/// are refused.
pub open spec fn memory_disassemble_ran(
    params: Params,
    events: Seq<MemEvent>,
    r: MethodResult,
) -> bool {
    match (params::process(params), params::address_of(params::param(params, "address"@))) {
        (None, _) => events.len() == 0 && answer::refuses(r, INVALID_PARAMS, "missing 'pid'"@),
        (_, None) => events.len() == 0 && answer::refuses(
            r,
            INVALID_PARAMS,
            "missing or invalid 'address'"@,
        ),
        (Some(pid), Some(address)) => if instruction_count(params) * MAX_INSTRUCTION > usize::MAX {
            events.len() == 0 && answer::refuses(r, INVALID_PARAMS, "too many instructions"@)
        } else {
            exists|d: Result<Seq<disassemble::DecodedView>, disassemble::DisasmErrorView>|
                #[trigger]
                disassemble::decode_ran(
                    events,
                    pid,
                    address,
                    instruction_count(params) as nat,
                    d,
                ) && disassemble_gave(d, r)
        },
    }
}

/// Decodes instructions.
pub fn handle_memory_disassemble<M: MemoryAccess>(mem: &mut M, list: &Vec<(String, Param)>) -> (r:
    MethodResult)
    ensures
        access::follows(*final(mem), *old(mem)),
        memory_disassemble_ran(
            params::param_views(list@),
            access::since(final(mem).trace(), old(mem).trace()),
            r,
        ),
{
    let ghost start = mem.trace();
    assert(access::since(start, start) =~= Seq::empty());
    let pid: u32 = match get_process(list) {
        Some(pid) => pid,
        None => return bad_params("missing 'pid'"),
    };
    let address: u64 = match get_address(list, "address") {
        Some(a) => a,
        None => return bad_params("missing or invalid 'address'"),
    };
    let count: usize = match get_whole(list, "num_instructions") {
        Some(n) => n as usize,
        None => 20,
    };
    if count > usize::MAX / MAX_INSTRUCTION {
        return bad_params("too many instructions");
    }
    let result = disassemble_at(mem, pid, address, count);
    let ghost events = access::since(mem.trace(), start);
    let ghost d = choose|d: Result<Seq<disassemble::DecodedView>, disassemble::DisasmErrorView>|
        #[trigger]
        disassemble::decode_ran(events, pid, address, count as nat, d)
            && disassemble::disassembled(result, d);
    let r = match result {
        Err(e) => failed(e.message()),
        Ok(v) => Ok(RpcResult::Instructions(v)),
    };
    assert(disassemble_gave(d, r));
    r
}

// ─── What is shown ──────────────────────────────────────────────────────────

/// A read asks for 128 bytes where nothing is said, for as many as are asked for up to 4096, and
/// for 4096 where more are.
pub proof fn reads_are_as_long_as_asked(params: Params, n: u64)
    requires
        n <= 0xffff_ffff,
    ensures
        params::whole(params, "length"@) is None ==> read_length(params) == 128,
        params::whole(params, "length"@) == Some(n) && n <= 4096 ==> read_length(params) == n,
        params::whole(params, "length"@) == Some(n) && n > 4096 ==> read_length(params) == 4096,
{
}

/// What a read shows is what memory gave: two digits for each byte, and the first four and the
/// first eight bytes as numbers, lowest byte first, where there are as many.
pub proof fn reads_show_what_memory_gave(
    params: Params,
    events: Seq<MemEvent>,
    m: MemoryJson,
    pid: u32,
    address: u64,
    n: nat,
    buffer: Seq<u8>,
)
    requires
        memory_read_ran(params, events, Ok(RpcResult::Memory(m))),
        params::process(params) == Some(pid),
        params::address_of(params::param(params, "address"@)) == Some(address),
        events[0]->Read_outcome == Ok::<_, Seq<char>>((n, buffer)),
    ensures
        events.len() == 1,
        events[0]->Read_pid == pid,
        events[0]->Read_address == address,
        events[0]->wanted == read_length(params),
        m.address@ == text::address(address),
        m.bytes_read == n,
        m.hex@.len() == 2 * n,
        forall|i: int|
            #![trigger buffer[i]]
            0 <= i < n ==> m.hex@[2 * i] == "0123456789abcdef"@[buffer[i] as int / 16]
                && m.hex@[2 * i + 1] == "0123456789abcdef"@[buffer[i] as int % 16],
        ({
            let low = buffer[0] + 0x100 * buffer[1] + 0x1_0000 * buffer[2] + 0x100_0000 * buffer[3];
            let high = buffer[4] + 0x100 * buffer[5] + 0x1_0000 * buffer[6] + 0x100_0000
                * buffer[7];
            let all = low + 0x1_0000_0000 * high;
            let i = m.interpretations;
            &&& n >= 4 ==> {
                &&& i.uint32 matches Some(v) && v == low
                &&& i.float32 matches Some(v) && v == low
                &&& i.int32 matches Some(v) && v == if low < 0x8000_0000 {
                    low
                } else {
                    low - 0x1_0000_0000
                }
            }
            &&& n < 4 ==> i.uint32 is None && i.float32 is None && i.int32 is None
            &&& n >= 8 ==> {
                &&& i.uint64 matches Some(v) && v == all
                &&& i.float64 matches Some(v) && v.bits == all
                &&& i.int64 matches Some(v) && v == if all < 0x8000_0000_0000_0000 {
                    all
                } else {
                    all - 0x1_0000_0000_0000_0000
                }
            }
            &&& n < 8 ==> i.uint64 is None && i.float64 is None && i.int64 is None
        }),
{
    let data = buffer.take(n as int);
    assert forall|i: int|
        #![trigger buffer[i]]
        0 <= i < n implies m.hex@[2 * i] == "0123456789abcdef"@[buffer[i] as int / 16] && m.hex@[2
        * i + 1] == "0123456789abcdef"@[buffer[i] as int % 16] by {
        hex::runs_have_two_digits_a_byte(data, i);
        assert(data[i] == buffer[i]);
    }
    if n == 0 {
        assert(data =~= Seq::empty());
    } else {
        hex::runs_have_two_digits_a_byte(data, 0);
    }
    if n >= 4 {
        bytes::four_bytes_are_little_endian(data.take(4));
    }
    if n >= 8 {
        bytes::eight_bytes_are_little_endian(data.take(8));
    }
}

/// Every address is accounted for once: one that a thing was done for among those, and one that
/// it failed for among these, with what went wrong.
pub proof fn each_address_is_accounted_for(
    addresses: Seq<u64>,
    results: Seq<Result<(), Seq<char>>>,
)
    requires
        results.len() >= addresses.len(),
    ensures
        done_at(addresses, results).len() + failed_at(addresses, results).len() == addresses.len(),
        forall|i: int|
            0 <= i < addresses.len() ==> match #[trigger] results[i] {
                Ok(()) => done_at(addresses, results).contains(text::address(addresses[i])),
                Err(e) => failed_at(addresses, results).contains(
                    (text::address(addresses[i]), e),
                ),
            },
    decreases addresses.len(),
{
    if addresses.len() > 0 {
        let rest = addresses.drop_last();
        let n = addresses.len() - 1;
        each_address_is_accounted_for(rest, results);
        let (d0, f0) = (done_at(rest, results), failed_at(rest, results));
        let (d1, f1) = (done_at(addresses, results), failed_at(addresses, results));
        assert forall|i: int| 0 <= i < addresses.len() implies match #[trigger] results[i] {
            Ok(()) => d1.contains(text::address(addresses[i])),
            Err(e) => f1.contains((text::address(addresses[i]), e)),
        } by {
            if i < n {
                assert(rest[i] == addresses[i]);
                match results[i] {
                    Ok(()) => {
                        let k = choose|k: int|
                            0 <= k < d0.len() && d0[k] == text::address(rest[i]);
                        assert(d1[k] == d0[k]);
                    },
                    Err(e) => {
                        let k = choose|k: int|
                            0 <= k < f0.len() && f0[k] == (text::address(rest[i]), e);
                        assert(f1[k] == f0[k]);
                    },
                }
            } else {
                match results[i] {
                    Ok(()) => {
                        assert(d1[d0.len() as int] == text::address(addresses[i]));
                    },
                    Err(e) => {
                        assert(f1[f0.len() as int] == (text::address(addresses[i]), e));
                    },
                }
            }
        }
    }
}

/// Doing a thing to more than sixteen candidates is refused, unless it is insisted on.
pub proof fn sixteen_are_the_limit(params: Params, s: SessionView)
    ensures
        too_many(params, s) <==> s.candidates.len() > 16 && params::param(params, "force"@)
            != Some(params::ParamView::Flag(true)),
{
}

/// Twenty instructions are decoded where nothing is said, and as many as are asked for otherwise.
pub proof fn as_many_instructions_as_asked(params: Params, n: u64)
    requires
        n <= 0xffff_ffff,
    ensures
        params::whole(params, "num_instructions"@) is None ==> instruction_count(params) == 20,
        params::whole(params, "num_instructions"@) == Some(n) ==> instruction_count(params) == n,
{
}

/// A write that succeeded wrote the value that was asked for, as its type has it, to the address
/// and the process that were asked for, and wrote nothing else. It asks for all four.
pub proof fn writes_are_as_asked_for(params: Params, events: Seq<MemEvent>, r: MethodResult)
    requires
        memory_write_ran(params, events, r),
    ensures
        r is Ok ==> {
            let address = params::address_of(params::param(params, "address"@));
            let value = params::quantity(params, "value"@);
            let dtype = params::type_of(params::param(params, "dtype"@));
            &&& params::process(params) is Some && address is Some && value is Some && dtype
                is Some
            &&& events.len() == 2
            &&& !(events[0] is Write)
            &&& events[1] is Write
            &&& events[1]->Write_pid == params::process(params)->0
            &&& events[1]->Write_address == address->0
            &&& Some(events[1]->Write_data) == crate::mem::write::encoded(value->0, dtype->0)
        },
        params::type_of(params::param(params, "dtype"@)) == Some(ValueType::Auto) ==> r is Err
            && events.len() == 0,
{
}

} // verus!
