//! The first scan of a process, and the sessions that hold what it found.

use crate::bytes;
use crate::bytes::from_bytes;
use crate::mem::access;
use crate::mem::access::{AccessError, MemEvent, MemoryAccess};
use crate::number;
use crate::number::Double;
use crate::process::maps;
use crate::process::maps::{MapRegion, RegionSafety, RegionView};
use crate::scan::buffer;
use crate::scan::buffer::{scan_buffer_for_pattern, scan_near};
use crate::scan::candidate;
use crate::scan::candidate::{
    encode_value_patterns, Candidate, CandidateView, PatternView, TypeFlags, ValuePattern,
    ValueType,
};
use crate::scan::filter;
use crate::shared;
use crate::shared::new_id;
use dashmap::DashMap;
use vstd::prelude::*;
use vstd::slice::slice_subrange;

verus! {

/// How many bytes are read at a time (4 MB).
pub const DEFAULT_CHUNK_SIZE: usize = 4194304;

// ─── One chunk ──────────────────────────────────────────────────────────────

/// The offsets of a chunk at which a pattern is found: multiples of its size.
pub open spec fn pattern_offsets(chunk: Seq<u8>, p: PatternView) -> Seq<int> {
    if p.epsilon {
        buffer::aligned_near(chunk, filter::low(p.bytes) as u32, p.size)
    } else {
        buffer::aligned_hits(chunk, p.bytes.take(p.size as int), p.size)
    }
}

/// The candidate for a pattern that was found at offset `o` of a chunk, with the bytes that
/// stand there.
pub open spec fn found(chunk: Seq<u8>, address: u64, p: PatternView, o: int) -> CandidateView {
    CandidateView {
        address: (address + o) as u64,
        types: p.flags,
        confidence: 0,
        last_value: filter::padded(chunk.subrange(o, o + p.size)),
    }
}

/// The candidates for one pattern in a chunk, in order of their addresses.
pub open spec fn pattern_finds(chunk: Seq<u8>, address: u64, p: PatternView) -> Seq<CandidateView> {
    let at = pattern_offsets(chunk, p);
    Seq::new(at.len(), |k: int| found(chunk, address, p, at[k]))
}

/// The candidates in a chunk, pattern by pattern.
pub open spec fn chunk_finds(
    chunk: Seq<u8>,
    address: u64,
    patterns: Seq<PatternView>,
) -> Seq<CandidateView>
    decreases patterns.len(),
{
    if patterns.len() == 0 {
        Seq::empty()
    } else {
        chunk_finds(chunk, address, patterns.drop_last()) + pattern_finds(
            chunk,
            address,
            patterns.last(),
        )
    }
}

/// Patterns as a scan takes them: four or eight of eight bytes, four where approximate.
pub open spec fn scannable(patterns: Seq<ValuePattern>) -> bool {
    forall|i: int|
        0 <= i < patterns.len() ==> {
            let p = #[trigger] patterns[i];
            &&& p.2 == 4 || p.2 == 8
            &&& p.3 ==> p.2 == 4
        }
}

fn push_found(
    out: &mut Vec<Candidate>,
    chunk: &[u8],
    address: u64,
    pattern: &ValuePattern,
)
    requires
        pattern.2 == 4 || pattern.2 == 8,
        pattern.3 ==> pattern.2 == 4,
        address + chunk@.len() <= u64::MAX,
    ensures
        candidate::candidate_views(final(out)@) == candidate::candidate_views(old(out)@)
            + pattern_finds(chunk@, address, candidate::pattern_view(*pattern)),
{
    let ghost p = candidate::pattern_view(*pattern);
    let ghost before = candidate::candidate_views(out@);
    let size: usize = pattern.2;
    let hits = if pattern.3 {
        scan_near(chunk, from_bytes(pattern.0.as_slice(), 4) as u32, size)
    } else {
        let wanted = slice_subrange(pattern.0.as_slice(), 0, size);
        assert(wanted@ =~= p.bytes.take(size as int));
        scan_buffer_for_pattern(chunk, wanted, size)
    };
    let ghost finds = pattern_finds(chunk@, address, p);
    assert(finds.len() == hits@.len());
    let mut k: usize = 0;
    assert(before + finds.take(0) =~= before);
    while k < hits.len()
        invariant
            k <= hits@.len(),
            size == p.size,
            size <= 8,
            p == candidate::pattern_view(*pattern),
            buffer::ints(hits@) == pattern_offsets(chunk@, p),
            finds == pattern_finds(chunk@, address, p),
            finds.len() == hits@.len(),
            address + chunk@.len() <= u64::MAX,
            chunk@.len() == chunk.len(),
            forall|j: int| 0 <= j < hits@.len() ==> hits@[j] + size <= chunk@.len(),
            candidate::candidate_views(out@) == before + finds.take(k as int),
        decreases hits@.len() - k,
    {
        let o: usize = hits[k];
        let window = slice_subrange(chunk, o, o + size);
        let mut value: [u8; 8] = [0; 8];
        let mut i: usize = 0;
        while i < size
            invariant
                i <= size <= 8,
                window@.len() == size,
                forall|j: int| 0 <= j < i ==> value@[j] == window@[j],
                forall|j: int| i <= j < 8 ==> value@[j] == 0,
            decreases size - i,
        {
            value[i] = window[i];
            i += 1;
        }
        assert(value@ =~= filter::padded(window@));
        let ghost sofar = candidate::candidate_views(out@);
        let c = Candidate::with_value(address + o as u64, pattern.1, value);
        out.push(c);
        assert(buffer::ints(hits@)[k as int] == o);
        assert(c@ == finds[k as int]);
        assert(candidate::candidate_views(out@) =~= sofar.push(c@));
        assert(before + finds.take(k + 1) =~= (before + finds.take(k as int)).push(
            finds[k as int],
        ));
        k += 1;
    }
    assert(finds.take(hits@.len() as int) =~= finds);
}

/// Adds the candidates in a chunk that was read at `address`.
pub fn scan_chunk(
    out: &mut Vec<Candidate>,
    chunk: &[u8],
    address: u64,
    patterns: &[ValuePattern],
)
    requires
        scannable(patterns@),
        address + chunk@.len() <= u64::MAX,
    ensures
        candidate::candidate_views(final(out)@) == candidate::candidate_views(old(out)@)
            + chunk_finds(chunk@, address, candidate::pattern_views(patterns@)),
{
    let ghost views = candidate::pattern_views(patterns@);
    let ghost before = candidate::candidate_views(out@);
    let mut i: usize = 0;
    assert(before + chunk_finds(chunk@, address, views.take(0)) =~= before);
    while i < patterns.len()
        invariant
            i <= patterns@.len(),
            scannable(patterns@),
            views == candidate::pattern_views(patterns@),
            address + chunk@.len() <= u64::MAX,
            candidate::candidate_views(out@) == before + chunk_finds(
                chunk@,
                address,
                views.take(i as int),
            ),
        decreases patterns@.len() - i,
    {
        proof {
            assert(views.take(i + 1).drop_last() =~= views.take(i as int));
            assert(views.take(i + 1).last() == candidate::pattern_view(patterns@[i as int]));
        }
        push_found(out, chunk, address, &patterns[i]);
        assert(candidate::candidate_views(out@) =~= before + chunk_finds(
            chunk@,
            address,
            views.take(i + 1),
        ));
        i += 1;
    }
    assert(views.take(patterns@.len() as int) =~= views);
}

// ─── One region ─────────────────────────────────────────────────────────────

/// A read that gave all that was wanted.
pub open spec fn full(e: MemEvent) -> bool {
    e->Read_outcome matches Ok((n, buffer)) && n == e->wanted
}

/// How many bytes of a region of `size` bytes are wanted in chunk number `j`.
pub open spec fn chunk_len(size: nat, j: int) -> int {
    if size - j * DEFAULT_CHUNK_SIZE < DEFAULT_CHUNK_SIZE {
        size - j * DEFAULT_CHUNK_SIZE
    } else {
        DEFAULT_CHUNK_SIZE as int
    }
}

/// The region was read chunk by chunk, to its end or to the first read that failed or came
/// short.
pub open spec fn reads_region(events: Seq<MemEvent>, pid: u32, region: RegionView) -> bool {
    let size = region.span();
    &&& forall|j: int|
        0 <= j < events.len() ==> {
            &&& #[trigger] events[j] is Read
            &&& events[j]->Read_pid == pid
            &&& events[j]->Read_address == region.start + j * DEFAULT_CHUNK_SIZE
            &&& events[j]->wanted == chunk_len(size, j)
            &&& access::fills(events[j])
            &&& j * DEFAULT_CHUNK_SIZE < size
        }
    &&& forall|j: int| 0 <= j < events.len() - 1 ==> full(#[trigger] events[j])
    &&& events.len() * DEFAULT_CHUNK_SIZE >= size || (events.len() > 0 && !full(events.last()))
}

/// The candidates in what a read gave.
pub open spec fn read_finds(e: MemEvent, patterns: Seq<PatternView>) -> Seq<CandidateView> {
    match e->Read_outcome {
        Ok((n, buffer)) => chunk_finds(buffer.take(n as int), e->Read_address, patterns),
        Err(_) => Seq::empty(),
    }
}

/// The candidates in what a list of reads gave.
pub open spec fn reads_finds(events: Seq<MemEvent>, patterns: Seq<PatternView>) -> Seq<
    CandidateView,
>
    decreases events.len(),
{
    if events.len() == 0 {
        Seq::empty()
    } else {
        reads_finds(events.drop_last(), patterns) + read_finds(events.last(), patterns)
    }
}

/// Reads a region chunk by chunk and adds the candidates in it. A read that fails, or gives
/// less than was wanted, ends the region.
pub fn scan_region<M: MemoryAccess>(
    mem: &mut M,
    pid: u32,
    region: &MapRegion,
    patterns: &[ValuePattern],
    out: &mut Vec<Candidate>,
)
    requires
        scannable(patterns@),
    ensures
        access::follows(*final(mem), *old(mem)),
        reads_region(access::since(final(mem).trace(), old(mem).trace()), pid, region@),
        candidate::candidate_views(final(out)@) == candidate::candidate_views(old(out)@)
            + reads_finds(
            access::since(final(mem).trace(), old(mem).trace()),
            candidate::pattern_views(patterns@),
        ),
{
    let ghost views = candidate::pattern_views(patterns@);
    let ghost before = mem.trace();
    let ghost sofar = candidate::candidate_views(out@);
    let ghost mut events: Seq<MemEvent> = Seq::empty();
    let size: u64 = if region.start <= region.end { region.end - region.start } else { 0 };
    let mut offset: u64 = 0;
    let mut open = true;
    assert(before + events =~= before);
    assert(sofar + reads_finds(events, views) =~= sofar);
    while open && offset < size
        invariant
            scannable(patterns@),
            views == candidate::pattern_views(patterns@),
            size == region@.span(),
            size > 0 ==> region.start + size <= u64::MAX,
            offset <= size,
            mem.trace() == before + events,
            mem.answers() == old(mem).answers(),
            old(mem).sound() ==> mem.sound(),
            forall|j: int|
                0 <= j < events.len() ==> {
                    &&& #[trigger] events[j] is Read
                    &&& events[j]->Read_pid == pid
                    &&& events[j]->Read_address == region.start + j * DEFAULT_CHUNK_SIZE
                    &&& events[j]->wanted == chunk_len(size as nat, j)
                    &&& access::fills(events[j])
                    &&& j * DEFAULT_CHUNK_SIZE < size
                },
            forall|j: int| 0 <= j < events.len() - 1 ==> full(#[trigger] events[j]),
            open ==> (forall|j: int| 0 <= j < events.len() ==> full(#[trigger] events[j])),
            open ==> offset == events.len() * DEFAULT_CHUNK_SIZE || offset == size,
            open ==> events.len() * DEFAULT_CHUNK_SIZE >= offset,
            !open ==> events.len() > 0 && !full(events.last()),
            candidate::candidate_views(out@) == sofar + reads_finds(events, views),
        decreases (if open { 1int } else { 0int }), size - offset,
    {
        let read_len: usize = if size - offset < DEFAULT_CHUNK_SIZE as u64 {
            (size - offset) as usize
        } else {
            DEFAULT_CHUNK_SIZE
        };
        let address: u64 = region.start + offset;
        let mut buffer: Vec<u8> = vec![0u8; read_len];
        let result = mem.read(pid, address, buffer.as_mut_slice());
        let ghost event = mem.trace().last();
        let ghost earlier = events;
        proof {
            events = events.push(event);
            assert(mem.trace() =~= before + events);
            assert(events.drop_last() =~= earlier);
        }
        match result {
            Err(_) => {
                open = false;
                assert(read_finds(event, views) =~= Seq::empty());
                assert(sofar + reads_finds(events, views) =~= sofar + reads_finds(earlier, views));
            },
            Ok(n) => {
                let chunk = slice_subrange(buffer.as_slice(), 0, n);
                assert(chunk@ =~= buffer@.take(n as int));
                scan_chunk(out, chunk, address, patterns);
                assert(candidate::candidate_views(out@) =~= sofar + reads_finds(events, views));
                if n < read_len {
                    open = false;
                } else {
                    offset += n as u64;
                }
            },
        }
    }
    assert(access::since(mem.trace(), before) =~= events);
}

// ─── Order ──────────────────────────────────────────────────────────────────

/// Two finds at one address make one candidate: it has the types of both, and the bytes of the
/// first one that is eight bytes wide, where one is.
pub open spec fn joined(c: CandidateView, d: CandidateView) -> CandidateView {
    CandidateView {
        address: c.address,
        types: c.types.or(d.types),
        confidence: c.confidence,
        last_value: if d.types.wide() && !c.types.wide() {
            d.last_value
        } else {
            c.last_value
        },
    }
}

/// What all finds at an address make together.
pub open spec fn gathered(finds: Seq<CandidateView>, address: u64) -> Option<CandidateView>
    decreases finds.len(),
{
    if finds.len() == 0 {
        None
    } else {
        let before = gathered(finds.drop_last(), address);
        if finds.last().address != address {
            before
        } else {
            match before {
                None => Some(finds.last()),
                Some(c) => Some(joined(c, finds.last())),
            }
        }
    }
}

/// One candidate for each address that was found, in order of the addresses, with all that was
/// found there.
pub open spec fn one_per_address(result: Seq<CandidateView>, finds: Seq<CandidateView>) -> bool {
    &&& filter::by_address(result)
    &&& forall|k: int|
        0 <= k < result.len() ==> gathered(finds, (#[trigger] result[k]).address) == Some(
            result[k],
        )
    &&& forall|i: int| 0 <= i < finds.len() ==> covers(result, (#[trigger] finds[i]).address)
}

/// One of the candidates is at the address.
pub open spec fn covers(candidates: Seq<CandidateView>, address: u64) -> bool {
    exists|k: int| 0 <= k < candidates.len() && (#[trigger] candidates[k]).address == address
}

/// One of the finds is at the address of the candidate and has its bytes.
pub open spec fn bytes_found(c: CandidateView, finds: Seq<CandidateView>) -> bool {
    exists|i: int|
        0 <= i < finds.len() && (#[trigger] finds[i]).address == c.address && finds[i].last_value
            == c.last_value
}

/// One of the finds is at the address and has one of the types.
pub open spec fn type_found(address: u64, types: TypeFlags, finds: Seq<CandidateView>) -> bool {
    exists|i: int|
        0 <= i < finds.len() && (#[trigger] finds[i]).address == address && finds[i].types.meets(
            types,
        )
}

/// A candidate has the types of all finds at its address and no others, and the bytes of one.
pub proof fn gathered_is_all_that_was_found(finds: Seq<CandidateView>, address: u64)
    ensures
        gathered(finds, address) is None <==> !covers(finds, address),
        gathered(finds, address) matches Some(c) ==> {
            &&& c.address == address
            &&& bytes_found(c, finds)
            &&& forall|i: int|
                0 <= i < finds.len() && (#[trigger] finds[i]).address == address
                    ==> finds[i].types.or(c.types) == c.types
            &&& forall|t: TypeFlags|
                c.types.meets(t) ==> #[trigger] type_found(address, t, finds)
            &&& (forall|i: int| 0 <= i < finds.len() ==> (#[trigger] finds[i]).confidence == 0)
                ==> c.confidence == 0
        },
    decreases finds.len(),
{
    if finds.len() > 0 {
        let rest = finds.drop_last();
        let n = finds.len() - 1;
        gathered_is_all_that_was_found(rest, address);
        if covers(rest, address) {
            let k = choose|k: int| 0 <= k < rest.len() && (#[trigger] rest[k]).address == address;
            assert(finds[k].address == address);
        }
        assert(finds[n].address == address ==> covers(finds, address));
        if covers(finds, address) && finds[n].address != address {
            let k = choose|k: int| 0 <= k < finds.len() && (#[trigger] finds[k]).address == address;
            assert(rest[k].address == address);
        }
        if let Some(c) = gathered(finds, address) {
            if gathered(rest, address) is Some {
                let d = gathered(rest, address)->0;
                let k = choose|k: int|
                    0 <= k < rest.len() && (#[trigger] rest[k]).address == d.address
                        && rest[k].last_value == d.last_value;
                assert(finds[k] == rest[k]);
                assert forall|t: TypeFlags| c.types.meets(t) implies #[trigger] type_found(
                    address,
                    t,
                    finds,
                ) by {
                    if d.types.meets(t) {
                        assert(type_found(address, t, rest));
                        let k = choose|k: int|
                            0 <= k < rest.len() && (#[trigger] rest[k]).address == address
                                && rest[k].types.meets(t);
                        assert(finds[k] == rest[k]);
                    } else {
                        assert(finds[n].types.meets(t));
                    }
                }
                assert forall|i: int|
                    0 <= i < finds.len() && (#[trigger] finds[i]).address
                        == address implies finds[i].types.or(c.types) == c.types by {
                    if i < n {
                        assert(rest[i] == finds[i]);
                    }
                }
                assert forall|i: int|
                    0 <= i < rest.len() && (forall|j: int|
                        0 <= j < finds.len() ==> (#[trigger] finds[j]).confidence
                            == 0) implies (#[trigger] rest[i]).confidence == 0 by {
                    assert(finds[i].confidence == 0);
                }
            } else {
                assert forall|i: int|
                    0 <= i < finds.len() && (#[trigger] finds[i]).address
                        == address implies finds[i].types.or(c.types) == c.types by {
                    if i < n {
                        assert(rest[i].address == address);
                    }
                }
                assert(finds[n] == c);
            }
        }
    }
}

/// Finds elsewhere add nothing.
proof fn lemma_gathered_skips(finds: Seq<CandidateView>, address: u64, m: int, n: int)
    requires
        0 <= m <= n <= finds.len(),
        forall|i: int| m <= i < n ==> (#[trigger] finds[i]).address != address,
    ensures
        gathered(finds.take(n), address) == gathered(finds.take(m), address),
    decreases n - m,
{
    if m < n {
        lemma_gathered_skips(finds, address, m, n - 1);
        assert(finds.take(n).drop_last() =~= finds.take(n - 1));
    }
}

/// Where a candidate stands, and what it is ordered by.
#[derive(Clone, Copy)]
struct Slot {
    address: u64,
    index: usize,
}

spec fn before(a: Slot, b: Slot) -> bool {
    a.address < b.address || (a.address == b.address && a.index < b.index)
}

spec fn ordered(s: Seq<Slot>) -> bool {
    forall|i: int, j: int| 0 <= i < j < s.len() ==> before(#[trigger] s[i], #[trigger] s[j])
}

fn merge(a: &Vec<Slot>, b: &Vec<Slot>) -> (r: Vec<Slot>)
    requires
        ordered(a@),
        ordered(b@),
        forall|k: int, m: int|
            0 <= k < a@.len() && 0 <= m < b@.len() ==> (#[trigger] a@[k]).index != (
            #[trigger] b@[m]).index,
    ensures
        ordered(r@),
        forall|x: Slot| #[trigger] r@.contains(x) <==> a@.contains(x) || b@.contains(x),
{
    let mut r: Vec<Slot> = Vec::new();
    let mut i: usize = 0;
    let mut j: usize = 0;
    while i < a.len() || j < b.len()
        invariant
            i <= a@.len(),
            j <= b@.len(),
            ordered(a@),
            ordered(b@),
            ordered(r@),
            forall|k: int, m: int|
                0 <= k < a@.len() && 0 <= m < b@.len() ==> (#[trigger] a@[k]).index != (
                #[trigger] b@[m]).index,
            forall|k: int, m: int|
                0 <= k < r@.len() && i <= m < a@.len() ==> before(
                    #[trigger] r@[k],
                    #[trigger] a@[m],
                ),
            forall|k: int, m: int|
                0 <= k < r@.len() && j <= m < b@.len() ==> before(
                    #[trigger] r@[k],
                    #[trigger] b@[m],
                ),
            forall|k: int|
                0 <= k < r@.len() ==> a@.contains(#[trigger] r@[k]) || b@.contains(r@[k]),
            forall|k: int| 0 <= k < i ==> r@.contains(#[trigger] a@[k]),
            forall|k: int| 0 <= k < j ==> r@.contains(#[trigger] b@[k]),
        decreases a@.len() - i + b@.len() - j,
    {
        let from_a = if i == a.len() {
            false
        } else if j == b.len() {
            true
        } else {
            a[i].address < b[j].address || (a[i].address == b[j].address && a[i].index
                < b[j].index)
        };
        let ghost sofar = r@;
        if from_a {
            r.push(a[i]);
            i += 1;
        } else {
            r.push(b[j]);
            j += 1;
        }
        proof {
            assert(r@.last() == r@[r@.len() - 1]);
            assert forall|k: int| 0 <= k < i implies r@.contains(#[trigger] a@[k]) by {
                if sofar.contains(a@[k]) {
                    let m = choose|m: int| 0 <= m < sofar.len() && sofar[m] == a@[k];
                    assert(r@[m] == a@[k]);
                } else {
                    assert(r@.last() == a@[k]);
                }
            }
            assert forall|k: int| 0 <= k < j implies r@.contains(#[trigger] b@[k]) by {
                if sofar.contains(b@[k]) {
                    let m = choose|m: int| 0 <= m < sofar.len() && sofar[m] == b@[k];
                    assert(r@[m] == b@[k]);
                } else {
                    assert(r@.last() == b@[k]);
                }
            }
        }
    }
    proof {
        assert forall|x: Slot| #[trigger] r@.contains(x) implies a@.contains(x) || b@.contains(
            x,
        ) by {
            let k = choose|k: int| 0 <= k < r@.len() && r@[k] == x;
            assert(a@.contains(r@[k]) || b@.contains(r@[k]));
        }
        assert forall|x: Slot| a@.contains(x) || b@.contains(x) implies #[trigger] r@.contains(
            x,
        ) by {
            if a@.contains(x) {
                let k = choose|k: int| 0 <= k < a@.len() && a@[k] == x;
                assert(r@.contains(a@[k]));
            } else {
                let k = choose|k: int| 0 <= k < b@.len() && b@[k] == x;
                assert(r@.contains(b@[k]));
            }
        }
    }
    r
}

/// The slots of the candidates from `from` up to `to`, in order.
fn sorted_slots(candidates: &Vec<Candidate>, from: usize, to: usize) -> (r: Vec<Slot>)
    requires
        from <= to <= candidates@.len(),
    ensures
        ordered(r@),
        forall|x: Slot| #[trigger]
            r@.contains(x) <==> from <= x.index < to && candidates@[x.index as int].address
                == x.address,
    decreases to - from,
{
    if to - from == 0 {
        let r: Vec<Slot> = Vec::new();
        r
    } else if to - from == 1 {
        let slot = Slot { address: candidates[from].address, index: from };
        let r: Vec<Slot> = vec![slot];
        assert(r@[0] == slot);
        assert forall|x: Slot| from <= x.index < to && candidates@[x.index as int].address
            == x.address implies #[trigger] r@.contains(x) by {
            assert(x == slot);
        }
        r
    } else {
        let middle: usize = from + (to - from) / 2;
        let a = sorted_slots(candidates, from, middle);
        let b = sorted_slots(candidates, middle, to);
        proof {
            assert forall|k: int, m: int| 0 <= k < a@.len() && 0 <= m < b@.len() implies (
            #[trigger] a@[k]).index != (#[trigger] b@[m]).index by {
                assert(a@.contains(a@[k]));
                assert(b@.contains(b@[m]));
            }
        }
        merge(&a, &b)
    }
}

fn join(c: &Candidate, d: &Candidate) -> (r: Candidate)
    ensures
        r@ == joined(c@, d@),
{
    let wide = (d.types.int64 || d.types.uint64 || d.types.float64) && !(c.types.int64
        || c.types.uint64 || c.types.float64);
    Candidate {
        address: c.address,
        types: c.types.union(d.types),
        confidence: c.confidence,
        last_value: if wide {
            d.last_value
        } else {
            c.last_value
        },
    }
}

/// The index of no find at the slot's address lies between two neighbouring slots, nor before
/// the first slot of an address, nor behind the last.
proof fn lemma_no_slot_between(
    slots: Seq<Slot>,
    finds: Seq<CandidateView>,
    i: int,
    address: u64,
    n: int,
)
    requires
        ordered(slots),
        0 <= i <= slots.len(),
        0 <= n < finds.len() <= usize::MAX,
        forall|x: Slot| #[trigger]
            slots.contains(x) <==> 0 <= x.index < finds.len() && finds[x.index as int].address
                == x.address,
        i > 0 && slots[i - 1].address == address ==> slots[i - 1].index < n,
        i > 0 ==> slots[i - 1].address <= address,
        i < slots.len() ==> slots[i].address > address || (slots[i].address == address && n
            < slots[i].index),
    ensures
        finds[n].address != address,
{
    if finds[n].address == address {
        let slot = Slot { address, index: n as usize };
        assert(slots.contains(slot));
        let k = choose|k: int| 0 <= k < slots.len() && slots[k] == slot;
        if k < i - 1 {
            assert(before(slots[k], slots[i - 1]));
        } else if k > i {
            assert(before(slots[i], slots[k]));
        }
    }
}

/// Sorts candidates by address and makes one of those at the same address.
pub fn sort_and_dedup(candidates: &Vec<Candidate>) -> (r: Vec<Candidate>)
    ensures
        one_per_address(
            candidate::candidate_views(r@),
            candidate::candidate_views(candidates@),
        ),
{
    let slots = sorted_slots(candidates, 0, candidates.len());
    let ghost finds = candidate::candidate_views(candidates@);
    let mut r: Vec<Candidate> = Vec::new();
    let mut i: usize = 0;
    proof {
        assert forall|x: Slot| #[trigger]
            slots@.contains(x) <==> 0 <= x.index < finds.len() && finds[x.index as int].address
                == x.address by {
            if 0 <= x.index < finds.len() {
                assert(finds[x.index as int] == candidates@[x.index as int]@);
            }
        }
    }
    while i < slots.len()
        invariant
            i <= slots@.len(),
            ordered(slots@),
            finds == candidate::candidate_views(candidates@),
            finds.len() <= usize::MAX,
            forall|x: Slot| #[trigger]
                slots@.contains(x) <==> 0 <= x.index < finds.len()
                    && finds[x.index as int].address == x.address,
            r@.len() == 0 <==> i == 0,
            r@.len() > 0 ==> r@.last().address == slots@[i - 1].address,
            r@.len() > 0 ==> gathered(
                finds.take(slots@[i - 1].index + 1),
                slots@[i - 1].address,
            ) == Some(r@.last()@),
            forall|j: int, k: int| 0 <= j < k < r@.len() ==> r@[j].address < r@[k].address,
            forall|k: int|
                0 <= k < r@.len() - 1 ==> gathered(finds, (#[trigger] r@[k]).address) == Some(
                    r@[k]@,
                ),
            forall|j: int|
                0 <= j < i ==> covers(
                    candidate::candidate_views(r@),
                    (#[trigger] slots@[j]).address,
                ),
        decreases slots@.len() - i,
    {
        let slot = slots[i];
        let ghost sofar = r@;
        let ghost n = slot.index as int;
        proof {
            assert(slots@.contains(slots@[i as int]));
            assert(finds[n] == candidates@[n]@);
            assert(finds.take(n + 1).drop_last() =~= finds.take(n));
            assert(finds.take(n + 1).last() == finds[n]);
            if i > 0 {
                assert(before(slots@[i - 1], slots@[i as int]));
                assert(slots@.contains(slots@[i - 1]));
            }
        }
        let c = candidates[slot.index];
        if i > 0 && slots[i - 1].address == slot.address {
            let ghost m = slots@[i - 1].index as int;
            proof {
                assert forall|k: int| m + 1 <= k < n implies (#[trigger] finds[k]).address
                    != slot.address by {
                    lemma_no_slot_between(slots@, finds, i as int, slot.address, k);
                }
                lemma_gathered_skips(finds, slot.address, m + 1, n);
            }
            let last: usize = r.len() - 1;
            let d = r[last];
            let both = join(&d, &c);
            r.set(last, both);
            assert(r@[last as int] == both);
        } else {
            proof {
                assert forall|k: int| 0 <= k < n implies (#[trigger] finds[k]).address
                    != slot.address by {
                    lemma_no_slot_between(slots@, finds, i as int, slot.address, k);
                }
                lemma_gathered_skips(finds, slot.address, 0, n);
                assert(finds.take(0) =~= Seq::empty());
                if i > 0 {
                    let a = slots@[i - 1].address;
                    let m = slots@[i - 1].index as int;
                    assert forall|k: int| m + 1 <= k < finds.len() implies (
                    #[trigger] finds[k]).address != a by {
                        lemma_no_slot_between(slots@, finds, i as int, a, k);
                    }
                    lemma_gathered_skips(finds, a, m + 1, finds.len() as int);
                    assert(finds.take(finds.len() as int) =~= finds);
                }
            }
            r.push(c);
            assert(r@[r@.len() - 1] == c);
        }
        proof {
            let (old_views, views) = (
                candidate::candidate_views(sofar),
                candidate::candidate_views(r@),
            );
            assert forall|j: int| 0 <= j < i + 1 implies covers(
                views,
                (#[trigger] slots@[j]).address,
            ) by {
                if j < i {
                    let k = choose|k: int|
                        0 <= k < old_views.len() && (#[trigger] old_views[k]).address
                            == slots@[j].address;
                    assert(views[k].address == old_views[k].address);
                } else {
                    assert(views[r@.len() - 1].address == slots@[j].address);
                }
            }
        }
        i += 1;
    }
    proof {
        let result = candidate::candidate_views(r@);
        if i > 0 {
            let a = slots@[i - 1].address;
            let m = slots@[i - 1].index as int;
            assert(slots@.contains(slots@[i - 1]));
            assert forall|k: int| m + 1 <= k < finds.len() implies (#[trigger] finds[k]).address
                != a by {
                lemma_no_slot_between(slots@, finds, i as int, a, k);
            }
            lemma_gathered_skips(finds, a, m + 1, finds.len() as int);
            assert(finds.take(finds.len() as int) =~= finds);
        }
        assert forall|k: int| 0 <= k < result.len() implies gathered(
            finds,
            (#[trigger] result[k]).address,
        ) == Some(result[k]) by {
            assert(result[k] == r@[k]@);
        }
        assert forall|j: int, k: int| 0 <= j < k < result.len() implies result[j].address
            < result[k].address by {
            assert(r@[j].address < r@[k].address);
        }
        assert forall|n: int| 0 <= n < finds.len() implies covers(
            result,
            (#[trigger] finds[n]).address,
        ) by {
            let slot = Slot { address: finds[n].address, index: n as usize };
            assert(slots@.contains(slot));
            let j = choose|j: int| 0 <= j < slots@.len() && slots@[j] == slot;
            assert(covers(result, slots@[j].address));
        }
        assert(one_per_address(result, finds));
    }
    r
}

// ─── Sessions ───────────────────────────────────────────────────────────────

/// What a scan found, and how far it has been narrowed down.
#[derive(Debug)]
pub struct ScanSession {
    /// Identifier.
    pub id: String,
    /// Target process.
    pub pid: u32,
    /// Candidates, in order of their addresses.
    pub candidates: Vec<Candidate>,
    /// The value that was scanned for.
    pub value: Double,
    /// The type that was scanned for.
    pub dtype: ValueType,
}

/// A [`ScanSession`] as a mathematical value.
pub struct SessionView {
    /// Identifier.
    pub id: Seq<char>,
    /// Target process.
    pub pid: u32,
    /// Candidates, in order of their addresses.
    pub candidates: Seq<CandidateView>,
    /// The value that was scanned for.
    pub value: Double,
    /// The type that was scanned for.
    pub dtype: ValueType,
}

impl View for ScanSession {
    type V = SessionView;

    open spec fn view(&self) -> SessionView {
        SessionView {
            id: self.id@,
            pid: self.pid,
            candidates: candidate::candidate_views(self.candidates@),
            value: self.value,
            dtype: self.dtype,
        }
    }
}

/// A session in a list of sessions.
#[derive(Debug)]
pub struct SessionSummary {
    /// Identifier.
    pub id: String,
    /// Target process.
    pub pid: u32,
    /// Number of candidates.
    pub candidates: usize,
    /// The value that was scanned for.
    pub value: Double,
    /// The type that was scanned for.
    pub dtype: ValueType,
}

impl SessionSummary {
    /// This sums up the session with identifier `id`.
    pub open spec fn sums_up(self, id: Seq<char>, s: SessionView) -> bool {
        &&& self.id@ == id
        &&& self.pid == s.pid
        &&& self.candidates == s.candidates.len()
        &&& self.value == s.value
        &&& self.dtype == s.dtype
    }
}

/// Each entry of the map is summed up once; in which order is left open.
pub open spec fn lists_sessions(
    list: Seq<SessionSummary>,
    sessions: Map<Seq<char>, SessionView>,
) -> bool {
    &&& forall|i: int|
        0 <= i < list.len() ==> {
            &&& sessions.contains_key((#[trigger] list[i]).id@)
            &&& list[i].sums_up(list[i].id@, sessions[list[i].id@])
        }
    &&& forall|i: int, j: int|
        0 <= i < j < list.len() ==> (#[trigger] list[i]).id@ != (#[trigger] list[j]).id@
    &&& forall|id: Seq<char>| #[trigger]
        sessions.contains_key(id) ==> exists|i: int|
            0 <= i < list.len() && (#[trigger] list[i]).id@ == id
}

/// The sessions that a map holds, by identifier.
pub uninterp spec fn sessions_in(map: DashMap<String, ScanSession>) -> Map<Seq<char>, SessionView>;

/// `DashMap::new` gives a map without entries.
#[verifier::external_body]
fn new_sessions() -> (r: DashMap<String, ScanSession>)
    ensures
        sessions_in(r).dom() == Set::<Seq<char>>::empty(),
{
    DashMap::new()
}

/// `DashMap::insert` puts the value under the key and replaces one that was there.
#[verifier::external_body]
fn put_session(map: &mut DashMap<String, ScanSession>, id: String, session: ScanSession)
    ensures
        sessions_in(*final(map)) == sessions_in(*old(map)).insert(id@, session@),
{
    map.insert(id, session);
}

/// `DashMap::remove` takes out the value under the key, where there is one.
#[verifier::external_body]
fn take_session(map: &mut DashMap<String, ScanSession>, id: &str) -> (r: Option<ScanSession>)
    ensures
        sessions_in(*final(map)) == sessions_in(*old(map)).remove(id@),
        match r {
            Some(s) => sessions_in(*old(map)).contains_key(id@) && s@ == sessions_in(
                *old(map),
            )[id@],
            None => !sessions_in(*old(map)).contains_key(id@),
        },
{
    map.remove(id).map(|entry| entry.1)
}

/// `DashMap::get` looks up the value under the key; its candidates are counted.
#[verifier::external_body]
fn count_candidates(map: &DashMap<String, ScanSession>, id: &str) -> (r: Option<usize>)
    ensures
        match r {
            Some(n) => sessions_in(*map).contains_key(id@) && n == sessions_in(
                *map,
            )[id@].candidates.len(),
            None => !sessions_in(*map).contains_key(id@),
        },
{
    map.get(id).map(|s| s.candidates.len())
}

/// `DashMap::iter` visits every entry once; each is summed up.
#[verifier::external_body]
fn sum_up_sessions(map: &DashMap<String, ScanSession>) -> (r: Vec<SessionSummary>)
    ensures
        lists_sessions(r@, sessions_in(*map)),
{
    map.iter()
        .map(|e| SessionSummary {
            id: e.key().clone(),
            pid: e.value().pid,
            candidates: e.value().candidates.len(),
            value: e.value().value,
            dtype: e.value().dtype,
        })
        .collect()
}

/// `f` was given the session under `id`, returned `x`, and what it made of the session is
/// there now.
pub open spec fn handed_over<F, R>(
    f: F,
    x: R,
    id: Seq<char>,
    before: Map<Seq<char>, SessionView>,
    after: Map<Seq<char>, SessionView>,
) -> bool where F: FnOnce(ScanSession) -> (ScanSession, R) {
    exists|given: ScanSession, made: ScanSession|
        {
            &&& #[trigger] call_ensures(f, (given,), (made, x))
            &&& given@ == before[id]
            &&& after == before.insert(id, made@)
        }
}

/// The open sessions, by identifier.
pub struct SessionRegistry {
    sessions: DashMap<String, ScanSession>,
}

impl View for SessionRegistry {
    type V = Map<Seq<char>, SessionView>;

    closed spec fn view(&self) -> Map<Seq<char>, SessionView> {
        sessions_in(self.sessions)
    }
}

impl SessionRegistry {
    /// No sessions.
    #[must_use]
    pub fn new() -> (r: SessionRegistry)
        ensures
            r@ == Map::<Seq<char>, SessionView>::empty(),
    {
        let r = SessionRegistry { sessions: new_sessions() };
        assert(r@ =~= Map::<Seq<char>, SessionView>::empty());
        r
    }

    /// Adds a session under its identifier.
    pub fn insert(&mut self, session: ScanSession)
        ensures
            final(self)@ == old(self)@.insert(session@.id, session@),
    {
        let id = session.id.clone();
        put_session(&mut self.sessions, id, session);
    }

    /// How many candidates a session has.
    pub fn get_candidate_count(&self, session_id: &str) -> (r: Option<usize>)
        ensures
            match r {
                Some(n) => self@.contains_key(session_id@) && n
                    == self@[session_id@].candidates.len(),
                None => !self@.contains_key(session_id@),
            },
    {
        count_candidates(&self.sessions, session_id)
    }

    /// Takes a session out.
    pub fn remove(&mut self, session_id: &str) -> (r: Option<ScanSession>)
        ensures
            final(self)@ == old(self)@.remove(session_id@),
            match r {
                Some(s) => old(self)@.contains_key(session_id@) && s@ == old(self)@[session_id@],
                None => !old(self)@.contains_key(session_id@),
            },
    {
        take_session(&mut self.sessions, session_id)
    }

    /// Puts a session back under the identifier that it was taken from.
    pub fn put_back(&mut self, session_id: &str, session: ScanSession)
        ensures
            final(self)@ == old(self)@.insert(session_id@, session@),
    {
        put_session(&mut self.sessions, session_id.to_string(), session);
    }

    /// Hands a session to `f` and keeps what `f` makes of it.
    pub fn with_session<F, R>(&mut self, session_id: &str, f: F) -> (r: Option<R>) where
        F: FnOnce(ScanSession) -> (ScanSession, R),

        requires
            forall|s: ScanSession| call_requires(f, (s,)),
        ensures
            match r {
                None => !old(self)@.contains_key(session_id@) && final(self)@ == old(self)@,
                Some(x) => old(self)@.contains_key(session_id@) && handed_over(
                    f,
                    x,
                    session_id@,
                    old(self)@,
                    final(self)@,
                ),
            },
    {
        match self.remove(session_id) {
            None => {
                assert(self@ =~= old(self)@);
                None
            },
            Some(before) => {
                let (after, r) = f(before);
                assert(call_ensures(f, (before,), (after, r)));
                self.put_back(session_id, after);
                assert(self@ =~= old(self)@.insert(session_id@, after@));
                assert(handed_over(f, r, session_id@, old(self)@, self@));
                Some(r)
            },
        }
    }

    /// A summary of every session.
    pub fn list(&self) -> (r: Vec<SessionSummary>)
        ensures
            lists_sessions(r@, self@),
    {
        sum_up_sessions(&self.sessions)
    }
}

impl Default for SessionRegistry {
    fn default() -> (r: SessionRegistry)
        ensures
            r@ == Map::<Seq<char>, SessionView>::empty(),
    {
        SessionRegistry::new()
    }
}

/// A session that was added is found again under its identifier, and no other is touched.
pub proof fn inserted_session_is_found(
    before: Map<Seq<char>, SessionView>,
    session: SessionView,
    other: Seq<char>,
)
    ensures
        before.insert(session.id, session).contains_key(session.id),
        before.insert(session.id, session)[session.id] == session,
        other != session.id ==> before.insert(session.id, session).contains_key(other)
            == before.contains_key(other),
        other != session.id && before.contains_key(other) ==> before.insert(
            session.id,
            session,
        )[other] == before[other],
{
}

// ─── First scan ─────────────────────────────────────────────────────────────

/// The regions that a value scan reads: the safe ones that can be read.
pub open spec fn scan_targets(regions: Seq<RegionView>) -> Seq<RegionView> {
    regions.filter(|r: RegionView| r.safety == RegionSafety::Safe && r.permissions.read)
}

/// The patterns that a scan for a value of a type looks for.
pub open spec fn scan_patterns(value: Double, dtype: ValueType) -> Seq<PatternView> {
    candidate::value_patterns(value).filter(|p: PatternView| p.flags.meets(dtype.flag()))
}

/// The lists one after the other.
pub open spec fn chained<T>(parts: Seq<Seq<T>>) -> Seq<T>
    decreases parts.len(),
{
    if parts.len() == 0 {
        Seq::empty()
    } else {
        chained(parts.drop_last()) + parts.last()
    }
}

/// The regions were read one after the other; `parts` are the reads of each.
pub open spec fn reads_regions(
    parts: Seq<Seq<MemEvent>>,
    pid: u32,
    targets: Seq<RegionView>,
) -> bool {
    &&& parts.len() == targets.len()
    &&& forall|i: int| 0 <= i < parts.len() ==> reads_region(#[trigger] parts[i], pid, targets[i])
}

/// A scan of the regions gave these candidates, in the order in which they were found.
pub open spec fn scanned(
    events: Seq<MemEvent>,
    pid: u32,
    targets: Seq<RegionView>,
    patterns: Seq<PatternView>,
    finds: Seq<CandidateView>,
) -> bool {
    exists|parts: Seq<Seq<MemEvent>>| #[trigger]
        reads_regions(parts, pid, targets) && events == chained(parts) && finds == reads_finds(
            events,
            patterns,
        )
}

/// What a first scan did and found. It read the memory map; where that succeeded, it read
/// each safe region in turn, and the session holds one candidate for each address found.
pub open spec fn first_scan_ran(
    events: Seq<MemEvent>,
    pid: u32,
    value: Double,
    dtype: ValueType,
    result: Result<SessionView, Seq<char>>,
) -> bool {
    &&& events.len() > 0
    &&& events[0] is Maps
    &&& events[0]->Maps_pid == pid
    &&& match events[0]->Maps_outcome {
        Err(e) => events.len() == 1 && result == Err::<SessionView, _>(e),
        Ok(regions) => {
            &&& result matches Ok(session)
            &&& shared::is_id(session.id)
            &&& session.pid == pid
            &&& session.value == value
            &&& session.dtype == dtype
            &&& scan_gave(
                events.skip(1),
                pid,
                scan_targets(regions),
                scan_patterns(value, dtype),
                session.candidates,
            )
        },
    }
}

/// A scan of the regions gave these candidates, sorted and one for each address.
pub open spec fn scan_gave(
    events: Seq<MemEvent>,
    pid: u32,
    targets: Seq<RegionView>,
    patterns: Seq<PatternView>,
    candidates: Seq<CandidateView>,
) -> bool {
    exists|finds: Seq<CandidateView>| #[trigger]
        scanned(events, pid, targets, patterns, finds) && one_per_address(candidates, finds)
}

/// What a first scan came to.
pub open spec fn session_outcome(r: Result<ScanSession, AccessError>) -> Result<
    SessionView,
    Seq<char>,
> {
    match r {
        Ok(s) => Ok(s@),
        Err(e) => Err(e@),
    }
}

proof fn lemma_reads_finds_adds(a: Seq<MemEvent>, b: Seq<MemEvent>, patterns: Seq<PatternView>)
    ensures
        reads_finds(a + b, patterns) == reads_finds(a, patterns) + reads_finds(b, patterns),
    decreases b.len(),
{
    if b.len() == 0 {
        assert(a + b =~= a);
        assert(reads_finds(a, patterns) + reads_finds(b, patterns) =~= reads_finds(a, patterns));
    } else {
        lemma_reads_finds_adds(a, b.drop_last(), patterns);
        assert((a + b).drop_last() =~= a + b.drop_last());
        assert((a + b).last() == b.last());
        assert(reads_finds(a + b, patterns) =~= reads_finds(a, patterns) + reads_finds(
            b,
            patterns,
        ));
    }
}

fn choose_patterns(value: Double, dtype: ValueType) -> (r: Vec<ValuePattern>)
    ensures
        candidate::pattern_views(r@) == scan_patterns(value, dtype),
        scannable(r@),
{
    let all = encode_value_patterns(value);
    let flag = dtype.to_flag();
    let ghost views = candidate::pattern_views(all@);
    let ghost good = |p: PatternView| p.flags.meets(flag);
    let mut r: Vec<ValuePattern> = Vec::new();
    let mut i: usize = 0;
    proof {
        candidate::pattern_sizes(value);
        assert(views.take(0).filter(good) =~= Seq::empty()) by {
            reveal(Seq::filter);
        }
        assert(candidate::pattern_views(r@) =~= Seq::empty());
    }
    while i < all.len()
        invariant
            i <= all@.len(),
            views == candidate::pattern_views(all@),
            good == (|p: PatternView| p.flags.meets(flag)),
            scannable(r@),
            forall|k: int|
                0 <= k < views.len() ==> {
                    let p = #[trigger] views[k];
                    &&& p.size == 4 || p.size == 8
                    &&& p.epsilon ==> p.size == 4
                },
            candidate::pattern_views(r@) == views.take(i as int).filter(good),
        decreases all@.len() - i,
    {
        let p = all[i];
        let ghost before = candidate::pattern_views(r@);
        assert(views[i as int] == candidate::pattern_view(p));
        proof {
            assert(views.take(i + 1) =~= views.take(i as int).push(views[i as int]));
            lemma_filter_push(views.take(i as int), views[i as int], good);
        }
        if p.1.intersects(flag) {
            r.push(p);
            assert(candidate::pattern_views(r@) =~= before.push(candidate::pattern_view(p)));
        }
        i += 1;
    }
    assert(views.take(all@.len() as int) =~= views);
    r
}

/// Filtering one more element.
pub proof fn lemma_filter_push<A>(s: Seq<A>, x: A, good: spec_fn(A) -> bool)
    ensures
        s.push(x).filter(good) == if good(x) {
            s.filter(good).push(x)
        } else {
            s.filter(good)
        },
{
    reveal(Seq::filter);
    assert(s.push(x).drop_last() =~= s);
}

/// What holds of every event of each list holds of every event of all of them.
pub proof fn lemma_chained_all(parts: Seq<Seq<MemEvent>>, good: spec_fn(MemEvent) -> bool)
    requires
        forall|i: int, j: int|
            0 <= i < parts.len() && 0 <= j < parts[i].len() ==> good(#[trigger] parts[i][j]),
    ensures
        forall|k: int| 0 <= k < chained(parts).len() ==> good(#[trigger] chained(parts)[k]),
    decreases parts.len(),
{
    if parts.len() > 0 {
        let rest = parts.drop_last();
        let n = parts.len() - 1;
        assert forall|i: int, j: int| 0 <= i < rest.len() && 0 <= j < rest[i].len() implies good(
            #[trigger] rest[i][j],
        ) by {
            assert(rest[i][j] == parts[i][j]);
        }
        lemma_chained_all(rest, good);
        assert forall|k: int| 0 <= k < chained(parts).len() implies good(
            #[trigger] chained(parts)[k],
        ) by {
            let m = chained(rest).len();
            if k < m {
                assert(chained(parts)[k] == chained(rest)[k]);
            } else {
                assert(chained(parts)[k] == parts[n][k - m]);
            }
        }
    }
}

/// A read that stays inside a region of a list.
pub open spec fn inside(e: MemEvent, regions: Seq<RegionView>) -> bool {
    e is Read && exists|i: int|
        0 <= i < regions.len() && (#[trigger] regions[i]).start <= e->Read_address
            && e->Read_address + e->wanted <= regions[i].end
}

/// Reading regions chunk by chunk stays inside them.
pub proof fn region_reads_stay_inside(
    parts: Seq<Seq<MemEvent>>,
    pid: u32,
    targets: Seq<RegionView>,
)
    requires
        reads_regions(parts, pid, targets),
    ensures
        forall|k: int|
            0 <= k < chained(parts).len() ==> inside(#[trigger] chained(parts)[k], targets),
{
    let good = |e: MemEvent| inside(e, targets);
    assert forall|i: int, j: int| 0 <= i < parts.len() && 0 <= j < parts[i].len() implies good(
        #[trigger] parts[i][j],
    ) by {
        let e = parts[i][j];
        assert(reads_region(parts[i], pid, targets[i]));
        assert(targets[i].start <= e->Read_address && e->Read_address + e->wanted
            <= targets[i].end);
    }
    lemma_chained_all(parts, good);
    assert forall|k: int| 0 <= k < chained(parts).len() implies inside(
        #[trigger] chained(parts)[k],
        targets,
    ) by {
        assert(good(chained(parts)[k]));
    }
}

/// A first scan touches nothing but safe regions: after the memory map was read, it only reads,
/// and each read stays inside a region that the map shows as safe.
pub proof fn scans_stay_in_safe_regions(
    events: Seq<MemEvent>,
    pid: u32,
    value: Double,
    dtype: ValueType,
    result: Result<SessionView, Seq<char>>,
    regions: Seq<RegionView>,
)
    requires
        first_scan_ran(events, pid, value, dtype, result),
        events[0]->Maps_outcome == Ok::<_, Seq<char>>(regions),
    ensures
        forall|k: int| 1 <= k < events.len() ==> inside(#[trigger] events[k], scan_targets(regions)),
        forall|i: int|
            0 <= i < scan_targets(regions).len() ==> (#[trigger] scan_targets(regions)[i]).safety
                == RegionSafety::Safe,
{
    let rest = events.skip(1);
    let finds = choose|finds: Seq<CandidateView>| #[trigger]
        scanned(rest, pid, scan_targets(regions), scan_patterns(value, dtype), finds);
    let parts = choose|parts: Seq<Seq<MemEvent>>| #[trigger]
        reads_regions(parts, pid, scan_targets(regions)) && rest == chained(parts) && finds
            == reads_finds(rest, scan_patterns(value, dtype));
    region_reads_stay_inside(parts, pid, scan_targets(regions));
    assert forall|k: int| 1 <= k < events.len() implies inside(
        #[trigger] events[k],
        scan_targets(regions),
    ) by {
        assert(rest[k - 1] == events[k]);
    }
    let good = |r: RegionView| r.safety == RegionSafety::Safe && r.permissions.read;
    lemma_filter_all(regions, good);
}

/// What a filter keeps meets its condition.
pub proof fn lemma_filter_all<A>(s: Seq<A>, good: spec_fn(A) -> bool)
    ensures
        forall|i: int| 0 <= i < s.filter(good).len() ==> good(#[trigger] s.filter(good)[i]),
    decreases s.len(),
{
    reveal(Seq::filter);
    if s.len() > 0 {
        lemma_filter_all(s.drop_last(), good);
    }
}

/// The pattern is found at offset `o` of a chunk: at a multiple of its size stand its bytes or,
/// for one that is matched approximately, a number near it.
pub open spec fn matched(chunk: Seq<u8>, p: PatternView, o: int) -> bool {
    &&& 0 <= o
    &&& o % p.size as int == 0
    &&& if p.epsilon {
        buffer::near_at(chunk, filter::low(p.bytes) as u32, o)
    } else {
        buffer::stands_at(chunk, p.bytes.take(p.size as int), o)
    }
}

/// The candidate was found in a chunk that was read at `address`: one of the patterns stands
/// there.
pub open spec fn found_among(
    c: CandidateView,
    chunk: Seq<u8>,
    address: u64,
    patterns: Seq<PatternView>,
) -> bool {
    exists|i: int, o: int|
        0 <= i < patterns.len() && #[trigger] matched(chunk, patterns[i], o) && c == found(
            chunk,
            address,
            patterns[i],
            o,
        )
}

/// The candidate was found in what the read gave.
pub open spec fn found_in(c: CandidateView, e: MemEvent, patterns: Seq<PatternView>) -> bool {
    e is Read && match e->Read_outcome {
        Ok((n, buffer)) => found_among(c, buffer.take(n as int), e->Read_address, patterns),
        Err(_) => false,
    }
}

proof fn lemma_offsets_match(chunk: Seq<u8>, p: PatternView)
    ensures
        forall|o: int|
            #![trigger matched(chunk, p, o)]
            matched(chunk, p, o) ==> pattern_offsets(chunk, p).contains(o),
        forall|k: int|
            0 <= k < pattern_offsets(chunk, p).len() ==> matched(
                chunk,
                p,
                #[trigger] pattern_offsets(chunk, p)[k],
            ),
{
    if p.epsilon {
        let target = filter::low(p.bytes) as u32;
        let good = |o: int| o % p.size as int == 0 && buffer::near_at(chunk, target, o);
        buffer::offsets_are_exact(good, chunk.len() + 1);
        assert forall|o: int| #![trigger matched(chunk, p, o)] matched(chunk, p, o) implies
            pattern_offsets(chunk, p).contains(o) by {
            assert(good(o));
        }
        assert forall|k: int| 0 <= k < pattern_offsets(chunk, p).len() implies matched(
            chunk,
            p,
            #[trigger] pattern_offsets(chunk, p)[k],
        ) by {
            assert(good(pattern_offsets(chunk, p)[k]));
        }
    } else {
        let bytes = p.bytes.take(p.size as int);
        let good = |o: int| o % p.size as int == 0 && buffer::stands_at(chunk, bytes, o);
        buffer::offsets_are_exact(good, chunk.len() + 1);
        assert forall|o: int| #![trigger matched(chunk, p, o)] matched(chunk, p, o) implies
            pattern_offsets(chunk, p).contains(o) by {
            assert(good(o));
        }
        assert forall|k: int| 0 <= k < pattern_offsets(chunk, p).len() implies matched(
            chunk,
            p,
            #[trigger] pattern_offsets(chunk, p)[k],
        ) by {
            assert(good(pattern_offsets(chunk, p)[k]));
        }
    }
}

proof fn lemma_chunk_finds(chunk: Seq<u8>, address: u64, patterns: Seq<PatternView>)
    ensures
        forall|c: CandidateView| #[trigger]
            found_among(c, chunk, address, patterns) ==> chunk_finds(
                chunk,
                address,
                patterns,
            ).contains(c),
        forall|k: int|
            0 <= k < chunk_finds(chunk, address, patterns).len() ==> found_among(
                #[trigger] chunk_finds(chunk, address, patterns)[k],
                chunk,
                address,
                patterns,
            ),
    decreases patterns.len(),
{
    if patterns.len() > 0 {
        let rest = patterns.drop_last();
        let p = patterns.last();
        let n = patterns.len() - 1;
        let all = chunk_finds(chunk, address, patterns);
        let before = chunk_finds(chunk, address, rest);
        let new = pattern_finds(chunk, address, p);
        let at = pattern_offsets(chunk, p);
        lemma_chunk_finds(chunk, address, rest);
        lemma_offsets_match(chunk, p);
        assert forall|c: CandidateView| #[trigger]
            found_among(c, chunk, address, patterns) implies all.contains(c) by {
            let (i, o) = choose|i: int, o: int|
                0 <= i < patterns.len() && #[trigger] matched(chunk, patterns[i], o) && c
                    == found(chunk, address, patterns[i], o);
            if i < n {
                assert(matched(chunk, rest[i], o));
                assert(found_among(c, chunk, address, rest));
                let k = choose|k: int| 0 <= k < before.len() && before[k] == c;
                assert(all[k] == c);
            } else {
                let k = choose|k: int| 0 <= k < at.len() && at[k] == o;
                assert(new[k] == c);
                assert(all[before.len() + k] == c);
            }
        }
        assert forall|k: int| 0 <= k < all.len() implies found_among(
            #[trigger] all[k],
            chunk,
            address,
            patterns,
        ) by {
            if k < before.len() {
                assert(all[k] == before[k]);
                let (i, o) = choose|i: int, o: int|
                    0 <= i < rest.len() && #[trigger] matched(chunk, rest[i], o) && before[k]
                        == found(chunk, address, rest[i], o);
                assert(matched(chunk, patterns[i], o));
            } else {
                let o = at[k - before.len()];
                assert(all[k] == new[k - before.len()]);
                assert(matched(chunk, patterns[n], o));
            }
        }
    }
}

/// The candidate was found in one of the reads.
pub open spec fn found_in_one(
    c: CandidateView,
    events: Seq<MemEvent>,
    patterns: Seq<PatternView>,
) -> bool {
    exists|k: int| 0 <= k < events.len() && found_in(c, #[trigger] events[k], patterns)
}

proof fn lemma_reads_finds(events: Seq<MemEvent>, patterns: Seq<PatternView>)
    requires
        forall|k: int| 0 <= k < events.len() ==> #[trigger] events[k] is Read,
    ensures
        forall|k: int, c: CandidateView|
            0 <= k < events.len() && #[trigger] found_in(c, events[k], patterns) ==> reads_finds(
                events,
                patterns,
            ).contains(c),
        forall|j: int|
            0 <= j < reads_finds(events, patterns).len() ==> found_in_one(
                #[trigger] reads_finds(events, patterns)[j],
                events,
                patterns,
            ),
    decreases events.len(),
{
    if events.len() > 0 {
        let rest = events.drop_last();
        let e = events.last();
        let n = events.len() - 1;
        let all = reads_finds(events, patterns);
        let before = reads_finds(rest, patterns);
        let new = read_finds(e, patterns);
        assert forall|k: int| 0 <= k < rest.len() implies #[trigger] rest[k] is Read by {
            assert(events[k] is Read);
        }
        lemma_reads_finds(rest, patterns);
        if let Ok((count, bytes)) = e->Read_outcome {
            lemma_chunk_finds(bytes.take(count as int), e->Read_address, patterns);
        }
        assert forall|k: int, c: CandidateView|
            0 <= k < events.len() && #[trigger] found_in(
                c,
                events[k],
                patterns,
            ) implies all.contains(c) by {
            if k < n {
                assert(found_in(c, rest[k], patterns));
                let j = choose|j: int| 0 <= j < before.len() && before[j] == c;
                assert(all[j] == c);
            } else {
                assert(new.contains(c));
                let j = choose|j: int| 0 <= j < new.len() && new[j] == c;
                assert(all[before.len() + j] == c);
            }
        }
        assert forall|j: int| 0 <= j < all.len() implies found_in_one(
            #[trigger] all[j],
            events,
            patterns,
        ) by {
            if j < before.len() {
                assert(all[j] == before[j]);
                let k = choose|k: int|
                    0 <= k < rest.len() && found_in(before[j], #[trigger] rest[k], patterns);
                assert(found_in(all[j], events[k], patterns));
            } else {
                assert(all[j] == new[j - before.len()]);
                assert(events[n] is Read);
                assert(found_in(all[j], events[n], patterns));
            }
        }
    }
}

/// A find of one of the reads is at the candidate's address and has its bytes.
pub open spec fn bytes_read(
    c: CandidateView,
    events: Seq<MemEvent>,
    patterns: Seq<PatternView>,
) -> bool {
    exists|f: CandidateView| #[trigger]
        found_in_one(f, events, patterns) && f.address == c.address && f.last_value == c.last_value
}

/// A find of one of the reads is at the address and has one of the types.
pub open spec fn type_read(
    address: u64,
    types: TypeFlags,
    events: Seq<MemEvent>,
    patterns: Seq<PatternView>,
) -> bool {
    exists|f: CandidateView| #[trigger]
        found_in_one(f, events, patterns) && f.address == address && f.types.meets(types)
}

/// One of the candidates has the address and the types of the find.
pub open spec fn taken_in(f: CandidateView, candidates: Seq<CandidateView>) -> bool {
    exists|k: int|
        0 <= k < candidates.len() && (#[trigger] candidates[k]).address == f.address
            && f.types.or(candidates[k].types) == candidates[k].types
}

/// A scan misses nothing and makes nothing up: where a pattern of the value stands in what was
/// read, a candidate has that address and the types of the pattern; and each candidate has
/// the bytes that were read at its address, only types whose pattern stands there, and has
/// been confirmed by no filter pass yet.
pub proof fn scans_find_every_match(
    events: Seq<MemEvent>,
    pid: u32,
    value: Double,
    dtype: ValueType,
    session: SessionView,
)
    requires
        first_scan_ran(events, pid, value, dtype, Ok(session)),
    ensures
        forall|k: int, f: CandidateView|
            1 <= k < events.len() && #[trigger] found_in(
                f,
                events[k],
                scan_patterns(value, dtype),
            ) ==> taken_in(f, session.candidates),
        forall|j: int|
            0 <= j < session.candidates.len() ==> {
                &&& bytes_read(
                    #[trigger] session.candidates[j],
                    events.skip(1),
                    scan_patterns(value, dtype),
                )
                &&& session.candidates[j].confidence == 0
            },
        forall|j: int, t: TypeFlags|
            0 <= j < session.candidates.len() && session.candidates[j].types.meets(t)
                ==> #[trigger] type_read(
                session.candidates[j].address,
                t,
                events.skip(1),
                scan_patterns(value, dtype),
            ),
        filter::by_address(session.candidates),
{
    let patterns = scan_patterns(value, dtype);
    let regions = events[0]->Maps_outcome->Ok_0;
    let rest = events.skip(1);
    scans_stay_in_safe_regions(events, pid, value, dtype, Ok(session), regions);
    let finds = choose|finds: Seq<CandidateView>| #[trigger]
        scanned(rest, pid, scan_targets(regions), patterns, finds) && one_per_address(
            session.candidates,
            finds,
        );
    assert forall|k: int| 0 <= k < rest.len() implies #[trigger] rest[k] is Read by {
        assert(inside(events[k + 1], scan_targets(regions)));
    }
    lemma_reads_finds(rest, patterns);
    assert forall|k: int, f: CandidateView|
        1 <= k < events.len() && #[trigger] found_in(f, events[k], patterns) implies taken_in(
        f,
        session.candidates,
    ) by {
        assert(found_in(f, rest[k - 1], patterns));
        let i = choose|i: int| 0 <= i < finds.len() && finds[i] == f;
        assert(covers(session.candidates, finds[i].address));
        let j = choose|j: int|
            0 <= j < session.candidates.len() && (#[trigger] session.candidates[j]).address
                == f.address;
        gathered_is_all_that_was_found(finds, f.address);
        assert(gathered(finds, session.candidates[j].address) == Some(session.candidates[j]));
    }
    assert forall|i: int| 0 <= i < finds.len() implies (#[trigger] finds[i]).confidence == 0 by {
        assert(found_in_one(finds[i], rest, patterns));
    }
    assert forall|j: int| 0 <= j < session.candidates.len() implies {
        &&& bytes_read(#[trigger] session.candidates[j], rest, patterns)
        &&& session.candidates[j].confidence == 0
    } by {
        let c = session.candidates[j];
        gathered_is_all_that_was_found(finds, c.address);
        assert(bytes_found(c, finds));
        let i = choose|i: int|
            0 <= i < finds.len() && (#[trigger] finds[i]).address == c.address
                && finds[i].last_value == c.last_value;
        assert(found_in_one(finds[i], rest, patterns));
    }
    assert forall|j: int, t: TypeFlags|
        0 <= j < session.candidates.len() && session.candidates[j].types.meets(
            t,
        ) implies #[trigger] type_read(session.candidates[j].address, t, rest, patterns) by {
        let c = session.candidates[j];
        gathered_is_all_that_was_found(finds, c.address);
        assert(type_found(c.address, t, finds));
        let i = choose|i: int|
            0 <= i < finds.len() && (#[trigger] finds[i]).address == c.address
                && finds[i].types.meets(t);
        assert(found_in_one(finds[i], rest, patterns));
    }
}

/// A scan without a given type looks for every pattern of the value, so it finds whatever a
/// scan for one type finds.
pub proof fn auto_looks_for_every_type(value: Double, dtype: ValueType)
    ensures
        scan_patterns(value, ValueType::Auto) == candidate::value_patterns(value),
        forall|i: int|
            0 <= i < scan_patterns(value, dtype).len() ==> scan_patterns(
                value,
                ValueType::Auto,
            ).contains(#[trigger] scan_patterns(value, dtype)[i]),
{
    let all = candidate::value_patterns(value);
    let good = |p: PatternView| p.flags.meets(ValueType::Auto.flag());
    assert forall|i: int| 0 <= i < all.len() implies good(#[trigger] all[i]) by {}
    lemma_filter_keeps_all(all, good);
    lemma_filter_from(all, |p: PatternView| p.flags.meets(dtype.flag()));
}

proof fn lemma_filter_keeps_all<A>(s: Seq<A>, good: spec_fn(A) -> bool)
    requires
        forall|i: int| 0 <= i < s.len() ==> good(#[trigger] s[i]),
    ensures
        s.filter(good) == s,
    decreases s.len(),
{
    reveal(Seq::filter);
    if s.len() > 0 {
        let rest = s.drop_last();
        assert forall|i: int| 0 <= i < rest.len() implies good(#[trigger] rest[i]) by {
            assert(good(s[i]));
        }
        lemma_filter_keeps_all(rest, good);
        assert(rest.push(s.last()) =~= s);
    }
}

/// What a filter keeps was there before.
pub proof fn lemma_filter_from<A>(s: Seq<A>, good: spec_fn(A) -> bool)
    ensures
        forall|i: int| 0 <= i < s.filter(good).len() ==> s.contains(#[trigger] s.filter(good)[i]),
    decreases s.len(),
{
    reveal(Seq::filter);
    if s.len() > 0 {
        let rest = s.drop_last();
        lemma_filter_from(rest, good);
        assert forall|i: int| 0 <= i < s.filter(good).len() implies s.contains(
            #[trigger] s.filter(good)[i],
        ) by {
            if i < rest.filter(good).len() {
                assert(s.filter(good)[i] == rest.filter(good)[i]);
                let k = choose|k: int| 0 <= k < rest.len() && rest[k] == rest.filter(good)[i];
                assert(s[k] == s.filter(good)[i]);
            } else {
                assert(s[s.len() - 1] == s.filter(good)[i]);
            }
        }
    }
}

/// Scans the safe regions of a process for a value and opens a session with what was found.
pub fn first_scan<M: MemoryAccess>(
    mem: &mut M,
    pid: u32,
    value: Double,
    dtype: ValueType,
) -> (r: Result<ScanSession, AccessError>)
    ensures
        access::follows(*final(mem), *old(mem)),
        first_scan_ran(
            access::since(final(mem).trace(), old(mem).trace()),
            pid,
            value,
            dtype,
            session_outcome(r),
        ),
{
    let ghost start = mem.trace();
    let result = mem.read_maps(pid);
    let ghost maps_event = mem.trace().last();
    let regions = match result {
        Ok(regions) => regions,
        Err(e) => {
            assert(access::since(mem.trace(), start) =~= seq![maps_event]);
            return Err(e);
        },
    };
    let patterns = choose_patterns(value, dtype);
    let ghost views = scan_patterns(value, dtype);
    let ghost all = maps::region_views(regions@);
    let ghost good = |r: RegionView| r.safety == RegionSafety::Safe && r.permissions.read;
    let ghost before = mem.trace();
    let ghost mut events: Seq<MemEvent> = Seq::empty();
    let ghost mut parts: Seq<Seq<MemEvent>> = Seq::empty();
    let mut finds: Vec<Candidate> = Vec::new();
    let mut i: usize = 0;
    proof {
        assert(all.take(0).filter(good) =~= Seq::empty()) by {
            reveal(Seq::filter);
        }
        assert(before + events =~= before);
        assert(candidate::candidate_views(finds@) =~= reads_finds(events, views));
    }
    while i < regions.len()
        invariant
            i <= regions@.len(),
            all == maps::region_views(regions@),
            good == (|r: RegionView| r.safety == RegionSafety::Safe && r.permissions.read),
            scannable(patterns@),
            views == candidate::pattern_views(patterns@),
            mem.trace() == before + events,
            mem.answers() == old(mem).answers(),
            old(mem).sound() ==> mem.sound(),
            events == chained(parts),
            reads_regions(parts, pid, all.take(i as int).filter(good)),
            candidate::candidate_views(finds@) == reads_finds(events, views),
        decreases regions@.len() - i,
    {
        let region = &regions[i];
        proof {
            assert(all.take(i + 1) =~= all.take(i as int).push(all[i as int]));
            assert(all[i as int] == region@);
            lemma_filter_push(all.take(i as int), all[i as int], good);
        }
        if region.safety == RegionSafety::Safe && region.permissions.read {
            let ghost middle = mem.trace();
            let ghost sofar = candidate::candidate_views(finds@);
            scan_region(mem, pid, region, patterns.as_slice(), &mut finds);
            proof {
                let new = access::since(mem.trace(), middle);
                let earlier = parts;
                access::trace_splits(mem.trace(), middle);
                lemma_reads_finds_adds(events, new, views);
                assert((before + events) + new =~= before + (events + new));
                events = events + new;
                parts = parts.push(new);
                assert(parts.drop_last() =~= earlier);
            }
        }
        i += 1;
    }
    let candidates = sort_and_dedup(&finds);
    let session = ScanSession { id: new_id(), pid, candidates, value, dtype };
    let r: Result<ScanSession, AccessError> = Ok(session);
    proof {
        assert(all.take(regions@.len() as int) =~= all);
        let since = access::since(mem.trace(), start);
        assert(before =~= start + seq![maps_event]);
        assert(mem.trace() =~= start + (seq![maps_event] + events));
        access::trace_grows(start, seq![maps_event] + events);
        assert(since.skip(1) =~= events);
        assert(reads_regions(parts, pid, scan_targets(all)));
        assert(scanned(
            since.skip(1),
            pid,
            scan_targets(all),
            views,
            candidate::candidate_views(finds@),
        ));
        assert(scan_gave(
            since.skip(1),
            pid,
            scan_targets(all),
            views,
            candidate::candidate_views(candidates@),
        ));
    }
    r
}

// ─── Scans by value ─────────────────────────────────────────────────────────

/// The bytes at offset `o` are the value in the type. They stand at a multiple of its width. A
/// single-precision number counts where the value comes close to one, and then need only be
/// near; a double-precision one counts where its bits are not those of the value as an integer.
pub open spec fn reads_as(data: Seq<u8>, o: int, t: ValueType, value: Double) -> bool {
    let four = bytes::le_value(data.subrange(o, o + 4));
    let eight = bytes::le_value(data.subrange(o, o + 8));
    match t {
        ValueType::I32 => {
            &&& 0 <= o && o % 4 == 0 && o + 4 <= data.len()
            &&& value.whole()
            &&& value.truncated() == if four < 0x8000_0000 {
                four as int
            } else {
                four - 0x1_0000_0000
            }
        },
        ValueType::U32 => {
            &&& 0 <= o && o % 4 == 0 && o + 4 <= data.len()
            &&& value.whole()
            &&& value.truncated() == four
        },
        ValueType::F32 => {
            &&& 0 <= o && o % 4 == 0 && o + 4 <= data.len()
            &&& value.close_to_single()
            &&& number::near_32(four as u32, value.single() as u32)
        },
        ValueType::I64 => {
            &&& 0 <= o && o % 8 == 0 && o + 8 <= data.len()
            &&& value.whole()
            &&& value.truncated() == if eight < 0x8000_0000_0000_0000 {
                eight as int
            } else {
                eight - 0x1_0000_0000_0000_0000
            }
        },
        ValueType::U64 => {
            &&& 0 <= o && o % 8 == 0 && o + 8 <= data.len()
            &&& value.whole()
            &&& value.truncated() == eight
        },
        ValueType::F64 => {
            &&& 0 <= o && o % 8 == 0 && o + 8 <= data.len()
            &&& value.bits == eight
            &&& !(value.whole() && (value.truncated() == value.bits || value.truncated() < 0
                && value.truncated() + 0x1_0000_0000_0000_0000 == value.bits))
        },
        ValueType::Auto => false,
    }
}

/// One of the reads gave the value in the type at the address.
pub open spec fn value_read(
    events: Seq<MemEvent>,
    address: u64,
    t: ValueType,
    value: Double,
) -> bool {
    exists|k: int, o: int| #[trigger] value_read_at(events, k, o, address, t, value)
}

/// Read number `k` gave the value in the type at offset `o`, which is the address.
pub open spec fn value_read_at(
    events: Seq<MemEvent>,
    k: int,
    o: int,
    address: u64,
    t: ValueType,
    value: Double,
) -> bool {
    &&& 0 <= k < events.len()
    &&& events[k] is Read
    &&& events[k]->Read_outcome matches Ok((n, buffer))
    &&& reads_as(buffer.take(n as int), o, t, value)
    &&& address == (events[k]->Read_address + o) as u64
}

/// One of the candidates has the address and the type.
pub open spec fn has_candidate(
    candidates: Seq<CandidateView>,
    address: u64,
    t: ValueType,
) -> bool {
    exists|j: int|
        0 <= j < candidates.len() && (#[trigger] candidates[j]).address == address
            && candidates[j].types.meets(t.flag())
}

/// A pattern of the value stands at an offset exactly where the bytes there are the value in the
/// pattern's types.
proof fn lemma_match_reads_as(chunk: Seq<u8>, value: Double, i: int, o: int, t: ValueType)
    requires
        0 <= i < candidate::value_patterns(value).len(),
        t != ValueType::Auto,
        candidate::value_patterns(value)[i].flags.meets(t.flag()),
    ensures
        matched(chunk, candidate::value_patterns(value)[i], o) <==> reads_as(chunk, o, t, value),
{
    let p = candidate::value_patterns(value)[i];
    candidate::patterns_read_back(value);
    candidate::pattern_sizes(value);
    vstd::arithmetic::power2::lemma2_to64();
    vstd::arithmetic::power2::lemma2_to64_rest();
    bytes::le_value_bound(p.bytes.take(4));
    bytes::le_value_bound(p.bytes.take(8));
    let n = p.size as int;
    if t == ValueType::F64 {
        candidate::double_stands_apart(value, i);
    }
    if 0 <= o && o + n <= chunk.len() {
        let there = chunk.subrange(o, o + n);
        bytes::le_value_bound(there);
        if bytes::le_value(there) == bytes::le_value(p.bytes.take(n)) {
            bytes::le_value_round_trip(there);
            bytes::le_value_round_trip(p.bytes.take(n));
            assert(there == p.bytes.take(n));
        }
    }
}

proof fn lemma_type_has_pattern(chunk: Seq<u8>, value: Double, o: int, t: ValueType) -> (i: int)
    requires
        reads_as(chunk, o, t, value),
    ensures
        0 <= i < candidate::value_patterns(value).len(),
        candidate::value_patterns(value)[i].flags.meets(t.flag()),
{
    let patterns = candidate::value_patterns(value);
    candidate::types_that_hold_a_number_have_its_pattern(value);
    vstd::arithmetic::power2::lemma2_to64();
    vstd::arithmetic::power2::lemma2_to64_rest();
    bytes::le_value_bound(chunk.subrange(o, o + 4));
    if t == ValueType::F64 {
        candidate::double_has_its_pattern(value)
    } else {
        if o + 8 <= chunk.len() {
            bytes::le_value_bound(chunk.subrange(o, o + 8));
        }
        assert(candidate::stands_for(patterns, t));
        choose|i: int| 0 <= i < patterns.len() && (#[trigger] patterns[i]).flags.meets(t.flag())
    }
}

/// A scan for a value in a type, or in any, has a candidate of the type at every address where
/// what was read is the value in that type; and it has a candidate of a type nowhere else.
pub proof fn scans_find_the_value(
    events: Seq<MemEvent>,
    pid: u32,
    value: Double,
    dtype: ValueType,
    session: SessionView,
    t: ValueType,
    address: u64,
)
    requires
        first_scan_ran(events, pid, value, dtype, Ok(session)),
        t != ValueType::Auto,
    ensures
        (dtype == t || dtype == ValueType::Auto) && value_read(events, address, t, value)
            ==> has_candidate(session.candidates, address, t),
        has_candidate(session.candidates, address, t) ==> value_read(events, address, t, value),
{
    let patterns = scan_patterns(value, dtype);
    let all = candidate::value_patterns(value);
    let rest = events.skip(1);
    let good = |p: PatternView| p.flags.meets(dtype.flag());
    scans_find_every_match(events, pid, value, dtype, session);
    if (dtype == t || dtype == ValueType::Auto) && value_read(events, address, t, value) {
        let (k, o) = choose|k: int, o: int| #[trigger]
            value_read_at(events, k, o, address, t, value);
        let (n, buffer) = events[k]->Read_outcome->Ok_0;
        let chunk = buffer.take(n as int);
        let i = lemma_type_has_pattern(chunk, value, o, t);
        let p = all[i];
        lemma_match_reads_as(chunk, value, i, o, t);
        assert(good(p));
        lemma_filter_has(all, good, i);
        let m = choose|m: int| 0 <= m < patterns.len() && patterns[m] == p;
        assert(matched(chunk, patterns[m], o));
        let f = found(chunk, events[k]->Read_address, p, o);
        assert(found_among(f, chunk, events[k]->Read_address, patterns));
        assert(k >= 1);
        assert(found_in(f, events[k], patterns));
        assert(taken_in(f, session.candidates));
        let j = choose|j: int|
            0 <= j < session.candidates.len() && (#[trigger] session.candidates[j]).address
                == f.address && f.types.or(session.candidates[j].types)
                == session.candidates[j].types;
        assert(session.candidates[j].types.meets(t.flag()));
    }
    if has_candidate(session.candidates, address, t) {
        let j = choose|j: int|
            0 <= j < session.candidates.len() && (#[trigger] session.candidates[j]).address
                == address && session.candidates[j].types.meets(t.flag());
        assert(type_read(address, t.flag(), rest, patterns));
        let f = choose|f: CandidateView| #[trigger]
            found_in_one(f, rest, patterns) && f.address == address && f.types.meets(t.flag());
        let k = choose|k: int| 0 <= k < rest.len() && found_in(f, #[trigger] rest[k], patterns);
        let (n, buffer) = rest[k]->Read_outcome->Ok_0;
        let chunk = buffer.take(n as int);
        let (m, o) = choose|m: int, o: int|
            0 <= m < patterns.len() && #[trigger] matched(chunk, patterns[m], o) && f == found(
                chunk,
                rest[k]->Read_address,
                patterns[m],
                o,
            );
        lemma_filter_from(all, good);
        assert(all.contains(patterns[m]));
        let i = choose|i: int| 0 <= i < all.len() && all[i] == patterns[m];
        lemma_match_reads_as(chunk, value, i, o, t);
        assert(events[k + 1] == rest[k]);
        assert(value_read_at(events, k + 1, o, address, t, value));
    }
}

/// What meets its condition is kept by a filter.
pub proof fn lemma_filter_has<A>(s: Seq<A>, good: spec_fn(A) -> bool, i: int)
    requires
        0 <= i < s.len(),
        good(s[i]),
    ensures
        s.filter(good).contains(s[i]),
    decreases s.len(),
{
    reveal(Seq::filter);
    let rest = s.drop_last();
    let kept = rest.filter(good);
    if i < rest.len() {
        lemma_filter_has(rest, good, i);
        let k = choose|k: int| 0 <= k < kept.len() && kept[k] == s[i];
        assert(s.filter(good)[k] == s[i]);
    } else {
        assert(s.filter(good)[kept.len() as int] == s[i]);
    }
}

/// Every byte of a region is read, where each read of the region gives all that it is for.
proof fn lemma_region_is_covered(
    events: Seq<MemEvent>,
    pid: u32,
    region: RegionView,
    address: int,
) -> (j: int)
    requires
        reads_region(events, pid, region),
        forall|j: int| 0 <= j < events.len() ==> full(#[trigger] events[j]),
        region.start <= address < region.end,
    ensures
        0 <= j < events.len(),
        events[j]->Read_pid == pid,
        events[j]->Read_address <= address < events[j]->Read_address + events[j]->wanted,
        (events[j]->Read_address - region.start) % 8 == 0,
{
    let at = address - region.start;
    let j = at / DEFAULT_CHUNK_SIZE as int;
    assert(events.len() * DEFAULT_CHUNK_SIZE >= region.span());
    assert(j < events.len()) by (nonlinear_arith)
        requires
            j == at / 4194304,
            at < events.len() * 4194304,
    ;
    assert(j * DEFAULT_CHUNK_SIZE <= at < j * DEFAULT_CHUNK_SIZE + DEFAULT_CHUNK_SIZE);
    assert(events[j] is Read);
    j
}

/// A scan leaves out no byte of a safe region that can be read: where every read gives all that
/// it is for, some read is for the byte.
pub proof fn scans_read_all_of_the_safe_regions(
    events: Seq<MemEvent>,
    pid: u32,
    value: Double,
    dtype: ValueType,
    result: Result<SessionView, Seq<char>>,
    regions: Seq<RegionView>,
    i: int,
    address: int,
)
    requires
        first_scan_ran(events, pid, value, dtype, result),
        events[0]->Maps_outcome == Ok::<_, Seq<char>>(regions),
        forall|k: int|
            1 <= k < events.len() ==> ((#[trigger] events[k])->Read_outcome matches Ok((n, buffer))
                && n == events[k]->wanted),
        0 <= i < regions.len(),
        regions[i].safety == RegionSafety::Safe,
        regions[i].permissions.read,
        regions[i].start <= address < regions[i].end,
    ensures
        exists|k: int|
            {
                &&& 1 <= k < events.len()
                &&& #[trigger] events[k] is Read
                &&& events[k]->Read_pid == pid
                &&& events[k]->Read_address <= address < events[k]->Read_address
                    + events[k]->wanted
                &&& (events[k]->Read_address - regions[i].start) % 8 == 0
            },
{
    let rest = events.skip(1);
    let targets = scan_targets(regions);
    let patterns = scan_patterns(value, dtype);
    let finds = choose|finds: Seq<CandidateView>| #[trigger]
        scanned(rest, pid, targets, patterns, finds);
    let parts = choose|parts: Seq<Seq<MemEvent>>| #[trigger]
        reads_regions(parts, pid, targets) && rest == chained(parts) && finds == reads_finds(
            rest,
            patterns,
        );
    lemma_filter_has(
        regions,
        |r: RegionView| r.safety == RegionSafety::Safe && r.permissions.read,
        i,
    );
    let t = choose|t: int| 0 <= t < targets.len() && targets[t] == regions[i];
    assert(reads_region(parts[t], pid, targets[t]));
    assert forall|j: int| 0 <= j < parts[t].len() implies full(#[trigger] parts[t][j]) by {
        let k = lemma_chained_has(parts, t, j);
        assert(events[k + 1] == rest[k]);
        assert(parts[t][j] is Read);
    }
    let j = lemma_region_is_covered(parts[t], pid, regions[i], address);
    let k = lemma_chained_has(parts, t, j);
    assert(events[k + 1] == rest[k]);
    assert(parts[t][j] is Read);
}

/// Every item of a part stands in the chain of the parts.
pub proof fn lemma_chained_has<T>(parts: Seq<Seq<T>>, t: int, j: int) -> (k: int)
    requires
        0 <= t < parts.len(),
        0 <= j < parts[t].len(),
    ensures
        0 <= k < chained(parts).len(),
        chained(parts)[k] == parts[t][j],
    decreases parts.len(),
{
    let rest = parts.drop_last();
    if t < rest.len() {
        let k = lemma_chained_has(rest, t, j);
        assert(chained(parts)[k] == chained(rest)[k]);
        k
    } else {
        let k = chained(rest).len() + j;
        assert(chained(parts)[k] == parts[t][j]);
        k
    }
}

/// What a candidate remembers is what was read at its address: eight bytes where one of its
/// types has eight, and otherwise four bytes or eight, followed by zeros.
pub open spec fn remembers(c: CandidateView, e: MemEvent, o: int, width: int) -> bool {
    &&& e is Read
    &&& e->Read_outcome matches Ok((n, buffer))
    &&& 0 <= o && o + width <= buffer.take(n as int).len()
    &&& c.address == (e->Read_address + o) as u64
    &&& width == 8 || (width == 4 && !c.types.int64 && !c.types.uint64 && !c.types.float64)
    &&& c.last_value.len() == 8
    &&& forall|i: int|
        0 <= i < 8 ==> #[trigger] c.last_value[i] == if i < width {
            buffer.take(n as int)[o + i]
        } else {
            0
        }
}

proof fn lemma_gathered_bytes(finds: Seq<CandidateView>, address: u64) -> (i: int)
    requires
        gathered(finds, address) is Some,
    ensures
        0 <= i < finds.len(),
        finds[i].address == address,
        finds[i].last_value == gathered(finds, address)->0.last_value,
        gathered(finds, address)->0.types.wide() ==> finds[i].types.wide(),
        gathered(finds, address)->0.address == address,
    decreases finds.len(),
{
    let rest = finds.drop_last();
    let n = finds.len() - 1;
    if finds.last().address != address {
        lemma_gathered_bytes(rest, address)
    } else if gathered(rest, address) is None {
        n
    } else {
        let i = lemma_gathered_bytes(rest, address);
        let c = gathered(rest, address)->0;
        if finds.last().types.wide() && !c.types.wide() {
            n
        } else {
            i
        }
    }
}

/// Every candidate of a first scan remembers what was read at its address, and no filter pass
/// has confirmed it yet.
pub proof fn scans_remember_what_was_read(
    events: Seq<MemEvent>,
    pid: u32,
    value: Double,
    dtype: ValueType,
    session: SessionView,
    j: int,
)
    requires
        first_scan_ran(events, pid, value, dtype, Ok(session)),
        0 <= j < session.candidates.len(),
    ensures
        exists|k: int, o: int, width: int|
            0 <= k < events.len() && #[trigger] remembers(
                session.candidates[j],
                events[k],
                o,
                width,
            ),
        session.candidates[j].confidence == 0,
{
    let patterns = scan_patterns(value, dtype);
    let regions = events[0]->Maps_outcome->Ok_0;
    let all = candidate::value_patterns(value);
    let rest = events.skip(1);
    scans_find_every_match(events, pid, value, dtype, session);
    scans_stay_in_safe_regions(events, pid, value, dtype, Ok(session), regions);
    let finds = choose|finds: Seq<CandidateView>| #[trigger]
        scanned(rest, pid, scan_targets(regions), patterns, finds) && one_per_address(
            session.candidates,
            finds,
        );
    assert forall|k: int| 0 <= k < rest.len() implies #[trigger] rest[k] is Read by {
        assert(inside(events[k + 1], scan_targets(regions)));
    }
    lemma_reads_finds(rest, patterns);
    let c = session.candidates[j];
    assert(gathered(finds, c.address) == Some(c));
    let i = lemma_gathered_bytes(finds, c.address);
    let f = finds[i];
    assert(found_in_one(f, rest, patterns));
    let k = choose|k: int| 0 <= k < rest.len() && found_in(f, #[trigger] rest[k], patterns);
    let (n, buffer) = rest[k]->Read_outcome->Ok_0;
    let chunk = buffer.take(n as int);
    let (m, o) = choose|m: int, o: int|
        0 <= m < patterns.len() && #[trigger] matched(chunk, patterns[m], o) && f == found(
            chunk,
            rest[k]->Read_address,
            patterns[m],
            o,
        );
    let p = patterns[m];
    lemma_filter_from(all, |p: PatternView| p.flags.meets(dtype.flag()));
    assert(all.contains(p));
    let a = choose|a: int| 0 <= a < all.len() && all[a] == p;
    candidate::patterns_read_back(value);
    candidate::pattern_sizes(value);
    assert(p == all[a]);
    assert(p.size == 4 || p.size == 8);
    assert(events[k + 1] == rest[k]);
    assert forall|b: int| 0 <= b < 8 implies #[trigger] c.last_value[b] == if b < p.size {
        chunk[o + b]
    } else {
        0
    } by {
        if b < p.size {
            assert(chunk.subrange(o, o + p.size)[b] == chunk[o + b]);
        }
    }
    assert(remembers(c, events[k + 1], o, p.size as int));
}

/// A scan that cannot read the memory map opens no session and says what went wrong; every other
/// scan opens one, for the process, value and type that it was asked for.
pub proof fn scans_open_a_session_for_what_was_asked(
    events: Seq<MemEvent>,
    pid: u32,
    value: Double,
    dtype: ValueType,
    result: Result<SessionView, Seq<char>>,
)
    requires
        first_scan_ran(events, pid, value, dtype, result),
    ensures
        events[0] is Maps && events[0]->Maps_pid == pid,
        match events[0]->Maps_outcome {
            Err(e) => result == Err::<SessionView, _>(e) && events.len() == 1,
            Ok(_) => result matches Ok(session) && session.pid == pid && session.value == value
                && session.dtype == dtype,
        },
{
}

/// Each session is listed once, with its process, what was scanned for, and how many candidates
/// are left.
pub proof fn sessions_are_listed_with_what_they_are(
    list: Seq<SessionSummary>,
    sessions: Map<Seq<char>, SessionView>,
    id: Seq<char>,
) -> (i: int)
    requires
        lists_sessions(list, sessions),
        sessions.contains_key(id),
    ensures
        0 <= i < list.len(),
        list[i].id@ == id,
        list[i].pid == sessions[id].pid,
        list[i].candidates == sessions[id].candidates.len(),
        list[i].value == sessions[id].value,
        list[i].dtype == sessions[id].dtype,
        forall|j: int| 0 <= j < list.len() && j != i ==> (#[trigger] list[j]).id@ != id,
{
    let i = choose|i: int| 0 <= i < list.len() && (#[trigger] list[i]).id@ == id;
    assert forall|j: int| 0 <= j < list.len() && j != i implies (#[trigger] list[j]).id@ != id by {
        if j < i {
            assert(list[j].id@ != list[i].id@);
        } else {
            assert(list[i].id@ != list[j].id@);
        }
    }
    i
}

} // verus!
