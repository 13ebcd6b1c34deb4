//! Narrowing down the candidates of a scan.
//!
//! A filter pass reads the memory at every candidate again and keeps those that meet the
//! mode. `Exact` and `NotEqual` hold what is read against a value; the other modes hold it
//! against what the last pass saw.

use crate::bytes;
use crate::bytes::from_bytes;
use crate::mem::access;
use crate::mem::access::{AccessError, MemEvent, MemoryAccess};
use crate::number;
use crate::number::{is_less_32, is_less_64, Double};
use crate::scan::candidate;
use crate::scan::candidate::{
    encode_value_patterns, Candidate, CandidateView, PatternView, TypeFlags, ValuePattern,
    ValueType,
};
use crate::text;
use crate::text::{from_chars, is, to_chars, to_lower};
use vstd::prelude::*;

verus! {

/// Which candidates a filter pass keeps.
#[derive(Clone, Copy, Debug, PartialEq, Eq, Structural)]
pub enum FilterMode {
    /// Those that hold the value.
    Exact,
    /// Those that do not hold the value.
    NotEqual,
    /// Those that hold more than at the last pass.
    Increased,
    /// Those that hold less than at the last pass.
    Decreased,
    /// Those whose bytes differ from the last pass.
    Changed,
    /// Those whose bytes are the same as at the last pass.
    Unchanged,
}

/// A text that names no filter mode.
#[derive(Clone, Debug)]
pub struct FilterModeError {
    /// The text.
    pub text: String,
}

impl FilterModeError {
    /// What the error says.
    pub fn message(&self) -> (r: String)
        ensures
            r@ == "unknown filter mode: '"@ + self.text@
                + "'. Options: exact, not-equal, increased, decreased, changed, unchanged"@,
    {
        let mut r = "unknown filter mode: '".to_string();
        r.append(self.text.as_str());
        r.append("'. Options: exact, not-equal, increased, decreased, changed, unchanged");
        r
    }
}

/// Lower case, with `-` for `_`.
pub open spec fn loosened(s: Seq<char>) -> Seq<char> {
    let lower = text::lower_all(s);
    Seq::new(s.len(), |i: int| if lower[i] == '_' { '-' } else { lower[i] })
}

/// The mode that a text names, in any case and with `_` or `-`.
pub open spec fn mode_named(s: Seq<char>) -> Option<FilterMode> {
    let t = loosened(s);
    if t == "exact"@ || t == "eq"@ || t == "="@ {
        Some(FilterMode::Exact)
    } else if t == "not-equal"@ || t == "ne"@ || t == "!="@ || t == "neq"@ {
        Some(FilterMode::NotEqual)
    } else if t == "increased"@ || t == "inc"@ || t == ">"@ || t == "gt"@ {
        Some(FilterMode::Increased)
    } else if t == "decreased"@ || t == "dec"@ || t == "<"@ || t == "lt"@ {
        Some(FilterMode::Decreased)
    } else if t == "changed"@ || t == "ch"@ || t == "diff"@ {
        Some(FilterMode::Changed)
    } else if t == "unchanged"@ || t == "unch"@ || t == "same"@ {
        Some(FilterMode::Unchanged)
    } else {
        None
    }
}

impl FilterMode {
    /// Reads a mode, in any case and with `_` or `-`.
    pub fn from_str_loose(s: &str) -> (r: Result<FilterMode, FilterModeError>)
        ensures
            match r {
                Ok(m) => mode_named(s@) == Some(m),
                Err(e) => mode_named(s@) is None && e.text@ == s@,
            },
    {
        let chars = to_chars(s);
        let mut t = to_lower(chars.as_slice());
        let mut i: usize = 0;
        let ghost lower = t@;
        while i < t.len()
            invariant
                i <= t@.len(),
                t@.len() == lower.len(),
                forall|k: int| 0 <= k < i ==> t@[k] == if lower[k] == '_' { '-' } else { lower[k] },
                forall|k: int| i <= k < t@.len() ==> t@[k] == lower[k],
            decreases t@.len() - i,
        {
            if t[i] == '_' {
                t.set(i, '-');
            }
            i += 1;
        }
        assert(t@ =~= loosened(s@));
        let t = t.as_slice();
        if is(t, "exact") || is(t, "eq") || is(t, "=") {
            Ok(FilterMode::Exact)
        } else if is(t, "not-equal") || is(t, "ne") || is(t, "!=") || is(t, "neq") {
            Ok(FilterMode::NotEqual)
        } else if is(t, "increased") || is(t, "inc") || is(t, ">") || is(t, "gt") {
            Ok(FilterMode::Increased)
        } else if is(t, "decreased") || is(t, "dec") || is(t, "<") || is(t, "lt") {
            Ok(FilterMode::Decreased)
        } else if is(t, "changed") || is(t, "ch") || is(t, "diff") {
            Ok(FilterMode::Changed)
        } else if is(t, "unchanged") || is(t, "unch") || is(t, "same") {
            Ok(FilterMode::Unchanged)
        } else {
            Err(FilterModeError { text: from_chars(chars.as_slice()) })
        }
    }

    /// The mode holds memory against a value.
    pub open spec fn takes_value(self) -> bool {
        self == FilterMode::Exact || self == FilterMode::NotEqual
    }

    /// Whether the mode needs a value to hold memory against.
    pub fn needs_value(self) -> (r: bool)
        ensures
            r == self.takes_value(),
    {
        matches!(self, FilterMode::Exact | FilterMode::NotEqual)
    }
}

// ─── One candidate ──────────────────────────────────────────────────────────

/// How many bytes are read at a candidate of these types.
pub open spec fn read_width(types: TypeFlags) -> nat {
    if types.wide() {
        8
    } else {
        4
    }
}

/// The bytes followed by zeros up to eight.
pub open spec fn padded(s: Seq<u8>) -> Seq<u8> {
    Seq::new(8, |i: int| if i < s.len() { s[i] } else { 0u8 })
}

/// The pattern stands for one of the types, and the bytes are its bytes.
pub open spec fn hits(current: Seq<u8>, pattern: PatternView, types: TypeFlags) -> bool {
    pattern.flags.meets(types) && current.take(pattern.size as int) == pattern.bytes.take(
        pattern.size as int,
    )
}

/// One of the patterns hits.
pub open spec fn hits_any(
    current: Seq<u8>,
    patterns: Seq<PatternView>,
    types: TypeFlags,
) -> bool {
    exists|i: int| 0 <= i < patterns.len() && #[trigger] hits(current, patterns[i], types)
}

/// The types of the patterns that hit.
pub open spec fn hit_types(
    current: Seq<u8>,
    patterns: Seq<PatternView>,
    types: TypeFlags,
) -> TypeFlags
    decreases patterns.len(),
{
    if patterns.len() == 0 {
        TypeFlags::none()
    } else {
        let before = hit_types(current, patterns.drop_last(), types);
        if hits(current, patterns.last(), types) {
            before.or(patterns.last().flags.and(types))
        } else {
            before
        }
    }
}

/// The unsigned number in the first four bytes.
pub open spec fn low(s: Seq<u8>) -> nat {
    bytes::le_value(s.take(4))
}

/// The unsigned number in all eight bytes.
pub open spec fn all(s: Seq<u8>) -> nat {
    bytes::le_value(s.take(8))
}

/// `a` is less than `b` in at least one of the types.
pub open spec fn less_in_some(a: Seq<u8>, b: Seq<u8>, types: TypeFlags) -> bool {
    ||| types.int32 && bytes::signed(low(a), 0x1_0000_0000) < bytes::signed(low(b), 0x1_0000_0000)
    ||| types.uint32 && low(a) < low(b)
    ||| types.float32 && number::less_32(low(a) as u32, low(b) as u32)
    ||| types.int64 && bytes::signed(all(a), 0x1_0000_0000_0000_0000) < bytes::signed(
        all(b),
        0x1_0000_0000_0000_0000,
    )
    ||| types.uint64 && all(a) < all(b)
    ||| types.float64 && number::less_64(
        Double { bits: all(a) as u64 },
        Double { bits: all(b) as u64 },
    )
}

/// The candidate meets the mode, `current` being what memory holds now.
pub open spec fn passes(
    c: CandidateView,
    current: Seq<u8>,
    value: Double,
    mode: FilterMode,
) -> bool {
    let width = read_width(c.types) as int;
    let same = current.take(width) == c.last_value.take(width);
    match mode {
        FilterMode::Exact => hits_any(current, candidate::value_patterns(value), c.types),
        FilterMode::NotEqual => !hits_any(current, candidate::value_patterns(value), c.types),
        FilterMode::Increased => less_in_some(c.last_value, current, c.types),
        FilterMode::Decreased => less_in_some(current, c.last_value, c.types),
        FilterMode::Changed => !same,
        FilterMode::Unchanged => same,
    }
}

/// The types that are left: after an exact match, those whose pattern matched.
pub open spec fn types_left(
    c: CandidateView,
    current: Seq<u8>,
    value: Double,
    mode: FilterMode,
) -> TypeFlags {
    if mode == FilterMode::Exact {
        let matched = hit_types(current, candidate::value_patterns(value), c.types);
        if matched == TypeFlags::none() {
            c.types
        } else {
            matched
        }
    } else {
        c.types
    }
}

/// The candidate after a pass that confirmed it.
pub open spec fn confirmed(
    c: CandidateView,
    current: Seq<u8>,
    value: Double,
    mode: FilterMode,
) -> CandidateView {
    CandidateView {
        address: c.address,
        types: types_left(c, current, value, mode),
        confidence: if c.confidence < 255 {
            (c.confidence + 1) as u8
        } else {
            255
        },
        last_value: current,
    }
}

/// What becomes of a candidate: it is dropped where its memory cannot be read or does not
/// meet the mode.
pub open spec fn filtered(
    c: CandidateView,
    outcome: Result<(nat, Seq<u8>), Seq<char>>,
    value: Double,
    mode: FilterMode,
) -> Option<CandidateView> {
    match outcome {
        Err(_) => None,
        Ok((n, buffer)) => if passes(c, padded(buffer), value, mode) {
            Some(confirmed(c, padded(buffer), value, mode))
        } else {
            None
        },
    }
}

// ─── All candidates ─────────────────────────────────────────────────────────

/// What the reads of a pass came to.
pub open spec fn outcomes(events: Seq<MemEvent>) -> Seq<Result<(nat, Seq<u8>), Seq<char>>> {
    Seq::new(events.len(), |i: int| events[i]->Read_outcome)
}

/// Each candidate was read once, in order, as wide as its types ask.
pub open spec fn reads_each(events: Seq<MemEvent>, pid: u32, candidates: Seq<CandidateView>) -> bool {
    &&& events.len() == candidates.len()
    &&& forall|i: int|
        0 <= i < events.len() ==> {
            &&& #[trigger] events[i] is Read
            &&& events[i]->Read_pid == pid
            &&& events[i]->Read_address == candidates[i].address
            &&& events[i]->wanted == read_width(candidates[i].types)
            &&& access::fills(events[i])
        }
}

/// The candidates that a pass keeps, in order.
pub open spec fn survivors(
    candidates: Seq<CandidateView>,
    outcomes: Seq<Result<(nat, Seq<u8>), Seq<char>>>,
    value: Double,
    mode: FilterMode,
) -> Seq<CandidateView>
    decreases candidates.len(),
{
    if candidates.len() == 0 {
        Seq::empty()
    } else {
        let before = survivors(candidates.drop_last(), outcomes, value, mode);
        match filtered(candidates.last(), outcomes[candidates.len() - 1], value, mode) {
            Some(c) => before.push(c),
            None => before,
        }
    }
}

fn pad(s: &Vec<u8>) -> (r: [u8; 8])
    ensures
        r@ == padded(s@),
{
    let mut r: [u8; 8] = [0; 8];
    let mut i: usize = 0;
    while i < 8 && i < s.len()
        invariant
            i <= 8,
            i <= s@.len(),
            forall|k: int| 0 <= k < i ==> r@[k] == s@[k],
            forall|k: int| i <= k < 8 ==> r@[k] == 0,
        decreases 8 - i,
    {
        r[i] = s[i];
        i += 1;
    }
    assert(r@ =~= padded(s@));
    r
}

fn same_start(a: &[u8; 8], b: &[u8; 8], n: usize) -> (r: bool)
    requires
        n <= 8,
    ensures
        r == (a@.take(n as int) == b@.take(n as int)),
{
    let mut i: usize = 0;
    while i < n
        invariant
            i <= n <= 8,
            forall|k: int| 0 <= k < i ==> a@[k] == b@[k],
        decreases n - i,
    {
        if a[i] != b[i] {
            assert(a@.take(n as int)[i as int] != b@.take(n as int)[i as int]);
            return false;
        }
        i += 1;
    }
    assert(a@.take(n as int) =~= b@.take(n as int));
    true
}

/// Every pattern has at most eight bytes that count.
pub open spec fn short_patterns(patterns: Seq<ValuePattern>) -> bool {
    forall|i: int| 0 <= i < patterns.len() ==> (#[trigger] patterns[i]).2 <= 8
}

/// Whether the bytes match a pattern of one of the types.
pub fn check_exact_match(
    current: &[u8; 8],
    patterns: &[ValuePattern],
    candidate_types: TypeFlags,
) -> (r: bool)
    requires
        short_patterns(patterns@),
    ensures
        r == hits_any(current@, candidate::pattern_views(patterns@), candidate_types),
{
    let ghost views = candidate::pattern_views(patterns@);
    let mut i: usize = 0;
    while i < patterns.len()
        invariant
            i <= patterns@.len(),
            short_patterns(patterns@),
            views == candidate::pattern_views(patterns@),
            forall|k: int| 0 <= k < i ==> !#[trigger] hits(current@, views[k], candidate_types),
        decreases patterns@.len() - i,
    {
        let p = &patterns[i];
        assert(views[i as int] == candidate::pattern_view(patterns@[i as int]));
        if p.1.intersects(candidate_types) && same_start(current, &p.0, p.2) {
            assert(hits(current@, views[i as int], candidate_types));
            return true;
        }
        i += 1;
    }
    false
}

/// The types whose pattern matches.
pub fn narrow_types(
    current: &[u8; 8],
    patterns: &[ValuePattern],
    candidate_types: TypeFlags,
) -> (r: TypeFlags)
    requires
        short_patterns(patterns@),
    ensures
        r == hit_types(current@, candidate::pattern_views(patterns@), candidate_types),
{
    let ghost views = candidate::pattern_views(patterns@);
    let mut matched = TypeFlags::empty();
    let mut i: usize = 0;
    while i < patterns.len()
        invariant
            i <= patterns@.len(),
            short_patterns(patterns@),
            views == candidate::pattern_views(patterns@),
            matched == hit_types(current@, views.take(i as int), candidate_types),
        decreases patterns@.len() - i,
    {
        let p = &patterns[i];
        proof {
            assert(views.take(i + 1).drop_last() =~= views.take(i as int));
            assert(views.take(i + 1).last() == candidate::pattern_view(patterns@[i as int]));
        }
        if p.1.intersects(candidate_types) && same_start(current, &p.0, p.2) {
            matched = matched.union(p.1.intersection(candidate_types));
        }
        i += 1;
    }
    assert(views.take(patterns@.len() as int) =~= views);
    matched
}

fn as_signed_32(n: u64) -> (r: i64)
    requires
        n <= 0xffff_ffff,
    ensures
        r == bytes::signed(n as nat, 0x1_0000_0000),
{
    if n >= 0x8000_0000 {
        n as i64 - 0x1_0000_0000
    } else {
        n as i64
    }
}

fn as_signed_64(n: u64) -> (r: i64)
    ensures
        r == bytes::signed(n as nat, 0x1_0000_0000_0000_0000),
{
    if n >= 0x8000_0000_0000_0000 {
        (n as i128 - 0x1_0000_0000_0000_0000) as i64
    } else {
        n as i64
    }
}

fn is_less_in_some(a: &[u8; 8], b: &[u8; 8], types: TypeFlags) -> (r: bool)
    ensures
        r == less_in_some(a@, b@, types),
{
    let a4: u64 = from_bytes(a.as_slice(), 4);
    let b4: u64 = from_bytes(b.as_slice(), 4);
    let a8: u64 = from_bytes(a.as_slice(), 8);
    let b8: u64 = from_bytes(b.as_slice(), 8);
    (types.int32 && as_signed_32(a4) < as_signed_32(b4)) || (types.uint32 && a4 < b4) || (
    types.float32 && is_less_32(a4 as u32, b4 as u32)) || (types.int64 && as_signed_64(a8)
        < as_signed_64(b8)) || (types.uint64 && a8 < b8) || (types.float64 && is_less_64(
        Double::from_bits(a8),
        Double::from_bits(b8),
    ))
}

/// Whether the value went up (or down, where not `rising`) in at least one of the types.
pub fn check_comparison(
    current: &[u8; 8],
    previous: &[u8; 8],
    types: TypeFlags,
    rising: bool,
) -> (r: bool)
    ensures
        rising ==> r == less_in_some(previous@, current@, types),
        !rising ==> r == less_in_some(current@, previous@, types),
{
    if rising {
        is_less_in_some(previous, current, types)
    } else {
        is_less_in_some(current, previous, types)
    }
}

proof fn lemma_patterns_short(value: Double, patterns: Seq<ValuePattern>)
    requires
        candidate::pattern_views(patterns) == candidate::value_patterns(value),
    ensures
        short_patterns(patterns),
{
    candidate::pattern_sizes(value);
    assert forall|i: int| 0 <= i < patterns.len() implies (#[trigger] patterns[i]).2 <= 8 by {
        let views = candidate::pattern_views(patterns);
        assert(views[i].size == patterns[i].2);
        assert(candidate::value_patterns(value)[i].size <= 8);
    }
}

/// Reads every candidate again and keeps those that meet the mode, each confirmed once more
/// and with what was read as its last value. Returns how many are left.
pub fn filter_candidates<M: MemoryAccess>(
    mem: &mut M,
    pid: u32,
    candidates: &mut Vec<Candidate>,
    new_value: Double,
    _dtype: ValueType,
    mode: FilterMode,
) -> (r: Result<usize, AccessError>)
    ensures
        access::follows(*final(mem), *old(mem)),
        reads_each(
            access::since(final(mem).trace(), old(mem).trace()),
            pid,
            candidate::candidate_views(old(candidates)@),
        ),
        candidate::candidate_views(final(candidates)@) == survivors(
            candidate::candidate_views(old(candidates)@),
            outcomes(access::since(final(mem).trace(), old(mem).trace())),
            new_value,
            mode,
        ),
        r matches Ok(n) && n == final(candidates)@.len(),
{
    let patterns = encode_value_patterns(new_value);
    proof {
        lemma_patterns_short(new_value, patterns@);
    }
    let ghost all_views = candidate::candidate_views(candidates@);
    let ghost start = candidates@;
    let ghost before = mem.trace();
    let ghost mut events: Seq<MemEvent> = Seq::empty();
    let total: usize = candidates.len();
    let mut retained: usize = 0;
    let mut i: usize = 0;
    assert(candidate::candidate_views(candidates@.take(0)) =~= survivors(
        all_views.take(0),
        outcomes(events),
        new_value,
        mode,
    ));
    assert(before + events =~= before);
    while i < total
        invariant
            retained <= i <= total,
            candidates@.len() == total,
            start.len() == total,
            all_views == candidate::candidate_views(start),
            short_patterns(patterns@),
            candidate::pattern_views(patterns@) == candidate::value_patterns(new_value),
            events.len() == i,
            mem.trace() == before + events,
            mem.answers() == old(mem).answers(),
            old(mem).sound() ==> mem.sound(),
            reads_each(events, pid, all_views.take(i as int)),
            forall|k: int| i <= k < total ==> candidates@[k] == start[k],
            candidate::candidate_views(candidates@.take(retained as int)) == survivors(
                all_views.take(i as int),
                outcomes(events),
                new_value,
                mode,
            ),
        decreases total - i,
    {
        let candidate = candidates[i];
        let ghost c = candidate@;
        let ghost events_before = events;
        let wide = candidate.types.int64 || candidate.types.uint64 || candidate.types.float64;
        let width: usize = if wide { 8 } else { 4 };
        let mut buffer: Vec<u8> = vec![0u8; width];
        let result = mem.read(pid, candidate.address, buffer.as_mut_slice());
        proof {
            let event = mem.trace().last();
            events = events.push(event);
            assert(mem.trace() =~= before + events);
            assert(all_views.take(i + 1).drop_last() =~= all_views.take(i as int));
            assert(all_views.take(i + 1).last() == c);
            assert(reads_each(events, pid, all_views.take(i + 1)));
            lemma_survivors_local(
                all_views.take(i as int),
                outcomes(events_before),
                outcomes(events),
                new_value,
                mode,
            );
            assert(outcomes(events)[i as int] == event->Read_outcome);
        }
        if result.is_ok() {
            let current = pad(&buffer);
            let keep = match mode {
                FilterMode::Exact => check_exact_match(
                    &current,
                    patterns.as_slice(),
                    candidate.types,
                ),
                FilterMode::NotEqual => !check_exact_match(
                    &current,
                    patterns.as_slice(),
                    candidate.types,
                ),
                FilterMode::Increased => check_comparison(
                    &current,
                    &candidate.last_value,
                    candidate.types,
                    true,
                ),
                FilterMode::Decreased => check_comparison(
                    &current,
                    &candidate.last_value,
                    candidate.types,
                    false,
                ),
                FilterMode::Changed => !same_start(&current, &candidate.last_value, width),
                FilterMode::Unchanged => same_start(&current, &candidate.last_value, width),
            };
            if keep {
                let types = if mode == FilterMode::Exact {
                    let matched = narrow_types(&current, patterns.as_slice(), candidate.types);
                    if matched.is_empty() {
                        candidate.types
                    } else {
                        matched
                    }
                } else {
                    candidate.types
                };
                let confidence: u8 = if candidate.confidence < 255 {
                    candidate.confidence + 1
                } else {
                    255
                };
                let kept = Candidate {
                    address: candidate.address,
                    types,
                    confidence,
                    last_value: current,
                };
                let ghost sofar = candidate::candidate_views(candidates@.take(retained as int));
                candidates.set(retained, kept);
                retained += 1;
                assert(candidate::candidate_views(candidates@.take(retained as int))
                    =~= sofar.push(kept@));
                assert(kept@ == confirmed(c, padded(buffer@), new_value, mode));
            }
        }
        i += 1;
    }
    proof {
        assert(all_views.take(total as int) =~= all_views);
        assert(access::since(mem.trace(), before) =~= events);
    }
    candidates.truncate(retained);
    Ok(retained)
}

/// Only the outcomes of the candidates at hand matter.
proof fn lemma_survivors_local(
    candidates: Seq<CandidateView>,
    a: Seq<Result<(nat, Seq<u8>), Seq<char>>>,
    b: Seq<Result<(nat, Seq<u8>), Seq<char>>>,
    value: Double,
    mode: FilterMode,
)
    requires
        candidates.len() <= a.len() <= b.len(),
        forall|i: int| 0 <= i < candidates.len() ==> a[i] == b[i],
    ensures
        survivors(candidates, a, value, mode) == survivors(candidates, b, value, mode),
    decreases candidates.len(),
{
    if candidates.len() > 0 {
        lemma_survivors_local(candidates.drop_last(), a, b, value, mode);
    }
}

// ─── What a pass promises ───────────────────────────────────────────────────

/// A pass keeps no more candidates than it was given, and each one that it keeps is one that
/// it was given, at the same address, with no type that it did not have.
pub proof fn filter_only_narrows(
    candidates: Seq<CandidateView>,
    outcomes: Seq<Result<(nat, Seq<u8>), Seq<char>>>,
    value: Double,
    mode: FilterMode,
)
    ensures
        survivors(candidates, outcomes, value, mode).len() <= candidates.len(),
        forall|k: int|
            0 <= k < survivors(candidates, outcomes, value, mode).len() ==> exists|i: int|
                0 <= i < candidates.len() && narrowed_from(
                    #[trigger] survivors(candidates, outcomes, value, mode)[k],
                    #[trigger] candidates[i],
                ),
    decreases candidates.len(),
{
    if candidates.len() > 0 {
        let rest = candidates.drop_last();
        let before = survivors(rest, outcomes, value, mode);
        let after = survivors(candidates, outcomes, value, mode);
        filter_only_narrows(rest, outcomes, value, mode);
        assert forall|k: int| 0 <= k < after.len() implies exists|i: int|
            0 <= i < candidates.len() && narrowed_from(
                #[trigger] after[k],
                #[trigger] candidates[i],
            ) by {
            if k < before.len() {
                assert(after[k] == before[k]);
                let i = choose|i: int|
                    0 <= i < rest.len() && narrowed_from(before[k], #[trigger] rest[i]);
                assert(candidates[i] == rest[i]);
            } else {
                let c = candidates.last();
                let buffer = outcomes[candidates.len() - 1]->Ok_0.1;
                lemma_types_left_subset(c, padded(buffer), value, mode);
                assert(narrowed_from(after[k], candidates[candidates.len() - 1]));
            }
        }
    }
}

/// The same address, with a subset of the types.
pub open spec fn narrowed_from(after: CandidateView, before: CandidateView) -> bool {
    after.address == before.address && after.types.and(before.types) == after.types
}

proof fn lemma_hit_types_subset(current: Seq<u8>, patterns: Seq<PatternView>, types: TypeFlags)
    ensures
        hit_types(current, patterns, types).and(types) == hit_types(current, patterns, types),
    decreases patterns.len(),
{
    if patterns.len() > 0 {
        lemma_hit_types_subset(current, patterns.drop_last(), types);
    }
}

proof fn lemma_types_left_subset(
    c: CandidateView,
    current: Seq<u8>,
    value: Double,
    mode: FilterMode,
)
    ensures
        types_left(c, current, value, mode).and(c.types) == types_left(c, current, value, mode),
{
    lemma_hit_types_subset(current, candidate::value_patterns(value), c.types);
}

/// No two candidates have the same address.
pub open spec fn distinct_addresses(candidates: Seq<CandidateView>) -> bool {
    forall|i: int, j: int|
        0 <= i < j < candidates.len() ==> (#[trigger] candidates[i]).address != (
        #[trigger] candidates[j]).address
}

/// No address is in both lists.
pub open spec fn apart(a: Seq<CandidateView>, b: Seq<CandidateView>) -> bool {
    forall|i: int, j: int|
        0 <= i < a.len() && 0 <= j < b.len() ==> (#[trigger] a[i]).address != (
        #[trigger] b[j]).address
}

/// What a pass keeps of the candidates before the last is not at the address of the last.
proof fn lemma_last_is_apart(
    candidates: Seq<CandidateView>,
    outcomes: Seq<Result<(nat, Seq<u8>), Seq<char>>>,
    value: Double,
    mode: FilterMode,
)
    requires
        candidates.len() > 0,
        distinct_addresses(candidates),
    ensures
        forall|k: int|
            0 <= k < survivors(candidates.drop_last(), outcomes, value, mode).len() ==> (
            #[trigger] survivors(candidates.drop_last(), outcomes, value, mode)[k]).address
                != candidates.last().address,
{
    let rest = candidates.drop_last();
    let kept = survivors(rest, outcomes, value, mode);
    filter_only_narrows(rest, outcomes, value, mode);
    assert forall|k: int| 0 <= k < kept.len() implies (#[trigger] kept[k]).address
        != candidates.last().address by {
        let i = choose|i: int| 0 <= i < rest.len() && narrowed_from(kept[k], #[trigger] rest[i]);
        assert(candidates[i].address != candidates[candidates.len() - 1].address);
    }
}

/// Two modes of which a candidate meets exactly one keep no address both.
proof fn lemma_opposites_apart(
    candidates: Seq<CandidateView>,
    outcomes: Seq<Result<(nat, Seq<u8>), Seq<char>>>,
    value: Double,
    one: FilterMode,
    other: FilterMode,
)
    requires
        distinct_addresses(candidates),
        (one == FilterMode::Changed && other == FilterMode::Unchanged) || (one == FilterMode::Exact
            && other == FilterMode::NotEqual),
    ensures
        apart(
            survivors(candidates, outcomes, value, one),
            survivors(candidates, outcomes, value, other),
        ),
    decreases candidates.len(),
{
    if candidates.len() > 0 {
        let rest = candidates.drop_last();
        assert forall|i: int, j: int| 0 <= i < j < rest.len() implies (#[trigger] rest[i]).address
            != (#[trigger] rest[j]).address by {
            assert(candidates[i].address != candidates[j].address);
        }
        lemma_opposites_apart(rest, outcomes, value, one, other);
        lemma_last_is_apart(candidates, outcomes, value, one);
        lemma_last_is_apart(candidates, outcomes, value, other);
        let (a0, b0) = (
            survivors(rest, outcomes, value, one),
            survivors(rest, outcomes, value, other),
        );
        let (a, b) = (
            survivors(candidates, outcomes, value, one),
            survivors(candidates, outcomes, value, other),
        );
        assert forall|i: int, j: int| 0 <= i < a.len() && 0 <= j < b.len() implies (
        #[trigger] a[i]).address != (#[trigger] b[j]).address by {
            if i < a0.len() {
                assert(a[i] == a0[i]);
            }
            if j < b0.len() {
                assert(b[j] == b0[j]);
            }
        }
    }
}

/// Two modes that are each other's opposite share out the candidates that can be read:
/// together they keep as many as there are and, where no two candidates have the same address,
/// none is kept by both.
pub proof fn opposites_share_out(
    candidates: Seq<CandidateView>,
    outcomes: Seq<Result<(nat, Seq<u8>), Seq<char>>>,
    value: Double,
)
    ensures
        survivors(candidates, outcomes, value, FilterMode::Changed).len() + survivors(
            candidates,
            outcomes,
            value,
            FilterMode::Unchanged,
        ).len() == readable(candidates, outcomes),
        survivors(candidates, outcomes, value, FilterMode::Exact).len() + survivors(
            candidates,
            outcomes,
            value,
            FilterMode::NotEqual,
        ).len() == readable(candidates, outcomes),
        (forall|i: int| 0 <= i < candidates.len() ==> #[trigger] outcomes[i] is Ok) ==> readable(
            candidates,
            outcomes,
        ) == candidates.len(),
        distinct_addresses(candidates) ==> apart(
            survivors(candidates, outcomes, value, FilterMode::Changed),
            survivors(candidates, outcomes, value, FilterMode::Unchanged),
        ),
        distinct_addresses(candidates) ==> apart(
            survivors(candidates, outcomes, value, FilterMode::Exact),
            survivors(candidates, outcomes, value, FilterMode::NotEqual),
        ),
{
    lemma_counts_add_up(candidates, outcomes, value);
    if distinct_addresses(candidates) {
        lemma_opposites_apart(
            candidates,
            outcomes,
            value,
            FilterMode::Changed,
            FilterMode::Unchanged,
        );
        lemma_opposites_apart(
            candidates,
            outcomes,
            value,
            FilterMode::Exact,
            FilterMode::NotEqual,
        );
    }
}

proof fn lemma_counts_add_up(
    candidates: Seq<CandidateView>,
    outcomes: Seq<Result<(nat, Seq<u8>), Seq<char>>>,
    value: Double,
)
    ensures
        survivors(candidates, outcomes, value, FilterMode::Changed).len() + survivors(
            candidates,
            outcomes,
            value,
            FilterMode::Unchanged,
        ).len() == readable(candidates, outcomes),
        survivors(candidates, outcomes, value, FilterMode::Exact).len() + survivors(
            candidates,
            outcomes,
            value,
            FilterMode::NotEqual,
        ).len() == readable(candidates, outcomes),
        (forall|i: int| 0 <= i < candidates.len() ==> #[trigger] outcomes[i] is Ok) ==> readable(
            candidates,
            outcomes,
        ) == candidates.len(),
    decreases candidates.len(),
{
    if candidates.len() > 0 {
        lemma_counts_add_up(candidates.drop_last(), outcomes, value);
        assert((forall|i: int| 0 <= i < candidates.len() ==> #[trigger] outcomes[i] is Ok)
            ==> outcomes[candidates.len() - 1] is Ok);
    }
}

/// How many of the candidates could be read.
pub open spec fn readable(
    candidates: Seq<CandidateView>,
    outcomes: Seq<Result<(nat, Seq<u8>), Seq<char>>>,
) -> nat
    decreases candidates.len(),
{
    if candidates.len() == 0 {
        0
    } else {
        readable(candidates.drop_last(), outcomes) + if outcomes[candidates.len() - 1] is Ok {
            1nat
        } else {
            0nat
        }
    }
}

/// What a pass saw is what the next one holds memory against: where the bytes are still the
/// same, the candidate passes as unchanged, and neither as changed nor as increased or
/// decreased.
pub proof fn last_value_is_remembered(
    c: CandidateView,
    current: Seq<u8>,
    value: Double,
    mode: FilterMode,
    next: Double,
)
    ensures
        ({
            let after = confirmed(c, current, value, mode);
            &&& passes(after, current, next, FilterMode::Unchanged)
            &&& !passes(after, current, next, FilterMode::Changed)
            &&& !passes(after, current, next, FilterMode::Increased)
            &&& !passes(after, current, next, FilterMode::Decreased)
        }),
{
}

/// Of a candidate that has only four-byte types, a pass remembers four bytes; the other four are
/// zero.
pub proof fn narrow_candidates_remember_four_bytes(
    events: Seq<MemEvent>,
    pid: u32,
    candidates: Seq<CandidateView>,
    value: Double,
    mode: FilterMode,
)
    requires
        reads_each(events, pid, candidates),
        forall|i: int| 0 <= i < candidates.len() ==> !(#[trigger] candidates[i]).types.wide(),
    ensures
        forall|k: int, j: int|
            0 <= k < survivors(candidates, outcomes(events), value, mode).len() && 4 <= j < 8
                ==> #[trigger] survivors(candidates, outcomes(events), value, mode)[k].last_value[j]
                == 0,
{
    lemma_narrow_survivors(candidates, outcomes(events), value, mode);
}

proof fn lemma_narrow_survivors(
    candidates: Seq<CandidateView>,
    outcomes: Seq<Result<(nat, Seq<u8>), Seq<char>>>,
    value: Double,
    mode: FilterMode,
)
    requires
        candidates.len() <= outcomes.len(),
        forall|i: int|
            0 <= i < candidates.len() ==> (#[trigger] outcomes[i] matches Ok((n, buffer))
                ==> buffer.len() == 4),
    ensures
        forall|k: int, j: int|
            0 <= k < survivors(candidates, outcomes, value, mode).len() && 4 <= j < 8
                ==> #[trigger] survivors(candidates, outcomes, value, mode)[k].last_value[j] == 0,
    decreases candidates.len(),
{
    if candidates.len() > 0 {
        let rest = candidates.drop_last();
        let n = candidates.len() - 1;
        lemma_narrow_survivors(rest, outcomes, value, mode);
        let (before, after) = (
            survivors(rest, outcomes, value, mode),
            survivors(candidates, outcomes, value, mode),
        );
        assert forall|k: int, j: int| 0 <= k < after.len() && 4 <= j < 8 implies #[trigger]
            after[k].last_value[j] == 0 by {
            if k < before.len() {
                assert(after[k] == before[k]);
            } else {
                assert(after[k].last_value == padded(outcomes[n]->Ok_0.1));
            }
        }
    }
}

/// The bytes that stand in memory from an address on.
pub open spec fn standing(memory: spec_fn(int) -> u8, address: u64, width: nat) -> Seq<u8> {
    Seq::new(width, |i: int| memory(address + i))
}

/// Where a candidate could be read, what stands in memory there was read.
pub open spec fn reads_memory(
    memory: spec_fn(int) -> u8,
    candidates: Seq<CandidateView>,
    outcomes: Seq<Result<(nat, Seq<u8>), Seq<char>>>,
) -> bool {
    forall|i: int|
        0 <= i < candidates.len() && (#[trigger] outcomes[i]) is Ok ==> outcomes[i]->Ok_0.1
            == standing(memory, candidates[i].address, read_width(candidates[i].types))
}

/// The candidate remembers what stands in memory, as far as its types are wide.
pub open spec fn remembers(memory: spec_fn(int) -> u8, c: CandidateView) -> bool {
    c.last_value.take(read_width(c.types) as int) == standing(
        memory,
        c.address,
        read_width(c.types),
    )
}

proof fn lemma_survivors_remember(
    memory: spec_fn(int) -> u8,
    candidates: Seq<CandidateView>,
    outcomes: Seq<Result<(nat, Seq<u8>), Seq<char>>>,
    value: Double,
    mode: FilterMode,
)
    requires
        reads_memory(memory, candidates, outcomes),
    ensures
        forall|k: int|
            0 <= k < survivors(candidates, outcomes, value, mode).len() ==> remembers(
                memory,
                #[trigger] survivors(candidates, outcomes, value, mode)[k],
            ),
    decreases candidates.len(),
{
    if candidates.len() > 0 {
        let rest = candidates.drop_last();
        let n = candidates.len() - 1;
        let c = candidates.last();
        assert forall|i: int| 0 <= i < rest.len() && (#[trigger] outcomes[i]) is Ok implies
            outcomes[i]->Ok_0.1 == standing(memory, rest[i].address, read_width(rest[i].types)) by {
            assert(rest[i] == candidates[i]);
        }
        lemma_survivors_remember(memory, rest, outcomes, value, mode);
        if let Some(kept) = filtered(c, outcomes[n], value, mode) {
            let buffer = outcomes[n]->Ok_0.1;
            lemma_types_left_subset(c, padded(buffer), value, mode);
            let width = read_width(kept.types);
            assert(width <= read_width(c.types)) by {
                assert(kept.types.wide() ==> c.types.wide()) by {
                    assert(kept.types.and(c.types) == kept.types);
                }
            }
            assert(buffer == standing(memory, c.address, read_width(c.types)));
            assert(kept.last_value.take(width as int) =~= standing(memory, kept.address, width));
        }
        let before = survivors(rest, outcomes, value, mode);
        let after = survivors(candidates, outcomes, value, mode);
        assert forall|k: int| 0 <= k < after.len() implies remembers(
            memory,
            #[trigger] after[k],
        ) by {
            if k < before.len() {
                assert(after[k] == before[k]);
            }
        }
    }
}

/// A candidate that is found unchanged: confirmed once more, with what was read.
pub open spec fn found_unchanged(memory: spec_fn(int) -> u8, c: CandidateView) -> CandidateView {
    CandidateView {
        address: c.address,
        types: c.types,
        confidence: raised(c.confidence),
        last_value: padded(standing(memory, c.address, read_width(c.types))),
    }
}

proof fn lemma_unchanged_keeps(
    memory: spec_fn(int) -> u8,
    candidates: Seq<CandidateView>,
    outcomes: Seq<Result<(nat, Seq<u8>), Seq<char>>>,
    value: Double,
)
    requires
        reads_memory(memory, candidates, outcomes),
        forall|i: int| 0 <= i < candidates.len() ==> (#[trigger] outcomes[i]) is Ok,
        forall|i: int| 0 <= i < candidates.len() ==> remembers(memory, #[trigger] candidates[i]),
    ensures
        survivors(candidates, outcomes, value, FilterMode::Unchanged) == candidates.map_values(
            |c: CandidateView| found_unchanged(memory, c),
        ),
    decreases candidates.len(),
{
    let expected = candidates.map_values(|c: CandidateView| found_unchanged(memory, c));
    if candidates.len() > 0 {
        let rest = candidates.drop_last();
        let n = candidates.len() - 1;
        let c = candidates.last();
        assert forall|i: int| 0 <= i < rest.len() && (#[trigger] outcomes[i]) is Ok implies
            outcomes[i]->Ok_0.1 == standing(memory, rest[i].address, read_width(rest[i].types)) by {
            assert(rest[i] == candidates[i]);
        }
        assert forall|i: int| 0 <= i < rest.len() implies remembers(memory, #[trigger] rest[i]) by {
            assert(rest[i] == candidates[i]);
        }
        lemma_unchanged_keeps(memory, rest, outcomes, value);
        let width = read_width(c.types);
        let buffer = outcomes[n]->Ok_0.1;
        assert(outcomes[n] is Ok);
        assert(remembers(memory, candidates[n]));
        assert(padded(buffer).take(width as int) =~= buffer);
        assert(filtered(c, outcomes[n], value, FilterMode::Unchanged) == Some(
            found_unchanged(memory, c),
        ));
        assert(survivors(candidates, outcomes, value, FilterMode::Unchanged) =~= expected);
    } else {
        assert(survivors(candidates, outcomes, value, FilterMode::Unchanged) =~= expected);
    }
}

/// A pass for what is unchanged, over memory that has not changed since the pass before it,
/// keeps every candidate, in the same order, with the same address and types and one more
/// confirmation.
pub proof fn unchanged_memory_keeps_all(
    memory: spec_fn(int) -> u8,
    candidates: Seq<CandidateView>,
    outcomes: Seq<Result<(nat, Seq<u8>), Seq<char>>>,
    value: Double,
    mode: FilterMode,
    again: Seq<Result<(nat, Seq<u8>), Seq<char>>>,
    next: Double,
)
    requires
        reads_memory(memory, candidates, outcomes),
        reads_memory(memory, survivors(candidates, outcomes, value, mode), again),
        forall|k: int|
            0 <= k < survivors(candidates, outcomes, value, mode).len() ==> (#[trigger] again[k])
                is Ok,
    ensures
        ({
            let first = survivors(candidates, outcomes, value, mode);
            let second = survivors(first, again, next, FilterMode::Unchanged);
            &&& second.len() == first.len()
            &&& forall|k: int|
                0 <= k < second.len() ==> {
                    &&& (#[trigger] second[k]).address == first[k].address
                    &&& second[k].types == first[k].types
                    &&& second[k].confidence == raised(first[k].confidence)
                }
        }),
{
    let first = survivors(candidates, outcomes, value, mode);
    lemma_survivors_remember(memory, candidates, outcomes, value, mode);
    lemma_unchanged_keeps(memory, first, again, next);
}

/// Candidates that stand in order of falling confidence still do after a pass.
pub proof fn confidence_order_is_kept(
    candidates: Seq<CandidateView>,
    outcomes: Seq<Result<(nat, Seq<u8>), Seq<char>>>,
    value: Double,
    mode: FilterMode,
)
    requires
        by_confidence(candidates),
    ensures
        by_confidence(survivors(candidates, outcomes, value, mode)),
        candidates.len() > 0 ==> forall|k: int|
            0 <= k < survivors(candidates, outcomes, value, mode).len()
                ==> #[trigger] survivors(candidates, outcomes, value, mode)[k].confidence
                >= raised(candidates.last().confidence),
    decreases candidates.len(),
{
    if candidates.len() > 0 {
        let rest = candidates.drop_last();
        confidence_order_is_kept(rest, outcomes, value, mode);
        if rest.len() > 0 {
            assert(rest.last() == candidates[rest.len() - 1]);
            assert(rest.last().confidence >= candidates.last().confidence);
        }
    }
}

/// No candidate has a higher confidence than one before it.
pub open spec fn by_confidence(candidates: Seq<CandidateView>) -> bool {
    forall|i: int, j: int|
        0 <= i <= j < candidates.len() ==> candidates[i].confidence >= candidates[j].confidence
}

/// A confidence after one more pass.
pub open spec fn raised(confidence: u8) -> u8 {
    if confidence < 255 {
        (confidence + 1) as u8
    } else {
        255
    }
}

/// Candidates that stand in order of their addresses still do after a pass.
pub proof fn address_order_is_kept(
    candidates: Seq<CandidateView>,
    outcomes: Seq<Result<(nat, Seq<u8>), Seq<char>>>,
    value: Double,
    mode: FilterMode,
)
    requires
        by_address(candidates),
    ensures
        by_address(survivors(candidates, outcomes, value, mode)),
        candidates.len() > 0 ==> forall|k: int|
            0 <= k < survivors(candidates, outcomes, value, mode).len()
                ==> #[trigger] survivors(candidates, outcomes, value, mode)[k].address
                <= candidates.last().address,
    decreases candidates.len(),
{
    if candidates.len() > 0 {
        let rest = candidates.drop_last();
        address_order_is_kept(rest, outcomes, value, mode);
        if rest.len() > 0 {
            assert(rest.last() == candidates[rest.len() - 1]);
            assert(rest.last().address < candidates.last().address);
        }
    }
}

/// Each candidate lies above the one before it.
pub open spec fn by_address(candidates: Seq<CandidateView>) -> bool {
    forall|i: int, j: int|
        0 <= i < j < candidates.len() ==> candidates[i].address < candidates[j].address
}

// ─── What each mode and type means ──────────────────────────────────────────

/// The candidate as if it were of one type alone.
pub open spec fn alone(c: CandidateView, t: ValueType) -> CandidateView {
    CandidateView { types: t.flag(), ..c }
}

/// A candidate of one type passes `Increased` exactly where the number that is read now is
/// greater than the one remembered, as that type has it, and `Decreased` exactly where it is
/// less.
pub proof fn comparisons_are_numeric(c: CandidateView, current: Seq<u8>, value: Double)
    ensures
        ({
            let (was, is) = (bytes::le_value(c.last_value.take(4)), bytes::le_value(
                current.take(4),
            ));
            let before = if was < 0x8000_0000 { was as int } else { was - 0x1_0000_0000 };
            let now = if is < 0x8000_0000 { is as int } else { is - 0x1_0000_0000 };
            &&& passes(alone(c, ValueType::I32), current, value, FilterMode::Increased) <==> now
                > before
            &&& passes(alone(c, ValueType::I32), current, value, FilterMode::Decreased) <==> now
                < before
            &&& passes(alone(c, ValueType::U32), current, value, FilterMode::Increased) <==> is
                > was
            &&& passes(alone(c, ValueType::U32), current, value, FilterMode::Decreased) <==> is
                < was
            &&& passes(alone(c, ValueType::F32), current, value, FilterMode::Increased)
                <==> number::less_32(was as u32, is as u32)
            &&& passes(alone(c, ValueType::F32), current, value, FilterMode::Decreased)
                <==> number::less_32(is as u32, was as u32)
        }),
        ({
            let (was, is) = (bytes::le_value(c.last_value.take(8)), bytes::le_value(
                current.take(8),
            ));
            let before = if was < 0x8000_0000_0000_0000 {
                was as int
            } else {
                was - 0x1_0000_0000_0000_0000
            };
            let now = if is < 0x8000_0000_0000_0000 {
                is as int
            } else {
                is - 0x1_0000_0000_0000_0000
            };
            let (x, y) = (Double { bits: was as u64 }, Double { bits: is as u64 });
            &&& passes(alone(c, ValueType::I64), current, value, FilterMode::Increased) <==> now
                > before
            &&& passes(alone(c, ValueType::I64), current, value, FilterMode::Decreased) <==> now
                < before
            &&& passes(alone(c, ValueType::U64), current, value, FilterMode::Increased) <==> is
                > was
            &&& passes(alone(c, ValueType::U64), current, value, FilterMode::Decreased) <==> is
                < was
            &&& passes(alone(c, ValueType::F64), current, value, FilterMode::Increased)
                <==> number::less_64(x, y)
            &&& passes(alone(c, ValueType::F64), current, value, FilterMode::Decreased)
                <==> number::less_64(y, x)
        }),
{
}

/// A candidate of several types passes `Exact`, `Increased` or `Decreased` exactly where it
/// would pass as one of them alone, and `NotEqual` exactly where it would pass as each of them.
pub proof fn several_types_pass_where_one_does(
    c: CandidateView,
    current: Seq<u8>,
    value: Double,
    mode: FilterMode,
)
    ensures
        mode == FilterMode::Exact || mode == FilterMode::Increased || mode
            == FilterMode::Decreased ==> (passes(c, current, value, mode) <==> exists|t: ValueType|
            t != ValueType::Auto && c.types.meets(#[trigger] t.flag()) && passes(
                alone(c, t),
                current,
                value,
                mode,
            )),
        mode == FilterMode::NotEqual ==> (passes(c, current, value, mode) <==> forall|t: ValueType|
            t != ValueType::Auto && c.types.meets(#[trigger] t.flag()) ==> passes(
                alone(c, t),
                current,
                value,
                mode,
            )),
{
    let patterns = candidate::value_patterns(value);
    let names = seq![
        ValueType::I32,
        ValueType::U32,
        ValueType::F32,
        ValueType::I64,
        ValueType::U64,
        ValueType::F64,
    ];
    if mode == FilterMode::Increased || mode == FilterMode::Decreased {
        let (a, b) = if mode == FilterMode::Increased {
            (c.last_value, current)
        } else {
            (current, c.last_value)
        };
        assert forall|k: int| 0 <= k < 6 implies passes(
            alone(c, #[trigger] names[k]),
            current,
            value,
            mode,
        ) == less_in_some(a, b, names[k].flag()) by {}
        if passes(c, current, value, mode) {
            assert(exists|k: int|
                0 <= k < 6 && c.types.meets((#[trigger] names[k]).flag()) && less_in_some(
                    a,
                    b,
                    names[k].flag(),
                )) by {
                assert(names[0].flag().int32 && names[1].flag().uint32 && names[2].flag().float32
                    && names[3].flag().int64 && names[4].flag().uint64 && names[5].flag().float64);
                if c.types.int32 && less_in_some(a, b, ValueType::I32.flag()) {
                    assert(c.types.meets(names[0].flag()));
                } else if c.types.uint32 && less_in_some(a, b, ValueType::U32.flag()) {
                    assert(c.types.meets(names[1].flag()));
                } else if c.types.float32 && less_in_some(a, b, ValueType::F32.flag()) {
                    assert(c.types.meets(names[2].flag()));
                } else if c.types.int64 && less_in_some(a, b, ValueType::I64.flag()) {
                    assert(c.types.meets(names[3].flag()));
                } else if c.types.uint64 && less_in_some(a, b, ValueType::U64.flag()) {
                    assert(c.types.meets(names[4].flag()));
                } else {
                    assert(c.types.meets(names[5].flag()));
                }
            }
            let k = choose|k: int|
                0 <= k < 6 && c.types.meets((#[trigger] names[k]).flag()) && less_in_some(
                    a,
                    b,
                    names[k].flag(),
                );
            assert(passes(alone(c, names[k]), current, value, mode));
        }
    } else if mode == FilterMode::Exact || mode == FilterMode::NotEqual {
        lemma_hits_by_type(c.types, current, patterns);
    }
}

proof fn lemma_hits_by_type(types: TypeFlags, current: Seq<u8>, patterns: Seq<PatternView>)
    ensures
        hits_any(current, patterns, types) <==> exists|t: ValueType|
            t != ValueType::Auto && types.meets(#[trigger] t.flag()) && hits_any(
                current,
                patterns,
                t.flag(),
            ),
{
    if hits_any(current, patterns, types) {
        let i = choose|i: int| 0 <= i < patterns.len() && #[trigger] hits(current, patterns[i], types);
        let f = patterns[i].flags;
        let t = if f.int32 && types.int32 {
            ValueType::I32
        } else if f.uint32 && types.uint32 {
            ValueType::U32
        } else if f.float32 && types.float32 {
            ValueType::F32
        } else if f.int64 && types.int64 {
            ValueType::I64
        } else if f.uint64 && types.uint64 {
            ValueType::U64
        } else {
            ValueType::F64
        };
        assert(types.meets(t.flag()) && f.meets(t.flag()));
        assert(hits(current, patterns[i], t.flag()));
    }
    if exists|t: ValueType|
        t != ValueType::Auto && types.meets(#[trigger] t.flag()) && hits_any(
            current,
            patterns,
            t.flag(),
        ) {
        let t = choose|t: ValueType|
            t != ValueType::Auto && types.meets(#[trigger] t.flag()) && hits_any(
                current,
                patterns,
                t.flag(),
            );
        let i = choose|i: int|
            0 <= i < patterns.len() && #[trigger] hits(current, patterns[i], t.flag());
        assert(patterns[i].flags.meets(types));
        assert(hits(current, patterns[i], types));
    }
}

/// A candidate of one type passes `Exact` exactly where the number that is read now is the
/// value, as that type has it, and `NotEqual` exactly where it is not. Single precision counts
/// only where it comes close to the value, and double precision only where the eight bytes are
/// not those of the value as an integer.
pub proof fn exact_means_the_value(c: CandidateView, current: Seq<u8>, value: Double, t: ValueType)
    requires
        current.len() == 8,
        t != ValueType::Auto,
    ensures
        passes(alone(c, t), current, value, FilterMode::Exact) <==> {
            let four = bytes::le_value(current.take(4));
            let eight = bytes::le_value(current.take(8));
            match t {
                ValueType::I32 => value.whole() && value.truncated() == if four < 0x8000_0000 {
                    four as int
                } else {
                    four - 0x1_0000_0000
                },
                ValueType::U32 => value.whole() && value.truncated() == four,
                ValueType::F32 => value.close_to_single() && value.single() == four,
                ValueType::I64 => value.whole() && value.truncated() == if eight
                    < 0x8000_0000_0000_0000 {
                    eight as int
                } else {
                    eight - 0x1_0000_0000_0000_0000
                },
                ValueType::U64 => value.whole() && value.truncated() == eight,
                _ => value.bits == eight && !(value.whole() && (value.truncated() == value.bits
                    || value.truncated() < 0 && value.truncated() + 0x1_0000_0000_0000_0000
                    == value.bits)),
            }
        },
        passes(alone(c, t), current, value, FilterMode::NotEqual) <==> !passes(
            alone(c, t),
            current,
            value,
            FilterMode::Exact,
        ),
{
    let patterns = candidate::value_patterns(value);
    let flag = t.flag();
    let four = bytes::le_value(current.take(4));
    let eight = bytes::le_value(current.take(8));
    candidate::patterns_read_back(value);
    candidate::pattern_sizes(value);
    candidate::types_that_hold_a_number_have_its_pattern(value);
    vstd::arithmetic::power2::lemma2_to64();
    vstd::arithmetic::power2::lemma2_to64_rest();
    bytes::le_value_bound(current.take(4));
    bytes::le_value_bound(current.take(8));
    if hits_any(current, patterns, flag) {
        let i = choose|i: int| 0 <= i < patterns.len() && #[trigger] hits(current, patterns[i], flag);
        let p = patterns[i];
        assert(p.size == 4 || p.size == 8);
        assert(current.take(p.size as int) == p.bytes.take(p.size as int));
        assert(candidate::value_patterns(value)[i] == p);
        if t == ValueType::F64 {
            candidate::double_stands_apart(value, i);
        }
    }
    if t == ValueType::F64 && value.bits == eight && !(value.whole() && (value.truncated()
        == value.bits || value.truncated() < 0 && value.truncated() + 0x1_0000_0000_0000_0000
        == value.bits)) {
        let i = candidate::double_has_its_pattern(value);
        lemma_same_number(current.take(8), patterns[i].bytes.take(8));
        assert(hits(current, patterns[i], flag));
    } else if candidate::stands_for(patterns, t) && t != ValueType::F64 {
        let i = choose|i: int|
            0 <= i < patterns.len() && (#[trigger] patterns[i]).flags.meets(flag);
        let p = patterns[i];
        let n = p.size as int;
        assert(candidate::value_patterns(value)[i] == p);
        assert(p.bytes.len() == 8);
        bytes::le_value_bound(p.bytes.take(4));
        bytes::le_value_bound(p.bytes.take(8));
        if bytes::le_value(current.take(n)) == bytes::le_value(p.bytes.take(n)) {
            lemma_same_number(current.take(n), p.bytes.take(n));
            assert(hits(current, p, flag));
        }
    }
}

proof fn lemma_same_number(a: Seq<u8>, b: Seq<u8>)
    requires
        a.len() == b.len(),
        bytes::le_value(a) == bytes::le_value(b),
    ensures
        a == b,
{
    bytes::le_value_round_trip(a);
    bytes::le_value_round_trip(b);
}

/// A candidate passes `Unchanged` exactly where none of the bytes that are read at it differs
/// from what was remembered, eight bytes for a type of eight and four otherwise, and `Changed`
/// exactly where one does.
pub proof fn changed_means_other_bytes(c: CandidateView, current: Seq<u8>, value: Double)
    requires
        current.len() == 8,
        c.last_value.len() == 8,
    ensures
        passes(c, current, value, FilterMode::Unchanged) <==> forall|i: int|
            0 <= i < (if c.types.int64 || c.types.uint64 || c.types.float64 { 8int } else { 4 })
                ==> #[trigger] current[i] == c.last_value[i],
        passes(c, current, value, FilterMode::Changed) <==> !passes(
            c,
            current,
            value,
            FilterMode::Unchanged,
        ),
{
    let n = read_width(c.types) as int;
    let (a, b) = (current.take(n), c.last_value.take(n));
    if forall|i: int| 0 <= i < n ==> #[trigger] current[i] == c.last_value[i] {
        assert(a =~= b);
    } else {
        let i = choose|i: int| 0 <= i < n && #[trigger] current[i] != c.last_value[i];
        assert(a[i] != b[i]);
    }
}

/// After `Exact` a candidate keeps exactly those of its types as which it would pass alone.
pub proof fn exact_keeps_the_types_that_match(
    c: CandidateView,
    current: Seq<u8>,
    value: Double,
    t: ValueType,
)
    requires
        passes(c, current, value, FilterMode::Exact),
        t != ValueType::Auto,
    ensures
        confirmed(c, current, value, FilterMode::Exact).types.meets(t.flag()) <==> c.types.meets(
            t.flag(),
        ) && passes(alone(c, t), current, value, FilterMode::Exact),
{
    let patterns = candidate::value_patterns(value);
    lemma_hit_types_by_type(current, patterns, c.types, t);
    lemma_hits_by_type(c.types, current, patterns);
    let u = choose|u: ValueType|
        u != ValueType::Auto && c.types.meets(#[trigger] u.flag()) && hits_any(
            current,
            patterns,
            u.flag(),
        );
    lemma_hit_types_by_type(current, patterns, c.types, u);
}

proof fn lemma_hit_types_by_type(
    current: Seq<u8>,
    patterns: Seq<PatternView>,
    types: TypeFlags,
    t: ValueType,
)
    requires
        t != ValueType::Auto,
    ensures
        hit_types(current, patterns, types).meets(t.flag()) <==> types.meets(t.flag()) && hits_any(
            current,
            patterns,
            t.flag(),
        ),
    decreases patterns.len(),
{
    if patterns.len() > 0 {
        let rest = patterns.drop_last();
        let p = patterns.last();
        lemma_hit_types_by_type(current, rest, types, t);
        if hits_any(current, rest, t.flag()) {
            let i = choose|i: int|
                0 <= i < rest.len() && #[trigger] hits(current, rest[i], t.flag());
            assert(hits(current, patterns[i], t.flag()));
        }
        if hits(current, p, t.flag()) {
            assert(hits(current, patterns[patterns.len() - 1], t.flag()));
        }
        if hits_any(current, patterns, t.flag()) {
            let i = choose|i: int|
                0 <= i < patterns.len() && #[trigger] hits(current, patterns[i], t.flag());
            if i < rest.len() {
                assert(hits(current, rest[i], t.flag()));
            }
        }
    }
}

/// Every name of a mode stands for it, and every text that is such a name but for its case, or
/// for `_` in place of `-`, stands for it too.
pub proof fn modes_go_by_their_names(s: Seq<char>)
    ensures
        ({
            ||| loosened(s) == "exact"@
            ||| loosened(s) == "eq"@
            ||| loosened(s) == "="@
        }) ==> mode_named(s) == Some(FilterMode::Exact),
        ({
            ||| loosened(s) == "not-equal"@
            ||| loosened(s) == "ne"@
            ||| loosened(s) == "!="@
            ||| loosened(s) == "neq"@
        }) ==> mode_named(s) == Some(FilterMode::NotEqual),
        ({
            ||| loosened(s) == "increased"@
            ||| loosened(s) == "inc"@
            ||| loosened(s) == ">"@
            ||| loosened(s) == "gt"@
        }) ==> mode_named(s) == Some(FilterMode::Increased),
        ({
            ||| loosened(s) == "decreased"@
            ||| loosened(s) == "dec"@
            ||| loosened(s) == "<"@
            ||| loosened(s) == "lt"@
        }) ==> mode_named(s) == Some(FilterMode::Decreased),
        ({
            ||| loosened(s) == "changed"@
            ||| loosened(s) == "ch"@
            ||| loosened(s) == "diff"@
        }) ==> mode_named(s) == Some(FilterMode::Changed),
        ({
            ||| loosened(s) == "unchanged"@
            ||| loosened(s) == "unch"@
            ||| loosened(s) == "same"@
        }) ==> mode_named(s) == Some(FilterMode::Unchanged),
        mode_named(s) is Some ==> {
            ||| loosened(s) == "exact"@
            ||| loosened(s) == "eq"@
            ||| loosened(s) == "="@
            ||| loosened(s) == "not-equal"@
            ||| loosened(s) == "ne"@
            ||| loosened(s) == "!="@
            ||| loosened(s) == "neq"@
            ||| loosened(s) == "increased"@
            ||| loosened(s) == "inc"@
            ||| loosened(s) == ">"@
            ||| loosened(s) == "gt"@
            ||| loosened(s) == "decreased"@
            ||| loosened(s) == "dec"@
            ||| loosened(s) == "<"@
            ||| loosened(s) == "lt"@
            ||| loosened(s) == "changed"@
            ||| loosened(s) == "ch"@
            ||| loosened(s) == "diff"@
            ||| loosened(s) == "unchanged"@
            ||| loosened(s) == "unch"@
            ||| loosened(s) == "same"@
        },
{
    reveal_strlit("exact");
    assert("exact"@.len() == 5);
    reveal_strlit("eq");
    assert("eq"@.len() == 2);
    reveal_strlit("=");
    assert("="@.len() == 1);
    reveal_strlit("not-equal");
    assert("not-equal"@.len() == 9);
    reveal_strlit("ne");
    assert("ne"@.len() == 2);
    reveal_strlit("!=");
    assert("!="@.len() == 2);
    reveal_strlit("neq");
    assert("neq"@.len() == 3);
    reveal_strlit("increased");
    assert("increased"@.len() == 9);
    reveal_strlit("inc");
    assert("inc"@.len() == 3);
    reveal_strlit(">");
    assert(">"@.len() == 1);
    reveal_strlit("gt");
    assert("gt"@.len() == 2);
    reveal_strlit("decreased");
    assert("decreased"@.len() == 9);
    reveal_strlit("dec");
    assert("dec"@.len() == 3);
    reveal_strlit("<");
    assert("<"@.len() == 1);
    reveal_strlit("lt");
    assert("lt"@.len() == 2);
    reveal_strlit("changed");
    assert("changed"@.len() == 7);
    reveal_strlit("ch");
    assert("ch"@.len() == 2);
    reveal_strlit("diff");
    assert("diff"@.len() == 4);
    reveal_strlit("unchanged");
    assert("unchanged"@.len() == 9);
    reveal_strlit("unch");
    assert("unch"@.len() == 4);
    reveal_strlit("same");
    assert("same"@.len() == 4);
    assert("eq"@[0] != "ne"@[0]);
    assert("eq"@[0] != "!="@[0]);
    assert("eq"@[0] != "gt"@[0]);
    assert("eq"@[0] != "lt"@[0]);
    assert("eq"@[0] != "ch"@[0]);
    assert("="@[0] != ">"@[0]);
    assert("="@[0] != "<"@[0]);
    assert("not-equal"@[0] != "increased"@[0]);
    assert("not-equal"@[0] != "decreased"@[0]);
    assert("not-equal"@[0] != "unchanged"@[0]);
    assert("ne"@[0] != "!="@[0]);
    assert("ne"@[0] != "gt"@[0]);
    assert("ne"@[0] != "lt"@[0]);
    assert("ne"@[0] != "ch"@[0]);
    assert("!="@[0] != "gt"@[0]);
    assert("!="@[0] != "lt"@[0]);
    assert("!="@[0] != "ch"@[0]);
    assert("neq"@[0] != "inc"@[0]);
    assert("neq"@[0] != "dec"@[0]);
    assert("increased"@[0] != "decreased"@[0]);
    assert("increased"@[0] != "unchanged"@[0]);
    assert("inc"@[0] != "dec"@[0]);
    assert(">"@[0] != "<"@[0]);
    assert("gt"@[0] != "lt"@[0]);
    assert("gt"@[0] != "ch"@[0]);
    assert("decreased"@[0] != "unchanged"@[0]);
    assert("lt"@[0] != "ch"@[0]);
    assert("diff"@[0] != "unch"@[0]);
    assert("diff"@[0] != "same"@[0]);
    assert("unch"@[0] != "same"@[0]);
}

/// A mode's name may be written in any case, and with `_` for `-`.
pub proof fn mode_names_are_loose(s: Seq<char>, i: int)
    requires
        0 <= i < s.len(),
    ensures
        loosened(s).len() == s.len(),
        s[i] == '_' ==> loosened(s)[i] == '-',
        s[i] != '_' ==> loosened(s)[i] == text::lower(s[i]),
{
}

/// What becomes of a candidate that a pass keeps: it stays where it is, is confirmed once more
/// as far as the counter goes, and remembers what was read, followed by zeros.
pub open spec fn kept_from(after: CandidateView, before: CandidateView, buffer: Seq<u8>) -> bool {
    &&& after.address == before.address
    &&& after.confidence == if before.confidence < 255 {
        before.confidence + 1
    } else {
        255
    }
    &&& after.last_value.len() == 8
    &&& forall|i: int|
        0 <= i < 8 ==> #[trigger] after.last_value[i] == if i < buffer.len() {
            buffer[i]
        } else {
            0
        }
}

/// The candidate at `i` could be read and meets the mode, and `after` is what it becomes.
pub open spec fn kept_of(
    after: CandidateView,
    candidates: Seq<CandidateView>,
    outcomes: Seq<Result<(nat, Seq<u8>), Seq<char>>>,
    value: Double,
    mode: FilterMode,
    i: int,
) -> bool {
    &&& 0 <= i < candidates.len()
    &&& outcomes[i] is Ok
    &&& passes(candidates[i], padded(outcomes[i]->Ok_0.1), value, mode)
    &&& kept_from(after, candidates[i], outcomes[i]->Ok_0.1)
}

/// A pass keeps every candidate that could be read and meets the mode.
pub proof fn passes_keep_what_meets_the_mode(
    candidates: Seq<CandidateView>,
    outcomes: Seq<Result<(nat, Seq<u8>), Seq<char>>>,
    value: Double,
    mode: FilterMode,
    i: int,
) -> (k: int)
    requires
        outcomes.len() >= candidates.len(),
        0 <= i < candidates.len(),
        outcomes[i] is Ok,
        passes(candidates[i], padded(outcomes[i]->Ok_0.1), value, mode),
    ensures
        0 <= k < survivors(candidates, outcomes, value, mode).len(),
        kept_of(
            survivors(candidates, outcomes, value, mode)[k],
            candidates,
            outcomes,
            value,
            mode,
            i,
        ),
    decreases candidates.len(),
{
    let rest = candidates.drop_last();
    let before = survivors(rest, outcomes, value, mode);
    if i < rest.len() {
        assert(rest[i] == candidates[i]);
        passes_keep_what_meets_the_mode(rest, outcomes, value, mode, i)
    } else {
        before.len() as int
    }
}

/// A pass keeps no candidate that could not be read or does not meet the mode.
pub proof fn passes_keep_nothing_else(
    candidates: Seq<CandidateView>,
    outcomes: Seq<Result<(nat, Seq<u8>), Seq<char>>>,
    value: Double,
    mode: FilterMode,
    k: int,
) -> (i: int)
    requires
        outcomes.len() >= candidates.len(),
        0 <= k < survivors(candidates, outcomes, value, mode).len(),
    ensures
        kept_of(
            survivors(candidates, outcomes, value, mode)[k],
            candidates,
            outcomes,
            value,
            mode,
            i,
        ),
    decreases candidates.len(),
{
    let rest = candidates.drop_last();
    let before = survivors(rest, outcomes, value, mode);
    if k < before.len() {
        let i = passes_keep_nothing_else(rest, outcomes, value, mode, k);
        assert(candidates[i] == rest[i]);
        i
    } else {
        candidates.len() - 1
    }
}

/// Each candidate is read once, at its address, in order: eight bytes where one of its types has
/// eight, and four otherwise.
pub proof fn candidates_are_read_where_they_are(
    events: Seq<MemEvent>,
    pid: u32,
    candidates: Seq<CandidateView>,
    i: int,
)
    requires
        reads_each(events, pid, candidates),
        0 <= i < candidates.len(),
    ensures
        events.len() == candidates.len(),
        events[i] is Read,
        events[i]->Read_pid == pid,
        events[i]->Read_address == candidates[i].address,
        events[i]->wanted == if candidates[i].types.int64 || candidates[i].types.uint64
            || candidates[i].types.float64 {
            8nat
        } else {
            4
        },
        outcomes(events)[i] == events[i]->Read_outcome,
{
    assert(events[i] is Read);
}

/// What is read is filled up with zeros to eight bytes.
pub proof fn reads_are_filled_up(s: Seq<u8>, i: int)
    requires
        0 <= i < 8,
    ensures
        padded(s).len() == 8,
        padded(s)[i] == if i < s.len() {
            s[i]
        } else {
            0
        },
{
}

/// A mode that needs no value does not look at one: whatever it is, the same candidates are kept.
pub proof fn modes_without_a_value_ignore_it(
    c: CandidateView,
    current: Seq<u8>,
    one: Double,
    another: Double,
    mode: FilterMode,
)
    requires
        mode == FilterMode::Increased || mode == FilterMode::Decreased || mode
            == FilterMode::Changed || mode == FilterMode::Unchanged,
    ensures
        !mode.takes_value(),
        FilterMode::Exact.takes_value(),
        FilterMode::NotEqual.takes_value(),
        passes(c, current, one, mode) == passes(c, current, another, mode),
        confirmed(c, current, one, mode).types == confirmed(c, current, another, mode).types,
        confirmed(c, current, one, mode).types == c.types,
{
}

} // verus!
