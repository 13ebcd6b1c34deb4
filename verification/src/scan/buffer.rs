//! Searching a buffer for byte patterns at aligned offsets.

use crate::bytes;
use crate::bytes::from_bytes;
use crate::number;
use crate::number::is_near_32;
use vstd::prelude::*;
use vstd::slice::slice_subrange;

verus! {

/// The numbers below `n` that `good` accepts, in ascending order.
pub open spec fn offsets(good: spec_fn(int) -> bool, n: nat) -> Seq<int>
    decreases n,
{
    if n == 0 {
        Seq::empty()
    } else {
        let before = offsets(good, (n - 1) as nat);
        if good(n - 1) {
            before.push(n - 1)
        } else {
            before
        }
    }
}

/// The offsets that a list holds.
pub open spec fn ints(v: Seq<usize>) -> Seq<int> {
    Seq::new(v.len(), |i: int| v[i] as int)
}

/// The pattern stands in the buffer at offset `o`.
pub open spec fn stands_at(buffer: Seq<u8>, pattern: Seq<u8>, o: int) -> bool {
    0 <= o && o + pattern.len() <= buffer.len() && buffer.subrange(o, o + pattern.len()) == pattern
}

/// A single-precision number near `target` stands in the buffer at offset `o`.
pub open spec fn near_at(buffer: Seq<u8>, target: u32, o: int) -> bool {
    0 <= o && o + 4 <= buffer.len() && number::near_32(
        bytes::le_value(buffer.subrange(o, o + 4)) as u32,
        target,
    )
}

/// Every multiple of `alignment` at which the pattern stands.
pub open spec fn aligned_hits(buffer: Seq<u8>, pattern: Seq<u8>, alignment: nat) -> Seq<int> {
    offsets(|o: int| o % alignment as int == 0 && stands_at(buffer, pattern, o), buffer.len() + 1)
}

/// Every multiple of `alignment` at which a number near `target` stands.
pub open spec fn aligned_near(buffer: Seq<u8>, target: u32, alignment: nat) -> Seq<int> {
    offsets(|o: int| o % alignment as int == 0 && near_at(buffer, target, o), buffer.len() + 1)
}

/// A listed offset is below the bound and accepted, and every such offset is listed.
pub proof fn offsets_are_exact(good: spec_fn(int) -> bool, n: nat)
    ensures
        forall|k: int|
            0 <= k < offsets(good, n).len() ==> 0 <= #[trigger] offsets(good, n)[k] < n && good(
                offsets(good, n)[k],
            ),
        forall|o: int| 0 <= o < n && #[trigger] good(o) ==> offsets(good, n).contains(o),
        forall|i: int, j: int|
            0 <= i < j < offsets(good, n).len() ==> offsets(good, n)[i] < offsets(good, n)[j],
    decreases n,
{
    if n > 0 {
        let before = offsets(good, (n - 1) as nat);
        let after = offsets(good, n);
        offsets_are_exact(good, (n - 1) as nat);
        assert forall|o: int| 0 <= o < n && #[trigger] good(o) implies after.contains(o) by {
            if o < n - 1 {
                let k = choose|k: int| 0 <= k < before.len() && before[k] == o;
                assert(after[k] == o);
            } else {
                assert(after.last() == o);
            }
        }
    }
}

/// Nothing is listed between `a` and `b`.
pub proof fn lemma_nothing_between(good: spec_fn(int) -> bool, a: nat, b: nat)
    requires
        a <= b,
        forall|o: int| a <= o < b ==> !#[trigger] good(o),
    ensures
        offsets(good, b) == offsets(good, a),
    decreases b,
{
    if a < b {
        lemma_nothing_between(good, a, (b - 1) as nat);
    }
}

/// Each offset moved up by `by`.
pub open spec fn shifted(s: Seq<int>, by: int) -> Seq<int> {
    Seq::new(s.len(), |i: int| s[i] + by)
}

/// The offsets below `a + b` are those below `a` and those counted from `a`.
pub proof fn lemma_offsets_split(good: spec_fn(int) -> bool, a: nat, b: nat)
    ensures
        offsets(good, a + b) == offsets(good, a) + shifted(
            offsets(|p: int| good(a + p), b),
            a as int,
        ),
    decreases b,
{
    let late = |p: int| good(a + p);
    if b == 0 {
        assert(shifted(offsets(late, 0), a as int) =~= Seq::empty());
        assert(offsets(good, a) + shifted(offsets(late, 0), a as int) =~= offsets(good, a));
    } else {
        lemma_offsets_split(good, a, (b - 1) as nat);
        assert(late(b - 1) == good(a + b - 1));
        let before = offsets(late, (b - 1) as nat);
        if good(a + b - 1) {
            assert(shifted(before.push(b - 1), a as int) =~= shifted(before, a as int).push(
                a + b - 1,
            ));
        }
        assert(offsets(good, a + b) =~= offsets(good, a) + shifted(offsets(late, b), a as int));
    }
}

/// The next multiple after a multiple is one step on.
proof fn lemma_between_multiples(base: int, step: int, o: int)
    requires
        step > 0,
        base % step == 0,
        base < o < base + step,
    ensures
        o % step != 0,
{
    vstd::arithmetic::div_mod::lemma_fundamental_div_mod(base, step);
    let q = base / step;
    assert(o == q * step + (o - base)) by (nonlinear_arith)
        requires
            base == step * q,
    ;
    vstd::arithmetic::div_mod::lemma_fundamental_div_mod_converse(o, step, q, o - base);
}

proof fn lemma_next_multiple(base: int, step: int)
    requires
        step > 0,
        base % step == 0,
    ensures
        (base + step) % step == 0,
{
    vstd::arithmetic::div_mod::lemma_mod_add_multiples_vanish(base, step);
}

/// What a search looks for.
#[derive(Clone, Copy)]
enum Needle<'a> {
    /// Four bytes with this value.
    Word(u32),
    /// Eight bytes with this value.
    Long(u64),
    /// These bytes.
    Bytes(&'a [u8]),
    /// A single-precision number near the one with these bits.
    Near(u32),
}

impl<'a> Needle<'a> {
    spec fn width(self) -> nat {
        match self {
            Needle::Word(_) => 4,
            Needle::Long(_) => 8,
            Needle::Bytes(b) => b@.len(),
            Needle::Near(_) => 4,
        }
    }

    spec fn at(self, buffer: Seq<u8>, o: int) -> bool {
        &&& 0 <= o
        &&& o + self.width() <= buffer.len()
        &&& match self {
            Needle::Word(n) => bytes::le_value(buffer.subrange(o, o + 4)) == n,
            Needle::Long(n) => bytes::le_value(buffer.subrange(o, o + 8)) == n,
            Needle::Bytes(b) => buffer.subrange(o, o + b@.len()) == b@,
            Needle::Near(t) => number::near_32(
                bytes::le_value(buffer.subrange(o, o + 4)) as u32,
                t,
            ),
        }
    }

    fn len(&self) -> (r: usize)
        ensures
            r == self.width(),
    {
        match self {
            Needle::Word(_) => 4,
            Needle::Long(_) => 8,
            Needle::Bytes(b) => b.len(),
            Needle::Near(_) => 4,
        }
    }

    fn test(&self, buffer: &[u8], o: usize) -> (r: bool)
        requires
            o + self.width() <= buffer@.len(),
        ensures
            r == self.at(buffer@, o as int),
    {
        let w: usize = self.len();
        assert(o + w <= buffer.len());
        let window = slice_subrange(buffer, o, o + w);
        assert(window@.take(w as int) =~= window@);
        match self {
            Needle::Word(n) => from_bytes(window, 4) == *n as u64,
            Needle::Long(n) => from_bytes(window, 8) == *n,
            Needle::Bytes(b) => same(window, b),
            Needle::Near(t) => is_near_32(from_bytes(window, 4) as u32, *t),
        }
    }
}

/// Whether two slices hold the same bytes.
pub fn same(a: &[u8], b: &[u8]) -> (r: bool)
    ensures
        r == (a@ == b@),
{
    if a.len() != b.len() {
        return false;
    }
    let mut i: usize = 0;
    while i < a.len()
        invariant
            i <= a@.len(),
            a@.len() == b@.len(),
            forall|k: int| 0 <= k < i ==> a@[k] == b@[k],
        decreases a@.len() - i,
    {
        if a[i] != b[i] {
            return false;
        }
        i += 1;
    }
    assert(a@ =~= b@);
    true
}

/// Every multiple of `alignment` at which the needle is found.
fn search(buffer: &[u8], needle: &Needle, alignment: usize) -> (r: Vec<usize>)
    requires
        alignment > 0,
    ensures
        ints(r@) == offsets(
            |o: int| o % alignment as int == 0 && needle.at(buffer@, o),
            buffer@.len() + 1,
        ),
        forall|k: int| 0 <= k < r@.len() ==> r@[k] + needle.width() <= buffer@.len(),
{
    let ghost good = |o: int| o % alignment as int == 0 && needle.at(buffer@, o);
    let mut results: Vec<usize> = Vec::new();
    let w: usize = needle.len();
    let len: usize = buffer.len();
    let mut offset: usize = 0;
    assert(ints(results@) =~= offsets(good, 0));
    assert(0int % alignment as int == 0) by (nonlinear_arith)
        requires
            alignment > 0,
    ;
    if w > len {
        proof {
            lemma_nothing_between(good, 0, (len + 1) as nat);
        }
        return results;
    }
    let last: usize = len - w;
    while offset <= last
        invariant
            offset % alignment == 0,
            alignment > 0,
            w == needle.width(),
            len == buffer@.len(),
            len == buffer.len(),
            last + w == len,
            good == (|o: int| o % alignment as int == 0 && needle.at(buffer@, o)),
            offset <= len + 1,
            ints(results@) == offsets(good, offset as nat),
            forall|k: int| 0 <= k < results@.len() ==> results@[k] + w <= len,
        decreases len + 1 - offset,
    {
        let ghost before = ints(results@);
        let ghost base = offset as int;
        if needle.test(buffer, offset) {
            results.push(offset);
            assert(ints(results@) =~= before.push(offset as int));
        }
        assert(ints(results@) == offsets(good, (offset + 1) as nat));
        if alignment > len - offset {
            proof {
                assert forall|o: int| base + 1 <= o < len + 1 implies !#[trigger] good(o) by {
                    lemma_between_multiples(base, alignment as int, o);
                }
                lemma_nothing_between(good, (base + 1) as nat, (len + 1) as nat);
            }
            return results;
        }
        proof {
            assert forall|o: int| base + 1 <= o < base + alignment implies !#[trigger] good(o) by {
                lemma_between_multiples(base, alignment as int, o);
            }
            lemma_nothing_between(good, (base + 1) as nat, (base + alignment) as nat);
            lemma_next_multiple(base, alignment as int);
        }
        offset += alignment;
    }
    proof {
        lemma_nothing_between(good, offset as nat, (len + 1) as nat);
    }
    results
}

/// Bytes with the same little-endian value are the same.
proof fn lemma_le_injective(a: Seq<u8>, b: Seq<u8>)
    requires
        a.len() == b.len(),
    ensures
        (bytes::le_value(a) == bytes::le_value(b)) == (a == b),
{
    bytes::le_value_round_trip(a);
    bytes::le_value_round_trip(b);
}

/// Two tests that agree below `n` list the same offsets.
pub proof fn lemma_offsets_agree(f: spec_fn(int) -> bool, g: spec_fn(int) -> bool, n: nat)
    requires
        forall|o: int| 0 <= o < n ==> #[trigger] f(o) == g(o),
    ensures
        offsets(f, n) == offsets(g, n),
    decreases n,
{
    if n > 0 {
        lemma_offsets_agree(f, g, (n - 1) as nat);
    }
}

/// Searches for four bytes by their value.
pub fn scan_4byte_scalar(buffer: &[u8], needle: u32, alignment: usize) -> (r: Vec<usize>)
    requires
        alignment > 0,
    ensures
        ints(r@) == offsets(
            |o: int|
                o % alignment as int == 0 && o + 4 <= buffer@.len() && bytes::le_value(
                    buffer@.subrange(o, o + 4),
                ) == needle,
            buffer@.len() + 1,
        ),
        forall|k: int| 0 <= k < r@.len() ==> r@[k] + 4 <= buffer@.len(),
{
    let n = Needle::Word(needle);
    let r = search(buffer, &n, alignment);
    proof {
        lemma_offsets_agree(
            |o: int| o % alignment as int == 0 && n.at(buffer@, o),
            |o: int|
                o % alignment as int == 0 && o + 4 <= buffer@.len() && bytes::le_value(
                    buffer@.subrange(o, o + 4),
                ) == needle,
            buffer@.len() + 1,
        );
    }
    r
}

/// Searches for a pattern of four bytes.
pub fn scan_4byte_aligned(buffer: &[u8], pattern: &[u8], alignment: usize) -> (r: Vec<usize>)
    requires
        pattern@.len() == 4,
        alignment > 0,
    ensures
        ints(r@) == aligned_hits(buffer@, pattern@, alignment as nat),
        forall|k: int| 0 <= k < r@.len() ==> r@[k] + 4 <= buffer@.len(),
{
    assert(pattern@.take(4) =~= pattern@);
    let needle: u32 = from_bytes(pattern, 4) as u32;
    let r = scan_4byte_scalar(buffer, needle, alignment);
    proof {
        let f = |o: int|
            o % alignment as int == 0 && o + 4 <= buffer@.len() && bytes::le_value(
                buffer@.subrange(o, o + 4),
            ) == needle;
        let g = |o: int| o % alignment as int == 0 && stands_at(buffer@, pattern@, o);
        assert forall|o: int| 0 <= o < buffer@.len() + 1 implies #[trigger] f(o) == g(o) by {
            if o + 4 <= buffer@.len() {
                lemma_le_injective(buffer@.subrange(o, o + 4), pattern@);
            }
        }
        lemma_offsets_agree(f, g, buffer@.len() + 1);
    }
    r
}

/// Searches for a pattern of eight bytes.
pub fn scan_8byte_aligned(buffer: &[u8], pattern: &[u8], alignment: usize) -> (r: Vec<usize>)
    requires
        pattern@.len() == 8,
        alignment > 0,
    ensures
        ints(r@) == aligned_hits(buffer@, pattern@, alignment as nat),
        forall|k: int| 0 <= k < r@.len() ==> r@[k] + 8 <= buffer@.len(),
{
    assert(pattern@.take(8) =~= pattern@);
    let needle: u64 = from_bytes(pattern, 8);
    let n = Needle::Long(needle);
    let r = search(buffer, &n, alignment);
    proof {
        let f = |o: int| o % alignment as int == 0 && n.at(buffer@, o);
        let g = |o: int| o % alignment as int == 0 && stands_at(buffer@, pattern@, o);
        assert forall|o: int| 0 <= o < buffer@.len() + 1 implies #[trigger] f(o) == g(o) by {
            if o + 8 <= buffer@.len() {
                lemma_le_injective(buffer@.subrange(o, o + 8), pattern@);
            }
        }
        lemma_offsets_agree(f, g, buffer@.len() + 1);
    }
    r
}

/// Searches for a pattern of any length.
pub fn scan_generic(buffer: &[u8], pattern: &[u8], alignment: usize) -> (r: Vec<usize>)
    requires
        alignment > 0,
    ensures
        ints(r@) == aligned_hits(buffer@, pattern@, alignment as nat),
        forall|k: int| 0 <= k < r@.len() ==> r@[k] + pattern@.len() <= buffer@.len(),
{
    let n = Needle::Bytes(pattern);
    let r = search(buffer, &n, alignment);
    proof {
        lemma_offsets_agree(
            |o: int| o % alignment as int == 0 && n.at(buffer@, o),
            |o: int| o % alignment as int == 0 && stands_at(buffer@, pattern@, o),
            buffer@.len() + 1,
        );
    }
    r
}

/// Searches for every aligned occurrence of a pattern. Returns the offsets in ascending
/// order.
pub fn scan_buffer_for_pattern(buffer: &[u8], pattern: &[u8], alignment: usize) -> (r: Vec<usize>)
    requires
        alignment > 0,
    ensures
        ints(r@) == aligned_hits(buffer@, pattern@, alignment as nat),
        forall|k: int| 0 <= k < r@.len() ==> r@[k] + pattern@.len() <= buffer@.len(),
{
    match pattern.len() {
        4 => scan_4byte_aligned(buffer, pattern, alignment),
        8 => scan_8byte_aligned(buffer, pattern, alignment),
        _ => scan_generic(buffer, pattern, alignment),
    }
}

/// Searches for single-precision numbers near the one with the bits `target`.
pub fn scan_near(buffer: &[u8], target: u32, alignment: usize) -> (r: Vec<usize>)
    requires
        alignment > 0,
    ensures
        ints(r@) == aligned_near(buffer@, target, alignment as nat),
        forall|k: int| 0 <= k < r@.len() ==> r@[k] + 4 <= buffer@.len(),
{
    let n = Needle::Near(target);
    let r = search(buffer, &n, alignment);
    proof {
        lemma_offsets_agree(
            |o: int| o % alignment as int == 0 && n.at(buffer@, o),
            |o: int| o % alignment as int == 0 && near_at(buffer@, target, o),
            buffer@.len() + 1,
        );
    }
    r
}

} // verus!
