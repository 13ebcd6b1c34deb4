//! Little-endian integers.

use vstd::arithmetic::power2::pow2;
use vstd::prelude::*;

verus! {

/// The number that the bytes stand for, least significant first.
pub open spec fn le_value(s: Seq<u8>) -> nat
    decreases s.len(),
{
    if s.len() == 0 {
        0
    } else {
        s[0] as nat + 256 * le_value(s.drop_first())
    }
}

/// The `width` lowest bytes of `n`, least significant first.
pub open spec fn le_bytes(n: nat, width: nat) -> Seq<u8>
    decreases width,
{
    if width == 0 {
        Seq::empty()
    } else {
        seq![(n % 256) as u8] + le_bytes(n / 256, (width - 1) as nat)
    }
}

/// The number below `modulus` that `i` leaves: its two's complement.
pub open spec fn wrapped(i: int, modulus: int) -> nat {
    if i < 0 {
        (i + modulus) as nat
    } else {
        i as nat
    }
}

/// The signed number whose two's complement is `n`.
pub open spec fn signed(n: nat, modulus: int) -> int {
    if 2 * n >= modulus {
        n - modulus
    } else {
        n as int
    }
}

/// Bytes of a fixed width stand for a number of that width.
pub proof fn le_value_bound(s: Seq<u8>)
    ensures
        le_value(s) < pow2((8 * s.len()) as nat),
    decreases s.len(),
{
    vstd::arithmetic::power2::lemma2_to64();
    if s.len() > 0 {
        le_value_bound(s.drop_first());
        vstd::arithmetic::power2::lemma_pow2_adds(8, (8 * (s.len() - 1)) as nat);
    }
}

/// The bytes of a number are as many as were asked for.
pub proof fn le_bytes_len(n: nat, width: nat)
    ensures
        le_bytes(n, width).len() == width,
    decreases width,
{
    if width > 0 {
        le_bytes_len(n / 256, (width - 1) as nat);
    }
}

/// A number that fits in the width is read back from its bytes.
pub proof fn le_round_trip(n: nat, width: nat)
    requires
        n < pow2(8 * width),
    ensures
        le_value(le_bytes(n, width)) == n,
    decreases width,
{
    vstd::arithmetic::power2::lemma2_to64();
    if width > 0 {
        vstd::arithmetic::power2::lemma_pow2_adds(8, (8 * (width - 1)) as nat);
        assert(8 + 8 * (width - 1) == 8 * width);
        le_round_trip(n / 256, (width - 1) as nat);
        let s = le_bytes(n, width);
        assert(s.drop_first() =~= le_bytes(n / 256, (width - 1) as nat));
        assert(s[0] == (n % 256) as u8);
    }
}

/// Bytes are the bytes of the number that they stand for.
pub proof fn le_value_round_trip(s: Seq<u8>)
    ensures
        le_bytes(le_value(s), s.len()) == s,
    decreases s.len(),
{
    if s.len() > 0 {
        le_value_round_trip(s.drop_first());
        let n = le_value(s);
        assert(n % 256 == s[0] as nat && n / 256 == le_value(s.drop_first()));
        assert(le_bytes(n, s.len()) =~= s);
    } else {
        assert(le_bytes(le_value(s), 0) =~= s);
    }
}

/// The lowest bytes of a number are the first of its bytes at any larger width.
pub proof fn le_bytes_prefix(n: nat, narrow: nat, wide: nat)
    requires
        narrow <= wide,
    ensures
        le_bytes(n, wide).take(narrow as int) == le_bytes(n, narrow),
    decreases narrow,
{
    le_bytes_len(n, wide);
    if narrow > 0 {
        le_bytes_prefix(n / 256, (narrow - 1) as nat, (wide - 1) as nat);
        le_bytes_len(n / 256, (wide - 1) as nat);
        let rest = le_bytes(n / 256, (wide - 1) as nat);
        assert(le_bytes(n, wide).take(narrow as int) =~= seq![(n % 256) as u8] + rest.take(
            narrow - 1,
        ));
    } else {
        assert(le_bytes(n, wide).take(0) =~= le_bytes(n, 0));
    }
}

/// The `width` lowest bytes of `n`.
pub fn to_bytes(n: u64, width: usize) -> (r: Vec<u8>)
    ensures
        r@ == le_bytes(n as nat, width as nat),
        r@.len() == width,
{
    let mut out: Vec<u8> = Vec::new();
    let mut rest: u64 = n;
    let mut i: usize = 0;
    assert(out@ + le_bytes(rest as nat, width as nat) =~= le_bytes(n as nat, width as nat));
    while i < width
        invariant
            i <= width,
            out@ + le_bytes(rest as nat, (width - i) as nat) == le_bytes(n as nat, width as nat),
        decreases width - i,
    {
        let ghost before = out@;
        out.push((rest % 256) as u8);
        assert(out@ + le_bytes((rest / 256) as nat, (width - i - 1) as nat) =~= before + le_bytes(
            rest as nat,
            (width - i) as nat,
        ));
        rest = rest / 256;
        i += 1;
    }
    assert(out@ + le_bytes(rest as nat, 0) =~= out@);
    proof {
        le_bytes_len(n as nat, width as nat);
    }
    out
}

/// The eight bytes of `n`.
pub fn to_array(n: u64) -> (r: [u8; 8])
    ensures
        r@ == le_bytes(n as nat, 8),
{
    let v = to_bytes(n, 8);
    let r = [v[0], v[1], v[2], v[3], v[4], v[5], v[6], v[7]];
    assert(r@ =~= v@);
    r
}

/// The number that the first `width` bytes stand for.
pub fn from_bytes(s: &[u8], width: usize) -> (r: u64)
    requires
        width <= 8,
        width <= s@.len(),
    ensures
        r == le_value(s@.take(width as int)),
        width <= 4 ==> r <= 0xffff_ffff,
{
    let mut v: u64 = 0;
    let mut i: usize = width;
    let ghost whole = s@.take(width as int);
    assert(whole.skip(width as int) =~= Seq::<u8>::empty());
    while i > 0
        invariant
            i <= width <= 8,
            width <= s@.len(),
            whole == s@.take(width as int),
            v == le_value(whole.skip(i as int)),
        decreases i,
    {
        i -= 1;
        proof {
            let rest = whole.skip(i as int);
            assert(rest.drop_first() =~= whole.skip(i + 1));
            assert(rest[0] == s@[i as int]);
            le_value_bound(rest);
            vstd::arithmetic::power2::lemma2_to64();
            vstd::arithmetic::power2::lemma2_to64_rest();
        }
        v = v * 256 + s[i] as u64;
    }
    proof {
        assert(whole.skip(0) =~= whole);
        le_value_bound(whole);
        vstd::arithmetic::power2::lemma2_to64();
        vstd::arithmetic::power2::lemma2_to64_rest();
    }
    v
}

/// Four bytes stand for the number whose lowest eight bits are the first byte, and so on up.
pub proof fn four_bytes_are_little_endian(s: Seq<u8>)
    requires
        s.len() == 4,
    ensures
        le_value(s) == s[0] + 0x100 * s[1] + 0x1_0000 * s[2] + 0x100_0000 * s[3],
{
    reveal_with_fuel(le_value, 5);
}

/// Eight bytes stand for the number whose lowest eight bits are the first byte, and so on up.
pub proof fn eight_bytes_are_little_endian(s: Seq<u8>)
    requires
        s.len() == 8,
    ensures
        le_value(s) == s[0] + 0x100 * s[1] + 0x1_0000 * s[2] + 0x100_0000 * s[3] + 0x1_0000_0000
            * s[4] + 0x100_0000_0000 * s[5] + 0x1_0000_0000_0000 * s[6] + 0x100_0000_0000_0000
            * s[7],
{
    reveal_with_fuel(le_value, 9);
}

/// Two's complement is undone: a number of the width reads back as it was, one that is not
/// negative stands for itself, and -1 for the largest.
pub proof fn twos_complement_is_undone(i: int, modulus: int)
    requires
        modulus > 0,
        modulus % 2 == 0,
        -modulus <= 2 * i < modulus,
    ensures
        signed(wrapped(i, modulus), modulus) == i,
        0 <= wrapped(i, modulus) < modulus,
        i >= 0 ==> wrapped(i, modulus) == i,
        i < 0 ==> wrapped(i, modulus) == modulus + i,
{
}

} // verus!
