//! Binary floating-point numbers held as their IEEE-754 bits.
//!
//! A value travels through the library as the bits of a double ([`Double`]); what the bits
//! mean is said over the integers. A magnitude is a whole number of the smallest step that
//! the format has, so that a double's value is its magnitude times 2^-1074 and a single's is
//! its magnitude times 2^-149.

use vstd::arithmetic::power2::pow2;
use vstd::prelude::*;

verus! {

// ─── What the bits mean ─────────────────────────────────────────────────────

/// The magnitude that sign-less bits `x` stand for, with `p` fraction bits below the
/// exponent, counted in steps of the format's smallest number. The bits of an infinity give
/// a magnitude above that of every finite number.
pub open spec fn magnitude(p: nat, x: nat) -> nat {
    let e = x / pow2(p);
    let f = x % pow2(p);
    if e == 0 {
        f
    } else {
        (pow2(p) + f) * pow2((e - 1) as nat)
    }
}

/// `n / d` rounded to the nearest whole number, ties to the even one.
pub open spec fn half_even(n: nat, d: nat) -> nat {
    let q = n / d;
    let r = n % d;
    if 2 * r < d || (2 * r == d && q % 2 == 0) {
        q
    } else {
        q + 1
    }
}

/// A double-precision number, as its bits.
#[derive(Clone, Copy, Debug, PartialEq, Eq, Structural)]
pub struct Double {
    /// Sign, 11 exponent bits and 52 fraction bits, from the top.
    pub bits: u64,
}

pub const SIGN: u64 = 0x8000_0000_0000_0000;

pub const FRACTION: u64 = 0x10_0000_0000_0000;

pub const SIGN_32: u32 = 0x8000_0000;

pub const INFINITY_32: u32 = 0x7f80_0000;

impl Double {
    /// The sign bit is set.
    pub open spec fn negative(self) -> bool {
        self.bits >= SIGN
    }

    /// The exponent bits.
    pub open spec fn exponent(self) -> nat {
        ((self.bits % SIGN) / FRACTION) as nat
    }

    /// The fraction bits.
    pub open spec fn fraction(self) -> nat {
        (self.bits % FRACTION) as nat
    }

    /// Neither an infinity nor a NaN.
    pub open spec fn finite(self) -> bool {
        self.exponent() < 2047
    }

    /// Not a number.
    pub open spec fn nan(self) -> bool {
        self.exponent() == 2047 && self.fraction() != 0
    }

    /// The absolute value times 2^1074.
    pub open spec fn scaled(self) -> nat {
        magnitude(52, (self.bits % SIGN) as nat)
    }

    /// The value times 2^1074.
    pub open spec fn value(self) -> int {
        if self.negative() {
            -(self.scaled() as int)
        } else {
            self.scaled() as int
        }
    }

    /// A finite number without a fractional part.
    pub open spec fn whole(self) -> bool {
        self.finite() && self.scaled() % pow2(1074) == 0
    }

    /// The value with its fractional part cut off.
    pub open spec fn truncated(self) -> int {
        let t = self.scaled() / pow2(1074);
        if self.negative() {
            -(t as int)
        } else {
            t as int
        }
    }

    /// The value cut to a whole number and held between `min` and `max`; a NaN gives 0.
    pub open spec fn saturated(self, min: int, max: int) -> int {
        if self.nan() {
            0
        } else if self.truncated() < min {
            min
        } else if self.truncated() > max {
            max
        } else {
            self.truncated()
        }
    }

    /// The exponent bits that govern the step of the nearest single: below 897 every single
    /// is a multiple of the smallest one.
    pub open spec fn step(self) -> nat {
        if self.exponent() < 897 {
            897
        } else {
            self.exponent()
        }
    }

    /// The sign-less bits of the nearest single, ties to even, before the overflow test.
    pub open spec fn rounded_bits(self) -> nat {
        ((self.step() - 897) * 0x80_0000 + half_even(self.scaled(), pow2(self.step() + 28))) as nat
    }

    /// The bits of the number in single precision: the nearest one, ties to even, an infinity
    /// beyond the largest finite one; a NaN stays a quiet NaN with the top of its payload.
    pub open spec fn single(self) -> nat {
        let unsigned = if self.nan() {
            let payload = self.fraction() / 0x2000_0000;
            if payload >= 0x40_0000 {
                INFINITY_32 as nat + payload
            } else {
                (INFINITY_32 + 0x40_0000 + payload) as nat
            }
        } else if self.exponent() == 2047 || self.rounded_bits() >= INFINITY_32 {
            INFINITY_32 as nat
        } else {
            self.rounded_bits()
        };
        if self.negative() {
            unsigned + SIGN_32 as nat
        } else {
            unsigned
        }
    }

    /// The number and its single-precision form are both finite and lie less than a
    /// millionth apart (the double nearest to 10^-6, which is 4722366482869645 * 2^-72).
    pub open spec fn close_to_single(self) -> bool {
        let near = magnitude(23, self.rounded_bits()) * pow2(925);
        &&& self.finite()
        &&& self.rounded_bits() < INFINITY_32
        &&& self.scaled() - near < 4722366482869645 * pow2(1002)
        &&& near - self.scaled() < 4722366482869645 * pow2(1002)
    }
}

/// Single-precision bits that are not a number.
pub open spec fn nan_32(bits: u32) -> bool {
    bits % SIGN_32 > INFINITY_32
}

/// Single-precision bits of a finite number.
pub open spec fn finite_32(bits: u32) -> bool {
    bits % SIGN_32 < INFINITY_32
}

/// The value of a single times 2^149.
pub open spec fn value_32(bits: u32) -> int {
    let m = magnitude(23, (bits % SIGN_32) as nat) as int;
    if bits >= SIGN_32 {
        -m
    } else {
        m
    }
}

/// The single `a` is less than the single `b`.
pub open spec fn less_32(a: u32, b: u32) -> bool {
    !nan_32(a) && !nan_32(b) && value_32(a) < value_32(b)
}

/// The double `a` is less than the double `b`.
pub open spec fn less_64(a: Double, b: Double) -> bool {
    !a.nan() && !b.nan() && a.value() < b.value()
}

/// Two singles are at most 0.001 apart in single-precision arithmetic. That constant is
/// 8589935 * 2^-33 there, and a difference rounds to no more than it exactly when it is below
/// the midpoint to the next single, 17179871 * 2^-34 (the tie goes to the next one, which is
/// even).
pub open spec fn near_32(a: u32, b: u32) -> bool {
    &&& finite_32(a)
    &&& finite_32(b)
    &&& value_32(a) - value_32(b) < 17179871 * pow2(115)
    &&& value_32(b) - value_32(a) < 17179871 * pow2(115)
}

// ─── Arithmetic facts ───────────────────────────────────────────────────────

proof fn lemma_small_powers()
    ensures
        pow2(0) == 1,
        pow2(1) == 2,
        pow2(23) == 0x80_0000,
        pow2(24) == 0x100_0000,
        pow2(29) == 0x2000_0000,
        pow2(52) == FRACTION,
        pow2(53) == 0x20_0000_0000_0000,
        pow2(54) == 0x40_0000_0000_0000,
        pow2(64) == 0x1_0000_0000_0000_0000,
{
    vstd::arithmetic::power2::lemma2_to64();
    vstd::arithmetic::power2::lemma2_to64_rest();
}

/// Scaling both sides of a division scales the remainder and keeps the quotient.
proof fn lemma_scale(n: nat, d: nat, k: nat)
    requires
        d > 0,
        k > 0,
    ensures
        d * k > 0,
        (n * k) / (d * k) == n / d,
        (n * k) % (d * k) == (n % d) * k,
{
    let q = n / d;
    let r = n % d;
    vstd::arithmetic::div_mod::lemma_fundamental_div_mod(n as int, d as int);
    assert(d * k > 0) by (nonlinear_arith)
        requires
            d > 0,
            k > 0,
    ;
    assert(n * k == q * (d * k) + r * k) by (nonlinear_arith)
        requires
            n == d * q + r,
    ;
    assert(0 <= r * k < d * k) by (nonlinear_arith)
        requires
            0 <= r < d,
            k > 0,
    ;
    vstd::arithmetic::div_mod::lemma_fundamental_div_mod_converse(
        (n * k) as int,
        (d * k) as int,
        q as int,
        (r * k) as int,
    );
}

proof fn lemma_half_even_scale(n: nat, d: nat, k: nat)
    requires
        d > 0,
        k > 0,
    ensures
        half_even(n * k, d * k) == half_even(n, d),
{
    lemma_scale(n, d, k);
    let r = n % d;
    assert((2 * (r * k) < d * k) == (2 * r < d)) by (nonlinear_arith)
        requires
            k > 0,
    ;
    assert((2 * (r * k) == d * k) == (2 * r == d)) by (nonlinear_arith)
        requires
            k > 0,
    ;
}

proof fn lemma_pow2_le(a: nat, b: nat)
    requires
        a <= b,
    ensures
        0 < pow2(a) <= pow2(b),
{
    vstd::arithmetic::power2::lemma_pow2_pos(a);
    if a < b {
        vstd::arithmetic::power2::lemma_pow2_strictly_increases(a, b);
    }
}

/// Larger bits stand for a larger magnitude.
pub proof fn magnitude_order(p: nat, x: nat, y: nat)
    ensures
        x < y <==> magnitude(p, x) < magnitude(p, y),
{
    if x < y {
        lemma_magnitude_grows(p, x, y);
    } else if y < x {
        lemma_magnitude_grows(p, y, x);
    }
}

proof fn lemma_magnitude_grows(p: nat, x: nat, y: nat)
    requires
        x < y,
    ensures
        magnitude(p, x) < magnitude(p, y),
{
    let d = pow2(p);
    lemma_pow2_le(p, p);
    let (ex, fx) = (x / d, x % d);
    let (ey, fy) = (y / d, y % d);
    vstd::arithmetic::div_mod::lemma_fundamental_div_mod(x as int, d as int);
    vstd::arithmetic::div_mod::lemma_fundamental_div_mod(y as int, d as int);
    vstd::arithmetic::div_mod::lemma_div_is_ordered(x as int, y as int, d as int);
    if ex == ey {
        assert(fx < fy);
        if ex > 0 {
            let k = pow2((ex - 1) as nat);
            lemma_pow2_le((ex - 1) as nat, (ex - 1) as nat);
            assert((d + fx) * k < (d + fy) * k) by (nonlinear_arith)
                requires
                    fx < fy,
                    k > 0,
            ;
        }
    } else {
        let k = pow2((ey - 1) as nat);
        lemma_pow2_le(0, (ey - 1) as nat);
        lemma_small_powers();
        assert((d + fy) * k >= d * k) by (nonlinear_arith)
            requires
                fy >= 0,
                k > 0,
        ;
        if ex == 0 {
            assert(d * k >= d) by (nonlinear_arith)
                requires
                    k >= 1,
            ;
        } else {
            let j = pow2((ex - 1) as nat);
            lemma_pow2_le(ex, (ey - 1) as nat);
            vstd::arithmetic::power2::lemma_pow2_unfold(ex);
            lemma_pow2_le((ex - 1) as nat, (ex - 1) as nat);
            assert((d + fx) * j < d * k) by (nonlinear_arith)
                requires
                    fx < d,
                    j > 0,
                    2 * j <= k,
            ;
        }
    }
}

// ─── Computing with the bits ────────────────────────────────────────────────

/// 2 to the power `e`.
fn power(e: u64) -> (r: u128)
    requires
        e < 128,
    ensures
        r == pow2(e as nat),
        r > 0,
{
    let mut r: u128 = 1;
    let mut i: u64 = 0;
    proof {
        lemma_small_powers();
    }
    while i < e
        invariant
            i <= e,
            e < 128,
            r == pow2(i as nat),
            r > 0,
        decreases e - i,
    {
        proof {
            vstd::arithmetic::power2::lemma_pow2_unfold((i + 1) as nat);
            vstd::arithmetic::power2::lemma_pow2_adds(64, 63);
            lemma_small_powers();
            vstd::arithmetic::power2::lemma2_to64_rest();
            lemma_pow2_le((i + 1) as nat, 127);
        }
        r = r * 2;
        i += 1;
    }
    r
}

fn half_even_exec(n: u128, d: u128) -> (r: u128)
    requires
        0 < d <= 0x7fff_ffff_ffff_ffff_ffff_ffff_ffff_ffff,
        n <= 0x7fff_ffff_ffff_ffff_ffff_ffff_ffff_ffff,
    ensures
        r == half_even(n as nat, d as nat),
        r <= n + 1,
{
    let q: u128 = n / d;
    let r: u128 = n % d;
    assert(q <= n) by (nonlinear_arith)
        requires
            q == n / d,
            d > 0,
    ;
    if 2 * r < d || (2 * r == d && q % 2 == 0) {
        q
    } else {
        q + 1
    }
}

/// A double as its exponent bits and its magnitude: the magnitude is `mantissa` doubled
/// `shift` times.
struct Parts {
    negative: bool,
    exponent: u64,
    fraction: u64,
    mantissa: u64,
    shift: u64,
}

impl Parts {
    spec fn of(self, d: Double) -> bool {
        &&& self.negative == d.negative()
        &&& self.exponent == d.exponent()
        &&& self.fraction == d.fraction()
        &&& self.fraction < FRACTION
        &&& self.exponent <= 2047
        &&& self.exponent == 0 ==> self.shift == 0 && self.mantissa == self.fraction
        &&& self.exponent > 0 ==> self.shift == self.exponent - 1 && self.mantissa == FRACTION
            + self.fraction
        &&& d.scaled() == self.mantissa * pow2(self.shift as nat)
        &&& self.mantissa < 0x20_0000_0000_0000
    }
}

impl Double {
    /// The number with the given bits.
    pub fn from_bits(bits: u64) -> (r: Double)
        ensures
            r.bits == bits,
    {
        Double { bits }
    }

    fn parts(self) -> (r: Parts)
        ensures
            r.of(self),
    {
        let unsigned: u64 = self.bits % SIGN;
        let exponent: u64 = unsigned / FRACTION;
        let fraction: u64 = self.bits % FRACTION;
        proof {
            lemma_small_powers();
            assert(unsigned % FRACTION == fraction);
        }
        Parts {
            negative: self.bits >= SIGN,
            exponent,
            fraction,
            mantissa: if exponent == 0 { fraction } else { FRACTION + fraction },
            shift: if exponent == 0 { 0 } else { exponent - 1 },
        }
    }

    /// Whether the number is finite and has no fractional part.
    pub fn is_whole(self) -> (r: bool)
        ensures
            r == self.whole(),
    {
        let p = self.parts();
        if p.exponent == 2047 {
            return false;
        }
        proof {
            self.lemma_split(p);
        }
        if p.shift >= 1074 {
            true
        } else if p.mantissa == 0 {
            true
        } else if 1074 - p.shift > 52 {
            false
        } else {
            p.mantissa as u128 % power(1074 - p.shift) == 0
        }
    }

    /// What is below and above the binary point.
    proof fn lemma_split(self, p: Parts)
        requires
            p.of(self),
        ensures
            p.shift >= 1074 ==> {
                &&& self.scaled() / pow2(1074) == p.mantissa * pow2((p.shift - 1074) as nat)
                &&& self.scaled() % pow2(1074) == 0
            },
            p.shift < 1074 ==> {
                let d = pow2((1074 - p.shift) as nat);
                &&& d > 0
                &&& self.scaled() / pow2(1074) == p.mantissa as nat / d
                &&& (self.scaled() % pow2(1074) == 0) == (p.mantissa as nat % d == 0)
                &&& 1074 - p.shift > 52 ==> (p.mantissa as nat / d == 0 || 1074 - p.shift <= 53)
                &&& p.mantissa == 0 ==> p.mantissa as nat % d == 0
                &&& 1074 - p.shift > 52 && p.mantissa > 0 ==> p.mantissa as nat % d != 0
            },
    {
        let m = p.mantissa as nat;
        lemma_small_powers();
        lemma_pow2_le(1074, 1074);
        if p.shift >= 1074 {
            let k = (p.shift - 1074) as nat;
            vstd::arithmetic::power2::lemma_pow2_adds(k, 1074);
            assert(m * (pow2(k) * pow2(1074)) == (m * pow2(k)) * pow2(1074)) by (nonlinear_arith);
            vstd::arithmetic::div_mod::lemma_fundamental_div_mod_converse(
                self.scaled() as int,
                pow2(1074) as int,
                (m * pow2(k)) as int,
                0,
            );
        } else {
            let s = (1074 - p.shift) as nat;
            vstd::arithmetic::power2::lemma_pow2_adds(s, p.shift as nat);
            lemma_pow2_le(p.shift as nat, p.shift as nat);
            lemma_pow2_le(s, s);
            let k = pow2(p.shift as nat);
            lemma_scale(m, pow2(s), k);
            let r = m % pow2(s);
            assert((r * k == 0) == (r == 0)) by (nonlinear_arith)
                requires
                    k > 0,
            ;
            if m == 0 {
                vstd::arithmetic::div_mod::lemma_small_mod(m, pow2(s));
            }
            if s > 53 {
                lemma_pow2_le(54, s);
                vstd::arithmetic::div_mod::lemma_small_mod(m, pow2(s));
                vstd::arithmetic::div_mod::lemma_fundamental_div_mod_converse(
                    m as int,
                    pow2(s) as int,
                    0,
                    m as int,
                );
            } else if s == 53 {
                vstd::arithmetic::div_mod::lemma_small_mod(m, pow2(s));
            }
        }
    }

    /// The value cut to a whole number and held between `min` and `max`; a NaN gives 0.
    pub fn to_int(self, min: i128, max: i128) -> (r: i128)
        requires
            -0x1_0000_0000_0000_0000 <= min <= 0 <= max <= 0x1_0000_0000_0000_0000,
        ensures
            r == self.saturated(min as int, max as int),
    {
        let p = self.parts();
        if p.exponent == 2047 && p.fraction != 0 {
            return 0;
        }
        proof {
            self.lemma_split(p);
            lemma_small_powers();
        }
        let t: i128 = if p.shift < 1074 {
            if 1074 - p.shift > 53 {
                0
            } else {
                let d: u128 = power(1074 - p.shift);
                let q: u128 = p.mantissa as u128 / d;
                assert(q <= p.mantissa) by (nonlinear_arith)
                    requires
                        q == p.mantissa as u128 / d,
                        d > 0,
                ;
                q as i128
            }
        } else if p.shift - 1074 <= 12 {
            let d: u128 = power(p.shift - 1074);
            proof {
                lemma_pow2_le((p.shift - 1074) as nat, 12);
                vstd::arithmetic::power2::lemma2_to64();
            }
            assert(p.mantissa * d <= 0x20_0000_0000_0000 * 0x1000) by (nonlinear_arith)
                requires
                    p.mantissa <= 0x20_0000_0000_0000,
                    d <= 0x1000,
            ;
            (p.mantissa as u128 * d) as i128
        } else {
            proof {
                lemma_pow2_le(12, (p.shift - 1074) as nat);
                vstd::arithmetic::power2::lemma2_to64();
                let k = pow2((p.shift - 1074) as nat);
                assert(p.mantissa * k >= 0x10_0000_0000_0000 * 0x1000) by (nonlinear_arith)
                    requires
                        p.mantissa >= 0x10_0000_0000_0000,
                        k >= 0x1000,
                ;
            }
            0x1_0000_0000_0000_0000
        };
        let v: i128 = if p.negative {
            -t
        } else {
            t
        };
        if v < min {
            min
        } else if v > max {
            max
        } else {
            v
        }
    }
}

impl Double {
    /// Rounding in units of the mantissa.
    proof fn lemma_rounding(self, p: Parts)
        requires
            p.of(self),
            self.finite(),
        ensures
            half_even(self.scaled(), pow2(self.step() + 28)) == (if p.exponent >= 897 {
                half_even(p.mantissa as nat, 0x2000_0000)
            } else if p.exponent == 0 || p.exponent < 872 {
                0
            } else {
                half_even(p.mantissa as nat, pow2((926 - p.exponent) as nat))
            }),
    {
        let m = p.mantissa as nat;
        let unit = pow2(self.step() + 28);
        lemma_small_powers();
        lemma_pow2_le(p.shift as nat, p.shift as nat);
        if p.exponent >= 897 {
            vstd::arithmetic::power2::lemma_pow2_adds(29, p.shift as nat);
            lemma_half_even_scale(m, 0x2000_0000, pow2(p.shift as nat));
        } else if p.exponent == 0 {
            lemma_pow2_le(54, 925);
            assert(m * pow2(0) == m) by (nonlinear_arith)
                requires
                    pow2(0) == 1,
            ;
            vstd::arithmetic::div_mod::lemma_fundamental_div_mod_converse(
                m as int,
                unit as int,
                0,
                m as int,
            );
        } else {
            let s = (926 - p.exponent) as nat;
            vstd::arithmetic::power2::lemma_pow2_adds(s, p.shift as nat);
            lemma_pow2_le(s, s);
            lemma_half_even_scale(m, pow2(s), pow2(p.shift as nat));
            if s > 54 {
                lemma_pow2_le(54, s);
                vstd::arithmetic::div_mod::lemma_fundamental_div_mod_converse(
                    m as int,
                    pow2(s) as int,
                    0,
                    m as int,
                );
            }
        }
    }

    /// The sign-less bits of the nearest single, before the overflow test.
    fn to_rounded_bits(self) -> (r: u64)
        requires
            self.finite(),
        ensures
            r == self.rounded_bits(),
            r <= 0x3_0000_0000,
    {
        let p = self.parts();
        proof {
            self.lemma_rounding(p);
            lemma_small_powers();
        }
        if p.exponent >= 897 {
            let q: u128 = half_even_exec(p.mantissa as u128, 0x2000_0000);
            assert(q <= 0x100_0000) by {
                assert(p.mantissa / 0x2000_0000 < 0x100_0000);
            }
            (p.exponent - 897) * 0x80_0000 + q as u64
        } else if p.exponent < 872 {
            0
        } else {
            let d: u128 = power(926 - p.exponent);
            proof {
                lemma_pow2_le(30, (926 - p.exponent) as nat);
                lemma_pow2_le((926 - p.exponent) as nat, 64);
                vstd::arithmetic::power2::lemma2_to64();
                assert(p.mantissa as nat / d as nat <= 0x80_0000) by (nonlinear_arith)
                    requires
                        p.mantissa < 0x20_0000_0000_0000,
                        d >= 0x4000_0000,
                ;
            }
            let q: u128 = half_even_exec(p.mantissa as u128, d);
            q as u64
        }
    }

    /// The bits of the number in single precision.
    pub fn to_single(self) -> (r: u32)
        ensures
            r == self.single(),
    {
        let p = self.parts();
        let unsigned: u64 = if p.exponent == 2047 {
            if p.fraction != 0 {
                let payload: u64 = p.fraction / 0x2000_0000;
                if payload >= 0x40_0000 {
                    INFINITY_32 as u64 + payload
                } else {
                    INFINITY_32 as u64 + 0x40_0000 + payload
                }
            } else {
                INFINITY_32 as u64
            }
        } else {
            let r: u64 = self.to_rounded_bits();
            if r >= INFINITY_32 as u64 {
                INFINITY_32 as u64
            } else {
                r
            }
        };
        if p.negative {
            (unsigned + SIGN_32 as u64) as u32
        } else {
            unsigned as u32
        }
    }
}

/// A single has 32 bits.
pub proof fn single_fits(d: Double)
    ensures
        d.single() <= 0xffff_ffff,
{
    assert(d.fraction() / 0x2000_0000 < 0x80_0000);
}

// ─── Order ──────────────────────────────────────────────────────────────────

/// Whether the single `a` is less than the single `b`.
pub fn is_less_32(a: u32, b: u32) -> (r: bool)
    ensures
        r == less_32(a, b),
{
    let (x, y): (u32, u32) = (a % SIGN_32, b % SIGN_32);
    proof {
        lemma_small_powers();
        magnitude_order(23, x as nat, y as nat);
        magnitude_order(23, y as nat, x as nat);
        magnitude_order(23, 0, x as nat);
        magnitude_order(23, 0, y as nat);
    }
    if x > INFINITY_32 || y > INFINITY_32 {
        false
    } else if a >= SIGN_32 {
        if b >= SIGN_32 {
            y < x
        } else {
            x > 0 || y > 0
        }
    } else {
        b < SIGN_32 && x < y
    }
}

/// Whether the double `a` is less than the double `b`.
pub fn is_less_64(a: Double, b: Double) -> (r: bool)
    ensures
        r == less_64(a, b),
{
    let (x, y): (u64, u64) = (a.bits % SIGN, b.bits % SIGN);
    let infinity: u64 = 0x7ff0_0000_0000_0000;
    proof {
        lemma_small_powers();
        magnitude_order(52, x as nat, y as nat);
        magnitude_order(52, y as nat, x as nat);
        magnitude_order(52, 0, x as nat);
        magnitude_order(52, 0, y as nat);
        assert(a.nan() == (x > infinity));
        assert(b.nan() == (y > infinity));
    }
    if x > infinity || y > infinity {
        false
    } else if a.bits >= SIGN {
        if b.bits >= SIGN {
            y < x
        } else {
            x > 0 || y > 0
        }
    } else {
        b.bits < SIGN && x < y
    }
}

// ─── Nearness ───────────────────────────────────────────────────────────────

/// Rounding moves a number by at most half a step.
proof fn lemma_half_even_error(n: nat, d: nat)
    requires
        d > 0,
    ensures
        2 * (n - half_even(n, d) * d) <= d,
        2 * (half_even(n, d) * d - n) <= d,
{
    let q = n / d;
    let r = n % d;
    vstd::arithmetic::div_mod::lemma_fundamental_div_mod(n as int, d as int);
    assert(n == q * d + r) by (nonlinear_arith)
        requires
            n == d * q + r,
    ;
    assert((q + 1) * d == q * d + d) by (nonlinear_arith);
}

/// Order is kept when both sides are scaled by the same power of two.
proof fn lemma_less_scaled(a: int, b: int, k: nat)
    ensures
        (a * pow2(k) < b * pow2(k)) == (a < b),
        (a * pow2(k) <= b * pow2(k)) == (a <= b),
{
    lemma_pow2_le(k, k);
    let u = pow2(k);
    assert((a * u < b * u) == (a < b)) by (nonlinear_arith)
        requires
            u > 0,
    ;
    assert((a * u <= b * u) == (a <= b)) by (nonlinear_arith)
        requires
            u > 0,
    ;
}

impl Double {
    /// Whether the number and its single-precision form lie less than a millionth apart.
    pub fn is_close_to_single(self) -> (r: bool)
        ensures
            r == self.close_to_single(),
    {
        let p = self.parts();
        if p.exponent == 2047 {
            return false;
        }
        let bits: u64 = self.to_rounded_bits();
        if bits >= INFINITY_32 as u64 {
            return false;
        }
        proof {
            lemma_small_powers();
        }
        if p.exponent < 897 {
            proof {
                self.lemma_close_below(p);
            }
            return true;
        }
        let q: u128 = half_even_exec(p.mantissa as u128, 0x2000_0000);
        assert(q <= 0x100_0000) by {
            assert(p.mantissa / 0x2000_0000 < 0x100_0000);
        }
        let nearest: u128 = q * 0x2000_0000;
        let m: u128 = p.mantissa as u128;
        let off: u128 = if nearest < m { m - nearest } else { nearest - m };
        proof {
            self.lemma_close_above(p, q as nat);
            lemma_half_even_error(p.mantissa as nat, 0x2000_0000);
        }
        if off == 0 || p.shift <= 1002 {
            proof {
                if p.shift <= 1002 {
                    lemma_pow2_le(p.shift as nat, 1002);
                    let k = pow2(p.shift as nat);
                    assert(off * k < 4722366482869645 * pow2(1002)) by (nonlinear_arith)
                        requires
                            off <= 0x2000_0000,
                            0 < k <= pow2(1002),
                    ;
                } else {
                    lemma_pow2_le(1002, 1002);
                    assert(0 * pow2(p.shift as nat) < 4722366482869645 * pow2(1002))
                        by (nonlinear_arith)
                        requires
                            pow2(1002) > 0,
                    ;
                }
            }
            return true;
        }
        let k: u64 = p.shift - 1002;
        proof {
            vstd::arithmetic::power2::lemma_pow2_adds(k as nat, 1002);
            assert(off * (pow2(k as nat) * pow2(1002)) == (off * pow2(k as nat)) * pow2(1002))
                by (nonlinear_arith);
            lemma_less_scaled((off * pow2(k as nat)) as int, 4722366482869645, 1002);
        }
        if k >= 53 {
            proof {
                lemma_pow2_le(53, k as nat);
                assert(off * pow2(k as nat) >= 0x20_0000_0000_0000) by (nonlinear_arith)
                    requires
                        off >= 1,
                        pow2(k as nat) >= 0x20_0000_0000_0000,
                ;
            }
            false
        } else {
            let d: u128 = power(k);
            proof {
                lemma_pow2_le(k as nat, 53);
                assert(off * d <= 0x2000_0000 * 0x20_0000_0000_0000) by (nonlinear_arith)
                    requires
                        off <= 0x2000_0000,
                        d <= 0x20_0000_0000_0000,
                ;
            }
            off * d < 4722366482869645
        }
    }

    proof fn lemma_close_below(self, p: Parts)
        requires
            p.of(self),
            p.exponent < 897,
            self.rounded_bits() < INFINITY_32,
        ensures
            self.close_to_single(),
    {
        lemma_small_powers();
        self.lemma_rounding(p);
        lemma_pow2_le(925, 925);
        lemma_pow2_le(925, 1002);
        let d = pow2(925);
        let n = self.scaled();
        let q = half_even(n, d);
        lemma_half_even_error(n, d);
        assert(q <= 0x80_0000) by {
            if 872 <= p.exponent {
                let s = (926 - p.exponent) as nat;
                lemma_pow2_le(30, s);
                vstd::arithmetic::power2::lemma2_to64();
                let m = p.mantissa as nat;
                assert(m / pow2(s) < 0x80_0000) by (nonlinear_arith)
                    requires
                        m < 0x20_0000_0000_0000,
                        pow2(s) >= 0x4000_0000,
                ;
            }
        }
        assert(magnitude(23, q) == q) by {
            if q == 0x80_0000 {
                assert(q / pow2(23) == 1);
                assert((pow2(23) + 0) * pow2(0) == pow2(23)) by (nonlinear_arith)
                    requires
                        pow2(0) == 1,
                ;
            } else {
                assert(q / pow2(23) == 0);
            }
        }
        assert(d < 4722366482869645 * pow2(1002)) by (nonlinear_arith)
            requires
                0 < d <= pow2(1002),
        ;
    }

    proof fn lemma_close_above(self, p: Parts, q: nat)
        requires
            p.of(self),
            self.finite(),
            p.exponent >= 897,
            q == half_even(p.mantissa as nat, 0x2000_0000),
        ensures
            ({
                let k = pow2(p.shift as nat);
                let near = magnitude(23, self.rounded_bits()) * pow2(925);
                &&& self.scaled() - near == (p.mantissa - q * 0x2000_0000) * k
                &&& near - self.scaled() == (q * 0x2000_0000 - p.mantissa) * k
            }),
    {
        lemma_small_powers();
        self.lemma_rounding(p);
        let m = p.mantissa as nat;
        let e = p.exponent as nat;
        assert(0x80_0000 <= q <= 0x100_0000) by {
            assert(0x80_0000 <= m / 0x2000_0000 < 0x100_0000);
        }
        let bits = self.rounded_bits();
        assert(bits == (e - 897) * 0x80_0000 + q);
        let j = (e - 897) as nat;
        assert(magnitude(23, bits) == q * pow2(j)) by {
            if q < 0x100_0000 {
                assert(bits / 0x80_0000 == j + 1);
                assert(bits % 0x80_0000 == q - 0x80_0000);
            } else {
                assert(bits / 0x80_0000 == j + 2);
                assert(bits % 0x80_0000 == 0);
                vstd::arithmetic::power2::lemma_pow2_unfold(j + 1);
                assert(0x80_0000 * (2 * pow2(j)) == 0x100_0000 * pow2(j)) by (nonlinear_arith);
            }
        }
        vstd::arithmetic::power2::lemma_pow2_adds(j, 925);
        vstd::arithmetic::power2::lemma_pow2_adds(29, p.shift as nat);
        assert(j + 925 == 29 + p.shift);
        let k = pow2(p.shift as nat);
        assert((q * pow2(j)) * pow2(925) == q * (pow2(j) * pow2(925))) by (nonlinear_arith);
        assert(q * (0x2000_0000 * k) == (q * 0x2000_0000) * k) by (nonlinear_arith);
        assert(m * k - (q * 0x2000_0000) * k == (m - q * 0x2000_0000) * k) by (nonlinear_arith);
        assert((q * 0x2000_0000) * k - m * k == (q * 0x2000_0000 - m) * k) by (nonlinear_arith);
    }
}

/// A single's magnitude as a mantissa doubled `shift` times.
struct Parts32 {
    mantissa: u128,
    shift: u64,
}

impl Parts32 {
    spec fn size(self) -> int {
        self.mantissa * pow2(self.shift as nat)
    }

    spec fn valid(self) -> bool {
        &&& self.mantissa < 0x100_0000
        &&& self.shift > 0 ==> self.mantissa >= 0x80_0000
        &&& self.shift < 254
    }
}

fn parts_32(bits: u32) -> (r: Parts32)
    requires
        finite_32(bits),
    ensures
        r.valid(),
        r.size() == magnitude(23, (bits % SIGN_32) as nat),
{
    let unsigned: u32 = bits % SIGN_32;
    let e: u32 = unsigned / 0x80_0000;
    let f: u32 = unsigned % 0x80_0000;
    proof {
        lemma_small_powers();
    }
    if e == 0 {
        assert(f * pow2(0) == f) by (nonlinear_arith)
            requires
                pow2(0) == 1,
        ;
        Parts32 { mantissa: f as u128, shift: 0 }
    } else {
        Parts32 { mantissa: (0x80_0000 + f) as u128, shift: (e - 1) as u64 }
    }
}

/// How far apart two magnitudes are, or how much they make together.
spec fn apart(x: int, y: int, same_sign: bool) -> int {
    if !same_sign {
        x + y
    } else if x < y {
        y - x
    } else {
        x - y
    }
}

/// Both exponents are small: any two such numbers are near.
proof fn lemma_apart_small(high: Parts32, low: Parts32, same_sign: bool)
    requires
        high.valid(),
        low.valid(),
        low.shift <= high.shift <= 114,
    ensures
        apart(high.size(), low.size(), same_sign) < 17179871 * pow2(115),
{
    lemma_pow2_le(high.shift as nat, 114);
    lemma_pow2_le(low.shift as nat, 114);
    vstd::arithmetic::power2::lemma_pow2_unfold(115);
    let (m, n) = (high.mantissa as int, low.mantissa as int);
    let (j, k) = (pow2(high.shift as nat) as int, pow2(low.shift as nat) as int);
    let u = pow2(114) as int;
    assert(0 <= m * j <= 0x100_0000 * u) by (nonlinear_arith)
        requires
            0 <= m < 0x100_0000,
            0 < j <= u,
    ;
    assert(0 <= n * k <= 0x100_0000 * u) by (nonlinear_arith)
        requires
            0 <= n < 0x100_0000,
            0 < k <= u,
    ;
}

/// The lower number is less than half a unit of 2^115.
proof fn lemma_apart_low(high: Parts32, low: Parts32, same_sign: bool)
    requires
        high.valid(),
        low.valid(),
        high.shift >= 115,
        low.shift < 90,
    ensures
        ({
            let big = high.mantissa * pow2((high.shift - 115) as nat);
            let near = apart(high.size(), low.size(), same_sign) < 17179871 * pow2(115);
            &&& same_sign && low.mantissa > 0 ==> near == (big <= 17179871)
            &&& !same_sign || low.mantissa == 0 ==> near == (big < 17179871)
            &&& high.shift - 115 >= 26 ==> !near
        }),
{
    lemma_small_powers();
    let u = pow2(115) as int;
    let big = high.mantissa * pow2((high.shift - 115) as nat);
    vstd::arithmetic::power2::lemma_pow2_adds((high.shift - 115) as nat, 115);
    let w = pow2((high.shift - 115) as nat) as int;
    let m = high.mantissa as int;
    assert(m * (w * u) == (m * w) * u) by (nonlinear_arith);
    assert(high.size() == big * u);
    let small = low.size();
    lemma_pow2_le(low.shift as nat, 90);
    lemma_pow2_le(90, 115);
    vstd::arithmetic::power2::lemma_pow2_adds(24, 90);
    lemma_pow2_le(114, 115);
    vstd::arithmetic::power2::lemma_pow2_strictly_increases(114, 115);
    let n = low.mantissa as int;
    let k = pow2(low.shift as nat) as int;
    let top = pow2(90) as int;
    assert(0 <= n * k < u) by (nonlinear_arith)
        requires
            0 <= n < 0x100_0000,
            0 < k <= top,
            0x100_0000 * top < u,
    ;
    assert((n * k > 0) == (n > 0)) by (nonlinear_arith)
        requires
            k > 0,
    ;
    assert(n == 0 ==> n * k == 0) by (nonlinear_arith);
    assert(big >= 17179872 ==> big * u >= 17179872 * u) by (nonlinear_arith)
        requires
            u > 0,
    ;
    assert(big <= 17179871 ==> big * u <= 17179871 * u) by (nonlinear_arith)
        requires
            u > 0,
    ;
    assert(big <= 17179870 ==> big * u <= 17179870 * u) by (nonlinear_arith)
        requires
            u > 0,
    ;
    assert(big == 17179871 ==> big * u == 17179871 * u);
    lemma_pow2_le((high.shift - 115) as nat, (high.shift - 115) as nat);
    assert(big >= 0x80_0000) by (nonlinear_arith)
        requires
            m >= 0x80_0000,
            w >= 1,
            big == m * w,
    ;
    assert(big * u >= u) by (nonlinear_arith)
        requires
            big >= 1,
            u > 0,
    ;
    if high.shift - 115 >= 26 {
        vstd::arithmetic::power2::lemma2_to64();
        lemma_pow2_le(26, (high.shift - 115) as nat);
        assert(m * w >= 0x80_0000 * 0x400_0000) by (nonlinear_arith)
            requires
                m >= 0x80_0000,
                w >= 0x400_0000,
        ;
    }
}

/// Both numbers are whole multiples of the lower one's step.
proof fn lemma_apart_high(high: Parts32, low: Parts32, same_sign: bool)
    requires
        high.valid(),
        low.valid(),
        high.shift >= 115,
        90 <= low.shift <= high.shift,
    ensures
        ({
            let steps = apart(
                high.mantissa * pow2((high.shift - low.shift) as nat),
                low.mantissa as int,
                same_sign,
            );
            let near = apart(high.size(), low.size(), same_sign) < 17179871 * pow2(115);
            &&& steps >= 0
            &&& high.shift - low.shift > 60 ==> !near
            &&& low.shift <= 115 ==> near == (steps < 17179871 * pow2((115 - low.shift) as nat))
            &&& low.shift > 115 ==> near == (steps * pow2((low.shift - 115) as nat) < 17179871)
        }),
{
    let gap = (high.shift - low.shift) as nat;
    let g = pow2(gap) as int;
    let k = pow2(low.shift as nat) as int;
    let (m, n) = (high.mantissa as int, low.mantissa as int);
    vstd::arithmetic::power2::lemma_pow2_adds(gap, low.shift as nat);
    lemma_pow2_le(low.shift as nat, low.shift as nat);
    lemma_pow2_le(gap, gap);
    assert(m * (g * k) == (m * g) * k) by (nonlinear_arith);
    let steps = apart(m * g, n, same_sign);
    lemma_less_scaled(m * g, n, low.shift as nat);
    assert((m * g) * k - n * k == (m * g - n) * k) by (nonlinear_arith);
    assert(n * k - (m * g) * k == (n - m * g) * k) by (nonlinear_arith);
    assert((m * g) * k + n * k == (m * g + n) * k) by (nonlinear_arith);
    assert(apart(high.size(), low.size(), same_sign) == steps * k);
    assert(m * g >= 0) by (nonlinear_arith)
        requires
            m >= 0,
            g > 0,
    ;
    if low.shift <= 115 {
        let s = (115 - low.shift) as nat;
        vstd::arithmetic::power2::lemma_pow2_adds(s, low.shift as nat);
        assert(17179871 * (pow2(s) * k) == (17179871 * pow2(s)) * k) by (nonlinear_arith);
        lemma_less_scaled(steps, 17179871 * pow2(s) as int, low.shift as nat);
    } else {
        let s = (low.shift - 115) as nat;
        vstd::arithmetic::power2::lemma_pow2_adds(s, 115);
        assert(steps * (pow2(s) * pow2(115)) == (steps * pow2(s)) * pow2(115))
            by (nonlinear_arith);
        lemma_less_scaled(steps * pow2(s), 17179871, 115);
    }
    if gap > 60 {
        lemma_small_powers();
        vstd::arithmetic::power2::lemma2_to64_rest();
        lemma_pow2_le(60, gap);
        assert(m * g >= 0x80_0000 * 0x1000_0000_0000_0000) by (nonlinear_arith)
            requires
                m >= 0x80_0000,
                g >= 0x1000_0000_0000_0000,
        ;
        lemma_pow2_le(90, low.shift as nat);
        vstd::arithmetic::power2::lemma_pow2_adds(25, 90);
        vstd::arithmetic::power2::lemma2_to64();
        assert(steps * k >= 17179871 * pow2(115)) by (nonlinear_arith)
            requires
                steps >= 0x80_0000 * 0x1000_0000_0000_0000 - 0x100_0000,
                k >= pow2(90),
                pow2(115) == 0x200_0000 * pow2(90),
                pow2(90) > 0,
        ;
    }
}

/// Whether two magnitudes, of the same sign or not, are near, the first having the larger
/// exponent.
fn near_parts(high: Parts32, low: Parts32, same_sign: bool) -> (r: bool)
    requires
        high.valid(),
        low.valid(),
        low.shift <= high.shift,
    ensures
        r == (apart(high.size(), low.size(), same_sign) < 17179871 * pow2(115)),
{
    proof {
        lemma_small_powers();
        vstd::arithmetic::power2::lemma2_to64();
        vstd::arithmetic::power2::lemma2_to64_rest();
    }
    if high.shift <= 114 {
        proof {
            lemma_apart_small(high, low, same_sign);
        }
        true
    } else if low.shift < 90 {
        proof {
            lemma_apart_low(high, low, same_sign);
        }
        if high.shift - 115 >= 26 {
            return false;
        }
        let w: u128 = power(high.shift - 115);
        proof {
            lemma_pow2_le((high.shift - 115) as nat, 26);
            assert(high.mantissa * w <= 0x100_0000 * 0x400_0000) by (nonlinear_arith)
                requires
                    high.mantissa < 0x100_0000,
                    w <= 0x400_0000,
            ;
        }
        let big: u128 = high.mantissa * w;
        if same_sign && low.mantissa > 0 {
            big <= 17179871
        } else {
            big < 17179871
        }
    } else {
        proof {
            lemma_apart_high(high, low, same_sign);
        }
        if high.shift - low.shift > 60 {
            return false;
        }
        let g: u128 = power(high.shift - low.shift);
        proof {
            lemma_pow2_le((high.shift - low.shift) as nat, 60);
            assert(high.mantissa * g <= 0x100_0000 * 0x1000_0000_0000_0000) by (nonlinear_arith)
                requires
                    high.mantissa < 0x100_0000,
                    g <= 0x1000_0000_0000_0000,
            ;
        }
        let h: u128 = high.mantissa * g;
        let steps: u128 = if !same_sign {
            h + low.mantissa
        } else if h < low.mantissa {
            low.mantissa - h
        } else {
            h - low.mantissa
        };
        if low.shift <= 115 {
            let s: u128 = power(115 - low.shift);
            proof {
                lemma_pow2_le((115 - low.shift) as nat, 25);
            }
            steps < 17179871 * s
        } else if steps == 0 {
            assert(0 * pow2((low.shift - 115) as nat) == 0) by (nonlinear_arith);
            true
        } else if low.shift - 115 >= 25 {
            proof {
                lemma_pow2_le(25, (low.shift - 115) as nat);
                let w = pow2((low.shift - 115) as nat);
                assert(steps * w >= 0x200_0000) by (nonlinear_arith)
                    requires
                        steps >= 1,
                        w >= 0x200_0000,
                ;
            }
            false
        } else {
            let w: u128 = power(low.shift - 115);
            proof {
                lemma_pow2_le((low.shift - 115) as nat, 25);
                assert(steps * w <= 0x200_0000_0000_0000_0000_0000 * 0x200_0000)
                    by (nonlinear_arith)
                    requires
                        steps <= 0x200_0000_0000_0000_0000_0000,
                        w <= 0x200_0000,
                ;
            }
            steps * w < 17179871
        }
    }
}

/// Whether two singles are at most 0.001 apart in single-precision arithmetic.
pub fn is_near_32(a: u32, b: u32) -> (r: bool)
    ensures
        r == near_32(a, b),
{
    if a % SIGN_32 >= INFINITY_32 || b % SIGN_32 >= INFINITY_32 {
        return false;
    }
    let x = parts_32(a);
    let y = parts_32(b);
    let same_sign = (a >= SIGN_32) == (b >= SIGN_32);
    proof {
        lemma_pow2_le(115, 115);
    }
    if x.shift >= y.shift {
        near_parts(x, y, same_sign)
    } else {
        near_parts(y, x, same_sign)
    }
}

// ─── What the numbers promise ───────────────────────────────────────────────

/// A double with sign bit, exponent bits `e` and fraction bits `f` stands for
/// `(2^52 + f) * 2^(e - 1)` steps of 2^-1074, or for `f` of them where `e` is 0; one with all
/// exponent bits set is no finite number, and a NaN where `f` is not 0.
pub proof fn doubles_are_put_together(negative: bool, e: nat, f: nat)
    requires
        e <= 2047,
        f < 0x10_0000_0000_0000,
    ensures
        ({
            let d = Double {
                bits: ((if negative { 0x8000_0000_0000_0000int } else { 0 }) + e
                    * 0x10_0000_0000_0000 + f) as u64,
            };
            let size = if e == 0 {
                f as int
            } else {
                (0x10_0000_0000_0000int + f) * pow2((e - 1) as nat)
            };
            &&& d.finite() <==> e < 2047
            &&& d.nan() <==> e == 2047 && f != 0
            &&& d.value() == if negative { -size } else { size }
        }),
{
    lemma_small_powers();
    let low = e * 0x10_0000_0000_0000 + f;
    assert(low < 0x8000_0000_0000_0000);
    let bits = ((if negative { 0x8000_0000_0000_0000int } else { 0 }) + low) as u64;
    assert(bits % SIGN == low);
    assert(low / 0x10_0000_0000_0000 == e);
    assert(low % 0x10_0000_0000_0000 == f);
    assert(bits % FRACTION == f);
}

/// A single with sign bit, exponent bits `e` and fraction bits `f` stands for
/// `(2^23 + f) * 2^(e - 1)` steps of 2^-149, or for `f` of them where `e` is 0; one with all
/// exponent bits set is no finite number, and a NaN where `f` is not 0.
pub proof fn singles_are_put_together(negative: bool, e: nat, f: nat)
    requires
        e <= 255,
        f < 0x80_0000,
    ensures
        ({
            let b = ((if negative { 0x8000_0000int } else { 0 }) + e * 0x80_0000 + f) as u32;
            let size = if e == 0 {
                f as int
            } else {
                (0x80_0000int + f) * pow2((e - 1) as nat)
            };
            &&& finite_32(b) <==> e < 255
            &&& nan_32(b) <==> e == 255 && f != 0
            &&& value_32(b) == if negative { -size } else { size }
        }),
{
    lemma_small_powers();
    let low = e * 0x80_0000 + f;
    assert(low < 0x8000_0000);
    let b = ((if negative { 0x8000_0000int } else { 0 }) + low) as u32;
    assert(b % SIGN_32 == low);
    assert(low / 0x80_0000 == e);
    assert(low % 0x80_0000 == f);
}

/// Cutting off the fractional part goes towards zero and by less than one, and nothing is cut
/// off exactly where a finite number is whole.
pub proof fn truncation_goes_towards_zero(d: Double)
    ensures
        d.value() >= 0 ==> d.truncated() >= 0 && d.truncated() * pow2(1074) <= d.value()
            < (d.truncated() + 1) * pow2(1074),
        d.value() <= 0 ==> d.truncated() <= 0 && (d.truncated() - 1) * pow2(1074) < d.value()
            <= d.truncated() * pow2(1074),
        d.whole() <==> d.finite() && d.value() == d.truncated() * pow2(1074),
{
    let n = d.scaled() as int;
    let u = pow2(1074) as int;
    lemma_pow2_le(1074, 1074);
    vstd::arithmetic::div_mod::lemma_fundamental_div_mod(n, u);
    vstd::arithmetic::div_mod::lemma_div_pos_is_pos(n, u);
    let q = n / u;
    let r = n % u;
    assert(0 <= r < u);
    assert(q * u == u * q) by (nonlinear_arith);
    assert((q + 1) * u == q * u + u) by (nonlinear_arith);
    assert((-q) * u == -(q * u)) by (nonlinear_arith);
    assert((-q - 1) * u == -(q * u) - u) by (nonlinear_arith);
    if n == 0 {
        assert(q * u + r == 0);
        assert(q == 0) by (nonlinear_arith)
            requires
                q >= 0,
                r >= 0,
                u > 0,
                q * u + r == 0,
        ;
    }
}

/// A number that is held between two bounds is between them, and is the number with its
/// fractional part cut off where that is.
pub proof fn saturation_holds_the_bounds(d: Double, min: int, max: int)
    requires
        min <= 0 <= max,
    ensures
        min <= d.saturated(min, max) <= max,
        !d.nan() && min <= d.truncated() <= max ==> d.saturated(min, max) == d.truncated(),
        !d.nan() && d.truncated() < min ==> d.saturated(min, max) == min,
        !d.nan() && d.truncated() > max ==> d.saturated(min, max) == max,
        d.nan() ==> d.saturated(min, max) == 0,
{
}

/// Singles at most a thousandth apart are near; those more than a thousandth and a millionth of
/// it apart are not, nor are any that are not finite.
pub proof fn near_is_a_thousandth(a: u32, b: u32)
    ensures
        near_32(a, b) ==> finite_32(a) && finite_32(b),
        near_32(a, b) == near_32(b, a),
        finite_32(a) && finite_32(b) && -(pow2(149) as int) <= 1000 * (value_32(a) - value_32(b))
            <= pow2(149) ==> near_32(a, b),
        1_000_000_000 * (value_32(a) - value_32(b)) >= 1_000_001 * pow2(149) ==> !near_32(a, b),
        1_000_000_000 * (value_32(b) - value_32(a)) >= 1_000_001 * pow2(149) ==> !near_32(a, b),
{
    let u = pow2(115) as int;
    lemma_pow2_le(115, 115);
    vstd::arithmetic::power2::lemma_pow2_adds(34, 115);
    vstd::arithmetic::power2::lemma2_to64_rest();
    assert(pow2(149) == 17179869184 * u);
}

/// A number comes close to its single where they are less than a millionth apart; a part in a
/// billion of that is left open.
pub proof fn close_is_a_millionth(d: Double)
    requires
        d.finite(),
        d.rounded_bits() < INFINITY_32,
    ensures
        ({
            let apart = d.scaled() - magnitude(23, d.rounded_bits()) * pow2(925);
            &&& -999_999_999 * pow2(1074) <= 1_000_000_000_000_000 * apart <= 999_999_999 * pow2(
                1074,
            ) ==> d.close_to_single()
            &&& 1_000_000_000_000_000 * apart >= 1_000_000_001 * pow2(1074) ==> !d.close_to_single()
            &&& -1_000_000_000_000_000 * apart >= 1_000_000_001 * pow2(1074)
                ==> !d.close_to_single()
        }),
{
    let u = pow2(1002) as int;
    lemma_pow2_le(1002, 1002);
    vstd::arithmetic::power2::lemma_pow2_adds(64, 8);
    vstd::arithmetic::power2::lemma_pow2_adds(72, 1002);
    lemma_small_powers();
    vstd::arithmetic::power2::lemma2_to64();
    assert(pow2(72) == 0x100_0000_0000_0000_0000);
    assert(pow2(1074) == 0x100_0000_0000_0000_0000 * u);
}

/// No whole multiple of `d` is nearer to `n` than the one that rounding gives.
proof fn lemma_half_even_nearest(n: nat, d: nat, k: int)
    requires
        d > 0,
    ensures
        distance(n as int, (half_even(n, d) * d) as int) <= distance(n as int, k * d),
{
    let q = (n / d) as int;
    let r = (n % d) as int;
    vstd::arithmetic::div_mod::lemma_fundamental_div_mod(n as int, d as int);
    assert(d * q == q * d) by (nonlinear_arith);
    assert((q + 1) * d == q * d + d) by (nonlinear_arith);
    if k <= q {
        assert(k * d <= q * d) by (nonlinear_arith)
            requires
                k <= q,
                d > 0,
        ;
    } else {
        assert(k * d >= (q + 1) * d) by (nonlinear_arith)
            requires
                k >= q + 1,
                d > 0,
        ;
    }
}

/// How far two numbers are apart.
pub open spec fn distance(a: int, b: int) -> int {
    if a < b {
        b - a
    } else {
        a - b
    }
}

/// The magnitude of single-precision bits lies on the grid of every exponent at or below theirs,
/// and below or above its range otherwise.
proof fn lemma_on_the_grid(y: nat, k: nat) -> (q: int)
    ensures
        magnitude(23, y) == q * pow2(k) || (magnitude(23, y) < 0x80_0000 * pow2(k) && q
            == 0x80_0000 && k > 0),
{
    lemma_small_powers();
    lemma_pow2_le(k, k);
    let (e, f) = (y / 0x80_0000, y % 0x80_0000);
    if e == 0 {
        if k == 0 {
            assert(f * pow2(0) == f) by (nonlinear_arith)
                requires
                    pow2(0) == 1,
            ;
            f as int
        } else {
            lemma_pow2_le(0, k);
            assert(f < 0x80_0000 * pow2(k)) by (nonlinear_arith)
                requires
                    f < 0x80_0000,
                    pow2(k) >= 1,
            ;
            0x80_0000
        }
    } else if e - 1 >= k {
        let j = (e - 1 - k) as nat;
        vstd::arithmetic::power2::lemma_pow2_adds(j, k);
        let m = 0x80_0000 + f;
        assert(m * (pow2(j) * pow2(k)) == (m * pow2(j)) * pow2(k)) by (nonlinear_arith);
        (m * pow2(j)) as int
    } else {
        lemma_pow2_le(e, k);
        vstd::arithmetic::power2::lemma_pow2_unfold(e);
        let (m, j) = (0x80_0000 + f, pow2((e - 1) as nat));
        lemma_pow2_le((e - 1) as nat, (e - 1) as nat);
        assert(m * j < 0x80_0000 * pow2(k)) by (nonlinear_arith)
            requires
                m < 0x100_0000,
                j > 0,
                2 * j <= pow2(k),
        ;
        0x80_0000
    }
}

/// The sign-less single that a finite number is rounded to is the nearest there is: no bits
/// stand for a magnitude that is nearer.
pub proof fn rounding_is_to_the_nearest(d: Double, y: nat)
    requires
        d.finite(),
    ensures
        distance(
            d.scaled() as int,
            (magnitude(23, d.rounded_bits()) * pow2(925)) as int,
        ) <= distance(d.scaled() as int, (magnitude(23, y) * pow2(925)) as int),
{
    let n = d.scaled();
    let near = magnitude(23, d.rounded_bits()) * pow2(925);
    let other = magnitude(23, y) * pow2(925);
    let k = (d.step() - 897) as nat;
    let unit = pow2(d.step() + 28);
    lemma_small_powers();
    lemma_pow2_le(925, 925);
    lemma_pow2_le(d.step() + 28, d.step() + 28);
    vstd::arithmetic::power2::lemma_pow2_adds(k, 925);
    assert(unit == pow2(k) * pow2(925));
    let q = half_even(n, unit);
    d.lemma_rounds_to(q);
    assert(near == q * unit);
    let g = lemma_on_the_grid(y, k);
    lemma_half_even_nearest(n, unit, g);
    if magnitude(23, y) == g * pow2(k) {
        assert(other == g * unit) by (nonlinear_arith)
            requires
                other == (g * pow2(k)) * pow2(925),
                unit == pow2(k) * pow2(925),
        ;
    } else {
        assert(other < 0x80_0000 * unit) by (nonlinear_arith)
            requires
                other == magnitude(23, y) * pow2(925),
                magnitude(23, y) < 0x80_0000 * pow2(k),
                unit == pow2(k) * pow2(925),
                pow2(925) > 0,
        ;
        if k > 0 {
            assert(n >= 0x80_0000 * unit);
        }
    }
}

impl Double {
    /// Rounding gives a multiple of the unit, and the number is at least 2^23 units where the
    /// unit is not the smallest.
    proof fn lemma_rounds_to(self, q: nat)
        requires
            self.finite(),
            q == half_even(self.scaled(), pow2(self.step() + 28)),
        ensures
            magnitude(23, self.rounded_bits()) * pow2(925) == q * pow2(self.step() + 28),
            self.step() > 897 ==> self.scaled() >= 0x80_0000 * pow2(self.step() + 28),
    {
        let p = self.to_parts();
        let k = (self.step() - 897) as nat;
        let unit = pow2(self.step() + 28);
        let m = p.mantissa as nat;
        lemma_small_powers();
        self.lemma_parts();
        self.lemma_rounding(p);
        lemma_pow2_le(925, 925);
        lemma_pow2_le(k, k);
        vstd::arithmetic::power2::lemma_pow2_adds(k, 925);
        if p.exponent >= 897 {
            vstd::arithmetic::power2::lemma_pow2_adds(29, p.shift as nat);
            assert(q == half_even(m, 0x2000_0000));
            assert(0x80_0000 <= q <= 0x100_0000);
            let bits = self.rounded_bits();
            assert(bits == k * 0x80_0000 + q);
            if q < 0x100_0000 {
                assert(bits / 0x80_0000 == k + 1);
                assert(bits % 0x80_0000 == q - 0x80_0000);
                assert(magnitude(23, bits) == q * pow2(k));
            } else {
                assert(bits / 0x80_0000 == k + 2);
                assert(bits % 0x80_0000 == 0);
                vstd::arithmetic::power2::lemma_pow2_unfold(k + 1);
                assert(magnitude(23, bits) == 0x80_0000 * pow2(k + 1));
                assert(0x80_0000 * (2 * pow2(k)) == 0x100_0000 * pow2(k)) by (nonlinear_arith);
            }
            assert((q * pow2(k)) * pow2(925) == q * (pow2(k) * pow2(925))) by (nonlinear_arith);
            assert(m * pow2(p.shift as nat) >= 0x80_0000 * (0x2000_0000 * pow2(p.shift as nat)))
                by (nonlinear_arith)
                requires
                    m >= 0x10_0000_0000_0000,
            ;
        } else {
            assert(k == 0);
            assert(q <= 0x80_0000) by {
                if 872 <= p.exponent {
                    let d = pow2((926 - p.exponent) as nat);
                    lemma_pow2_le(30, (926 - p.exponent) as nat);
                    vstd::arithmetic::power2::lemma2_to64();
                    assert(m / d <= 0x7f_ffff) by (nonlinear_arith)
                        requires
                            m < 0x20_0000_0000_0000,
                            d >= 0x4000_0000,
                    ;
                }
            }
            let bits = self.rounded_bits();
            assert(bits == q);
            if q < 0x80_0000 {
                assert(bits / 0x80_0000 == 0 && bits % 0x80_0000 == q);
            } else {
                assert(bits / 0x80_0000 == 1 && bits % 0x80_0000 == 0);
                assert(0x80_0000 * pow2(0) == 0x80_0000);
            }
            assert(magnitude(23, bits) == q);
        }
    }

    proof fn lemma_parts(self)
        ensures
            self.to_parts().of(self),
    {
        let p = self.to_parts();
        let x = (self.bits % SIGN) as nat;
        lemma_small_powers();
        assert(x / pow2(52) == self.exponent());
        assert(x % pow2(52) == self.fraction()) by {
            assert((self.bits % SIGN) % FRACTION == self.bits % FRACTION);
        }
        assert(self.exponent() <= 2047);
        if p.exponent == 0 {
            assert(p.mantissa * pow2(0) == p.mantissa) by (nonlinear_arith)
                requires
                    pow2(0) == 1,
            ;
        }
    }

    /// The parts of a number, as a ghost value.
    spec fn to_parts(self) -> Parts {
        Parts {
            negative: self.negative(),
            exponent: self.exponent() as u64,
            fraction: self.fraction() as u64,
            mantissa: (if self.exponent() == 0 {
                self.fraction()
            } else {
                FRACTION as nat + self.fraction()
            }) as u64,
            shift: (if self.exponent() == 0 { 0int } else { self.exponent() - 1 }) as u64,
        }
    }
}

/// A number in single precision keeps its sign. It is an infinity where the number is one or is
/// beyond the largest finite single, a NaN where it is one, and otherwise the single that it is
/// rounded to.
pub proof fn singles_keep_sign_and_kind(d: Double)
    ensures
        ({
            let b = d.single() as u32;
            &&& b == d.single()
            &&& b >= 0x8000_0000 <==> d.negative()
            &&& nan_32(b) <==> d.nan()
            &&& finite_32(b) <==> d.finite() && d.rounded_bits() < 0x7f80_0000
            &&& finite_32(b) ==> value_32(b) == if d.negative() {
                -(magnitude(23, d.rounded_bits()) as int)
            } else {
                magnitude(23, d.rounded_bits()) as int
            }
        }),
{
    single_fits(d);
    assert(d.fraction() / 0x2000_0000 < 0x80_0000);
}

/// Half way between two whole numbers, rounding goes to the even one; elsewhere it goes to the
/// nearer one.
pub proof fn ties_go_to_the_even_one(n: nat, d: nat, q: nat)
    requires
        d > 0,
    ensures
        2 * n == 2 * q * d + d ==> half_even(n, d) % 2 == 0,
        2 * q * d < 2 * n + d && 2 * n < 2 * q * d + d ==> half_even(n, d) == q,
{
    let (k, r) = (n / d, n % d);
    assert(n == k * d + r && 0 <= r < d) by (nonlinear_arith)
        requires
            d > 0,
            k == n / d,
            r == n % d,
    ;
    if 2 * n == 2 * q * d + d {
        assert(k == q && 2 * r == d) by (nonlinear_arith)
            requires
                n == k * d + r,
                0 <= r < d,
                2 * n == 2 * q * d + d,
        ;
    }
    if 2 * q * d < 2 * n + d && 2 * n < 2 * q * d + d {
        assert((k == q && 2 * r < d) || (k + 1 == q && 2 * r > d)) by (nonlinear_arith)
            requires
                n == k * d + r,
                0 <= r < d,
                k >= 0,
                q >= 0,
                2 * q * d < 2 * n + d,
                2 * n < 2 * q * d + d,
        ;
    }
}

} // verus!
