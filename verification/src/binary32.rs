//! IEEE 754 binary32 numbers as bit patterns, with the arithmetic that the
//! pipeline needs carried out on integers.
//!
//! Every finite binary32 number is a whole multiple of 2^-149. The magnitude
//! of a pattern is that multiple, so exact sums are sums of integers and
//! rounding is a statement about integers.
//!
//! The standard leaves open which not-a-number pattern an operation gives.
//! Here it is always [`QUIET_NAN`].

use vstd::prelude::*;
use vstd::arithmetic::power2::*;
use vstd::arithmetic::div_mod::*;
use crate::rounding::{
    lemma_far_sum, lemma_nearest_magnitude_scaled, lemma_pattern_of_parts,
    lemma_pattern_round_trip, lemma_pow2_ordered, lemma_pow2_significand, lemma_pow2_step,
    lemma_pow2_values,
};

verus! {

/// The sign bit alone: negative zero.
pub const SIGN_BIT: u32 = 0x8000_0000;

/// Positive infinity.
pub const INFINITY: u32 = 0x7F80_0000;

/// The one not-a-number pattern that this module produces.
pub const QUIET_NAN: u32 = 0x7FC0_0000;

/// Whether the sign bit is set.
pub open spec fn negative(bits: u32) -> bool {
    bits >= 0x8000_0000u32
}

/// The eight exponent bits.
pub open spec fn exponent_field(bits: u32) -> nat {
    ((bits / 0x80_0000u32) % 0x100) as nat
}

/// The twenty-three fraction bits.
pub open spec fn fraction_field(bits: u32) -> nat {
    (bits % 0x80_0000u32) as nat
}

/// Whether the pattern is a not-a-number.
pub open spec fn is_nan(bits: u32) -> bool {
    exponent_field(bits) == 255 && fraction_field(bits) != 0
}

/// Whether the pattern is an infinity.
pub open spec fn is_infinite(bits: u32) -> bool {
    exponent_field(bits) == 255 && fraction_field(bits) == 0
}

/// Whether the pattern is a number: zero, subnormal or normal.
pub open spec fn is_finite(bits: u32) -> bool {
    exponent_field(bits) < 255
}

/// The significand as an integer below 2^24, the hidden bit included for a
/// normal number.
pub open spec fn significand(bits: u32) -> nat {
    if exponent_field(bits) == 0 {
        fraction_field(bits)
    } else {
        0x80_0000 + fraction_field(bits)
    }
}

/// The power of two that scales the significand, counted from 2^-149.
pub open spec fn scale(bits: u32) -> nat {
    if exponent_field(bits) == 0 {
        0
    } else {
        (exponent_field(bits) - 1) as nat
    }
}

/// The absolute value of a finite pattern, in units of 2^-149.
pub open spec fn magnitude(bits: u32) -> nat {
    significand(bits) * pow2(scale(bits))
}

/// The value of a finite pattern, in units of 2^-149.
pub open spec fn signed_units(bits: u32) -> int {
    if negative(bits) {
        -(magnitude(bits) as int)
    } else {
        magnitude(bits) as int
    }
}

/// `n / d` rounded to the nearest integer, a tie going to the even neighbour.
pub open spec fn nearest_integer(n: nat, d: nat) -> nat
    recommends
        d > 0,
{
    let q = n / d;
    let r = n % d;
    if 2 * r > d || (2 * r == d && q % 2 == 1) {
        q + 1
    } else {
        q
    }
}

/// The number of low bits that a 24-bit significand cannot keep of `n`: the
/// least `s` with `n < 2^(24 + s)`.
pub open spec fn surplus_bits(n: nat) -> nat
    decreases n,
{
    if n < 0x100_0000 {
        0
    } else {
        1 + surplus_bits(n / 2)
    }
}

/// `n / d` rounded to the nearest magnitude that a binary32 significand can
/// express, ties to even. The result may be 2^277, one step past the largest
/// finite magnitude.
pub open spec fn nearest_magnitude(n: nat, d: nat) -> nat
    recommends
        d > 0,
{
    let s = surplus_bits(n / d);
    nearest_integer(n, d * pow2(s)) * pow2(s)
}

/// The pattern with the given sign and magnitude; infinity where the
/// magnitude is 2^277 or more.
pub open spec fn pattern_of(negative: bool, units: nat) -> u32 {
    let s = surplus_bits(units);
    let body: nat = if s > 253 {
        0x7F80_0000
    } else {
        s * 0x80_0000 + units / pow2(s)
    };
    if negative {
        (0x8000_0000 + body) as u32
    } else {
        body as u32
    }
}

/// The pattern nearest to an exact value given in units of 2^-149. An exact
/// zero is negative only where both operands were.
pub open spec fn rounded(exact: int, both_negative: bool) -> u32 {
    if exact == 0 {
        if both_negative {
            SIGN_BIT
        } else {
            0
        }
    } else if exact < 0 {
        pattern_of(true, nearest_magnitude((-exact) as nat, 1))
    } else {
        pattern_of(false, nearest_magnitude(exact as nat, 1))
    }
}

/// The correctly rounded sum of two patterns: the exact sum, rounded to
/// nearest with ties to even, infinity on overflow.
pub open spec fn sum(a: u32, b: u32) -> u32 {
    if is_nan(a) || is_nan(b) {
        QUIET_NAN
    } else if is_infinite(a) {
        if is_infinite(b) && negative(a) != negative(b) {
            QUIET_NAN
        } else {
            a
        }
    } else if is_infinite(b) {
        b
    } else {
        rounded(signed_units(a) + signed_units(b), negative(a) && negative(b))
    }
}

/// The correctly rounded quotient of a pattern by a count. Dividing by zero
/// gives what the standard gives: an infinity with the sign of the dividend,
/// and a not-a-number where the dividend is zero as well.
pub open spec fn quotient(a: u32, count: nat) -> u32 {
    if is_nan(a) {
        QUIET_NAN
    } else if is_infinite(a) {
        a
    } else if count == 0 {
        if significand(a) == 0 {
            QUIET_NAN
        } else if negative(a) {
            0xFF80_0000
        } else {
            INFINITY
        }
    } else {
        pattern_of(negative(a), nearest_magnitude(magnitude(a), count))
    }
}

/// A pattern taken apart: sign, significand and scale.
#[derive(Clone, Copy, Debug)]
pub struct Parts {
    pub negative: bool,
    pub significand: u32,
    pub scale: u32,
}

/// Takes a pattern apart.
pub fn parts(bits: u32) -> (p: Parts)
    ensures
        p.negative == negative(bits),
        p.significand == significand(bits),
        p.scale == scale(bits),
        p.significand < 0x100_0000,
        p.scale <= 254,
        is_finite(bits) ==> p.scale <= 253,
        p.scale > 0 ==> p.significand >= 0x80_0000,
{
    let field: u32 = (bits / 0x80_0000) % 0x100;
    let fraction: u32 = bits % 0x80_0000;
    if field == 0 {
        Parts { negative: bits >= SIGN_BIT, significand: fraction, scale: 0 }
    } else {
        Parts { negative: bits >= SIGN_BIT, significand: 0x80_0000 + fraction, scale: field - 1 }
    }
}

/// Whether the pattern is neither an infinity nor a not-a-number.
pub fn finite(bits: u32) -> (r: bool)
    ensures
        r == is_finite(bits),
{
    (bits / 0x80_0000) % 0x100 < 255
}

/// Whether the pattern is a not-a-number.
pub fn nan(bits: u32) -> (r: bool)
    ensures
        r == is_nan(bits),
{
    (bits / 0x80_0000) % 0x100 == 255 && bits % 0x80_0000 != 0
}

/// The pattern nearest to `n / d * 2^shift`, with the given sign.
fn round_to_pattern(negative: bool, n: u128, d: u64, shift: u32) -> (r: u32)
    requires
        d > 0,
        n < 0x1_0000_0000_0000_0000_0000_0000,
        shift <= 253,
        shift > 0 ==> n / (d as u128) >= 0x80_0000,
    ensures
        r == pattern_of(negative, nearest_magnitude(n as nat * pow2(shift as nat), d as nat)),
{
    let q0: u128 = n / (d as u128);
    let mut s: u32 = 0;
    let mut unit: u128 = 1;
    let mut t: u128 = q0;
    proof {
        lemma_pow2_significand();
        lemma_fundamental_div_mod(n as int, d as int);
        lemma_mod_pos_bound(n as int, d as int);
        assert(d * q0 <= n) by (nonlinear_arith)
            requires
                n == d * q0 + n % (d as u128),
                n % (d as u128) >= 0,
        ;
        assert(q0 <= n) by (nonlinear_arith)
            requires
                d * q0 <= n,
                d >= 1,
        ;
    }
    while t >= 0x100_0000
        invariant
            unit == pow2(s as nat),
            unit > 0,
            t == q0 / unit,
            unit * t <= q0,
            s > 0 ==> t >= 0x80_0000,
            surplus_bits(q0 as nat) == s + surplus_bits(t as nat),
            q0 <= n,
            n < 0x1_0000_0000_0000_0000_0000_0000,
            s <= 96,
        decreases t,
    {
        proof {
            lemma_pow2_step(s as nat);
            if s >= 96 {
                lemma2_to64();
                lemma2_to64_rest();
                lemma_pow2_adds(64, 32);
                if s > 96 {
                    lemma_pow2_strictly_increases(96, s as nat);
                }
            }
            lemma_div_denominator(q0 as int, unit as int, 2);
            lemma_fundamental_div_mod(t as int, 2);
            assert(unit * 2 * (t / 2) <= unit * t) by (nonlinear_arith)
                requires
                    2 * (t / 2) <= t,
                    unit >= 0,
            ;
            assert(unit * 0x100_0000 <= unit * t) by (nonlinear_arith)
                requires
                    t >= 0x100_0000,
                    unit >= 0,
            ;
        }
        t = t / 2;
        unit = unit * 2;
        s = s + 1;
    }
    proof {
        assert(surplus_bits(t as nat) == 0);
        if s > 0 {
            assert(unit * 0x80_0000 <= unit * t) by (nonlinear_arith)
                requires
                    t >= 0x80_0000,
                    unit >= 0,
            ;
        }
        assert(d * unit <= d * q0 || s == 0) by (nonlinear_arith)
            requires
                unit <= q0 || s == 0,
                d >= 0,
        ;
        lemma_div_denominator(n as int, d as int, unit as int);
    }
    let whole: u128 = (d as u128) * unit;
    let q: u128 = n / whole;
    let rest: u128 = n % whole;
    let up: bool = 2 * rest > whole || (2 * rest == whole && q % 2 == 1);
    let mut m: u32 = if up {
        (q + 1) as u32
    } else {
        q as u32
    };
    let mut x: u32 = s + shift;
    proof {
        assert(q == t);
        assert(m == nearest_integer(n as nat, d as nat * pow2(s as nat)));
        assert(nearest_magnitude(n as nat, d as nat) == m * pow2(s as nat));
        lemma_pow2_adds(s as nat, shift as nat);
        if shift > 0 {
            lemma_nearest_magnitude_scaled(n as nat, d as nat, shift as nat);
        } else {
            assert(n as nat * pow2(0) == n as nat);
            assert(m * pow2(s as nat) * pow2(0) == m * pow2(s as nat)) by (nonlinear_arith)
                requires
                    pow2(0) == 1,
            ;
        }
        assert(m * pow2(s as nat) * pow2(shift as nat) == m * pow2(x as nat)) by (nonlinear_arith)
            requires
                pow2(s as nat) * pow2(shift as nat) == pow2(x as nat),
        ;
        assert(nearest_magnitude(n as nat * pow2(shift as nat), d as nat) == m * pow2(x as nat));
    }
    if m == 0x100_0000 {
        proof {
            lemma_pow2_step(x as nat);
            assert(0x100_0000 * pow2(x as nat) == 0x80_0000 * pow2((x + 1) as nat))
                by (nonlinear_arith)
                requires
                    pow2((x + 1) as nat) == 2 * pow2(x as nat),
            ;
        }
        m = 0x80_0000;
        x = x + 1;
    }
    proof {
        lemma_pattern_of_parts(negative, m as nat, x as nat);
    }
    let body: u32 = if x > 253 {
        INFINITY
    } else {
        x * 0x80_0000 + m
    };
    if negative {
        SIGN_BIT + body
    } else {
        body
    }
}

/// 2^e as a machine integer.
pub(crate) fn power_of_two(e: u32) -> (r: u128)
    requires
        e <= 104,
    ensures
        r == pow2(e as nat),
{
    let mut r: u128 = 1;
    let mut i: u32 = 0;
    proof {
        lemma_pow2_significand();
        lemma_pow2_values();
    }
    while i < e
        invariant
            i <= e,
            e <= 104,
            r == pow2(i as nat),
            pow2(104) == 0x100_0000_0000_0000_0000_0000_0000,
        decreases e - i,
    {
        proof {
            lemma_pow2_step(i as nat);
            lemma_pow2_ordered((i + 1) as nat, 104);
        }
        r = r * 2;
        i = i + 1;
    }
    r
}

/// Divides a pattern by a count, rounding once.
pub fn divided_by(a: u32, count: u64) -> (r: u32)
    ensures
        r == quotient(a, count as nat),
{
    if nan(a) {
        return QUIET_NAN;
    }
    if !finite(a) {
        return a;
    }
    let p = parts(a);
    if count == 0 {
        return if p.significand == 0 {
            QUIET_NAN
        } else if p.negative {
            SIGN_BIT + INFINITY
        } else {
            INFINITY
        };
    }
    let lift: u32 = if p.scale > 72 {
        72
    } else {
        p.scale
    };
    let rest: u32 = p.scale - lift;
    let unit: u128 = power_of_two(lift);
    proof {
        lemma_pow2_values();
        lemma_pow2_adds(64, 8);
        lemma2_to64();
        lemma_pow2_ordered(lift as nat, 72);
        lemma_pow2_adds(lift as nat, rest as nat);
        assert(p.significand * unit <= 0xFF_FFFF * 0x1_00_0000_0000_0000_0000)
            by (nonlinear_arith)
            requires
                p.significand <= 0xFF_FFFF,
                unit <= 0x1_00_0000_0000_0000_0000,
        ;
    }
    let n: u128 = (p.significand as u128) * unit;
    proof {
        assert(n * pow2(rest as nat) == magnitude(a)) by (nonlinear_arith)
            requires
                n == p.significand * unit,
                unit * pow2(rest as nat) == pow2(scale(a)),
                magnitude(a) == p.significand * pow2(scale(a)),
        ;
        if rest > 0 {
            assert(n >= count * 0x80_0000) by (nonlinear_arith)
                requires
                    n == p.significand * unit,
                    unit == 0x1_00_0000_0000_0000_0000,
                    p.significand >= 0x80_0000,
                    count <= 0xFFFF_FFFF_FFFF_FFFF,
            ;
            lemma_div_is_ordered((count * 0x80_0000) as int, n as int, count as int);
            lemma_div_multiples_vanish(0x80_0000, count as int);
        }
    }
    round_to_pattern(p.negative, n, count, rest)
}

/// Adds two finite patterns, the one with the larger scale first.
fn plus_ordered(hi_bits: u32, lo_bits: u32) -> (r: u32)
    requires
        is_finite(hi_bits),
        is_finite(lo_bits),
        scale(hi_bits) >= scale(lo_bits),
    ensures
        r == rounded(
            signed_units(hi_bits) + signed_units(lo_bits),
            negative(hi_bits) && negative(lo_bits),
        ),
{
    let hi = parts(hi_bits);
    let lo = parts(lo_bits);
    let gap: u32 = hi.scale - lo.scale;
    let ghost base = pow2(lo.scale as nat);
    let ghost exact = signed_units(hi_bits) + signed_units(lo_bits);
    proof {
        lemma_pow2_pos(lo.scale as nat);
        lemma_pow2_pos(gap as nat);
        lemma_pow2_adds(gap as nat, lo.scale as nat);
        assert(magnitude(hi_bits) == hi.significand * pow2(gap as nat) * base) by (nonlinear_arith)
            requires
                magnitude(hi_bits) == hi.significand * pow2(scale(hi_bits)),
                pow2(scale(hi_bits)) == pow2(gap as nat) * base,
        ;
    }
    if gap > 64 {
        proof {
            let same = hi.negative == lo.negative;
            let a = hi.significand as nat * pow2(gap as nat);
            let small = lo.significand as nat;
            lemma_far_sum(hi.significand as nat, gap as nat, small, same);
            lemma_far_sum(hi.significand as nat, gap as nat, 0, true);
            lemma2_to64();
            lemma_pow2_strictly_increases(26, gap as nat);
            assert(a >= 0x80_0000 * 0x400_0000) by (nonlinear_arith)
                requires
                    a == hi.significand * pow2(gap as nat),
                    hi.significand >= 0x80_0000,
                    pow2(gap as nat) >= 0x400_0000,
            ;
            let y: nat = if same {
                a + small
            } else {
                (a - small) as nat
            };
            assert(y / 1 == y);
            lemma_nearest_magnitude_scaled(y, 1, lo.scale as nat);
            assert(y * base == if same {
                (a * base + small * base) as int
            } else {
                a * base - small * base
            }) by (nonlinear_arith)
                requires
                    y == if same {
                        a + small
                    } else {
                        (a - small) as nat
                    },
                    a >= small,
            ;
            assert(y * base > 0) by (nonlinear_arith)
                requires
                    y > 0,
                    base > 0,
            ;
            assert(if hi.negative {
                exact == -(y * base)
            } else {
                exact == y * base
            });
            lemma_pattern_round_trip(hi_bits);
        }
        return hi_bits;
    }
    let unit: u128 = power_of_two(gap);
    proof {
        lemma_pow2_values();
        lemma_pow2_ordered(gap as nat, 64);
        assert(hi.significand * unit <= 0xFF_FFFF * 0x1_0000_0000_0000_0000) by (nonlinear_arith)
            requires
                hi.significand <= 0xFF_FFFF,
                unit <= 0x1_0000_0000_0000_0000,
        ;
    }
    let big: u128 = (hi.significand as u128) * unit;
    let small: u128 = lo.significand as u128;
    let negative: bool;
    let y: u128;
    if hi.negative == lo.negative {
        negative = hi.negative;
        y = big + small;
    } else if big >= small {
        negative = hi.negative;
        y = big - small;
    } else {
        negative = lo.negative;
        y = small - big;
    }
    proof {
        assert(magnitude(hi_bits) == big * base);
        assert(magnitude(lo_bits) == small * base);
        assert(if negative {
            exact == -(y * base)
        } else {
            exact == y * base
        }) by (nonlinear_arith)
            requires
                exact == (if hi.negative {
                    -(big * base)
                } else {
                    big * base
                }) + (if lo.negative {
                    -(small * base)
                } else {
                    small * base
                }),
                hi.negative == lo.negative ==> negative == hi.negative && y == big + small,
                hi.negative != lo.negative && big >= small ==> negative == hi.negative && y == big
                    - small,
                hi.negative != lo.negative && big < small ==> negative == lo.negative && y == small
                    - big,
        ;
        assert(y == 0 <==> y * base == 0) by (nonlinear_arith)
            requires
                base > 0,
                y >= 0,
        ;
    }
    if y == 0 {
        return if hi.negative && lo.negative {
            SIGN_BIT
        } else {
            0
        };
    }
    let mut n: u128 = y;
    let mut shift: u32 = lo.scale;
    while n < 0x80_0000 && shift > 0
        invariant
            n * pow2(shift as nat) == y * base,
            0 < n < 0x1_0000_0000_0000_0000_0000_0000,
            shift <= 253,
        decreases shift,
    {
        proof {
            lemma_pow2_step((shift - 1) as nat);
            assert((n * 2) * pow2((shift - 1) as nat) == n * pow2(shift as nat))
                by (nonlinear_arith)
                requires
                    pow2(shift as nat) == 2 * pow2((shift - 1) as nat),
            ;
        }
        n = n * 2;
        shift = shift - 1;
    }
    proof {
        assert(n / 1 == n);
        assert(y * base > 0) by (nonlinear_arith)
            requires
                y > 0,
                base > 0,
        ;
    }
    round_to_pattern(negative, n, 1, shift)
}

/// Adds two patterns, rounding once.
pub fn plus(a: u32, b: u32) -> (r: u32)
    ensures
        r == sum(a, b),
{
    if nan(a) || nan(b) {
        return QUIET_NAN;
    }
    if !finite(a) {
        if !finite(b) && (a >= SIGN_BIT) != (b >= SIGN_BIT) {
            return QUIET_NAN;
        }
        return a;
    }
    if !finite(b) {
        return b;
    }
    let pa = parts(a);
    let pb = parts(b);
    if pa.scale >= pb.scale {
        plus_ordered(a, b)
    } else {
        plus_ordered(b, a)
    }
}

} // verus!
