//! Decimal text with seven fractional digits.
//!
//! The text of a finite number is that of its absolute value times 10^7,
//! rounded to the nearest integer with ties to even, with the point put back
//! before the last seven digits.

use vstd::prelude::*;
use vstd::arithmetic::power2::*;
use vstd::arithmetic::div_mod::*;
use crate::binary32::{
    finite, is_infinite, is_nan, magnitude, nan, nearest_integer, negative, parts, power_of_two,
    SIGN_BIT,
};
use crate::rounding::{
    lemma_nearest_integer_scaled, lemma_pow2_ordered, lemma_pow2_significand, lemma_pow2_values,
};

verus! {

/// The longest text that a number can take: a sign, thirty-nine digits, the
/// point and seven more digits.
pub const NUMBER_WIDTH: usize = 48;

/// The ASCII digit for `d % 10`.
pub open spec fn digit(d: nat) -> u8 {
    (48 + d % 10) as u8
}

/// The decimal digits of `n`, without leading zeros.
pub open spec fn decimal(n: nat) -> Seq<u8>
    decreases n,
{
    if n < 10 {
        seq![digit(n)]
    } else {
        decimal(n / 10).push(digit(n % 10))
    }
}

/// The last seven decimal digits of `n`, zeros included.
pub open spec fn seven_digits(n: nat) -> Seq<u8> {
    seq![
        digit(n / 1_000_000),
        digit(n / 100_000),
        digit(n / 10_000),
        digit(n / 1_000),
        digit(n / 100),
        digit(n / 10),
        digit(n),
    ]
}

/// The absolute value of a finite pattern times 10^7, rounded to the nearest
/// integer with ties to even.
pub open spec fn scaled(bits: u32) -> nat {
    nearest_integer(magnitude(bits) * 10_000_000, pow2(149))
}

/// The text of a pattern: `NaN`, `inf` or `-inf`, or the digits of the
/// rounded value with a minus sign wherever the sign bit is set.
pub open spec fn fixed7_text(bits: u32) -> Seq<u8> {
    if is_nan(bits) {
        seq!['N' as u8, 'a' as u8, 'N' as u8]
    } else {
        let sign: Seq<u8> = if negative(bits) {
            seq!['-' as u8]
        } else {
            Seq::empty()
        };
        if is_infinite(bits) {
            sign + seq!['i' as u8, 'n' as u8, 'f' as u8]
        } else {
            sign + decimal(scaled(bits) / 10_000_000) + seq!['.' as u8] + seven_digits(
                scaled(bits) % 10_000_000,
            )
        }
    }
}

/// A number below 10^k has at most k digits.
pub proof fn lemma_decimal_width(n: nat, limit: nat, k: nat)
    requires
        k >= 1,
        n < limit,
        limit == vstd::arithmetic::power::pow(10, k),
    ensures
        1 <= decimal(n).len() <= k,
    decreases k,
{
    vstd::arithmetic::power::lemma_pow1(10);
    vstd::arithmetic::power::lemma_pow_adds(10, (k - 1) as nat, 1);
    if n >= 10 {
        assert(k > 1) by {
            if k == 1 {
                assert(limit == 10);
            }
        }
        let rest = vstd::arithmetic::power::pow(10, (k - 1) as nat);
        assert(limit == rest * 10);
        assert(n / 10 < rest);
        lemma_decimal_width(n / 10, rest as nat, (k - 1) as nat);
    }
}

/// Appends the decimal digits of `n`.
fn push_decimal(out: &mut Vec<u8>, n: u128)
    ensures
        final(out)@ == old(out)@ + decimal(n as nat),
    decreases n,
{
    if n >= 10 {
        push_decimal(out, n / 10);
    }
    let d: u8 = (n % 10) as u8;
    out.push(48 + d);
    proof {
        assert(final(out)@ =~= old(out)@ + decimal(n as nat));
    }
}

/// Appends the last seven decimal digits of `n`.
fn push_seven_digits(out: &mut Vec<u8>, n: u64)
    ensures
        final(out)@ == old(out)@ + seven_digits(n as nat),
{
    out.push(48 + ((n / 1_000_000) % 10) as u8);
    out.push(48 + ((n / 100_000) % 10) as u8);
    out.push(48 + ((n / 10_000) % 10) as u8);
    out.push(48 + ((n / 1_000) % 10) as u8);
    out.push(48 + ((n / 100) % 10) as u8);
    out.push(48 + ((n / 10) % 10) as u8);
    out.push(48 + (n % 10) as u8);
    proof {
        assert(final(out)@ =~= old(out)@ + seven_digits(n as nat));
    }
}

/// 10^39, which no 128-bit number reaches.
proof fn lemma_ten_to_39()
    ensures
        vstd::arithmetic::power::pow(10, 39)
            == 1_000_000_000_000_000_000_000_000_000_000_000_000_000int,
{
    reveal_with_fuel(vstd::arithmetic::power::pow, 14);
    assert(vstd::arithmetic::power::pow(10, 13) == 10_000_000_000_000);
    vstd::arithmetic::power::lemma_pow_adds(10, 13, 13);
    vstd::arithmetic::power::lemma_pow_adds(10, 26, 13);
}

/// Writes a pattern as decimal text with seven fractional digits.
pub fn format_fixed7(bits: u32) -> (text: Vec<u8>)
    ensures
        text@ == fixed7_text(bits),
        3 <= text@.len() <= NUMBER_WIDTH,
{
    let mut out: Vec<u8> = Vec::new();
    if nan(bits) {
        out.push(78);
        out.push(97);
        out.push(78);
        proof {
            assert(out@ =~= fixed7_text(bits));
        }
        return out;
    }
    if bits >= SIGN_BIT {
        out.push(45);
    }
    let ghost sign = out@;
    if !finite(bits) {
        out.push(105);
        out.push(110);
        out.push(102);
        proof {
            assert(out@ =~= fixed7_text(bits));
        }
        return out;
    }
    let p = parts(bits);
    let whole: u128;
    let fraction: u64;
    proof {
        lemma_pow2_values();
        lemma_pow2_significand();
        lemma_pow2_pos(149);
    }
    if p.scale >= 149 {
        let unit: u128 = power_of_two(p.scale - 149);
        proof {
            lemma_pow2_ordered((p.scale - 149) as nat, 104);
            lemma_pow2_adds((p.scale - 149) as nat, 149);
            assert(p.significand * unit <= 0xFF_FFFF * 0x100_0000_0000_0000_0000_0000_0000)
                by (nonlinear_arith)
                requires
                    p.significand <= 0xFF_FFFF,
                    unit <= 0x100_0000_0000_0000_0000_0000_0000,
            ;
        }
        whole = (p.significand as u128) * unit;
        fraction = 0;
        proof {
            let n = magnitude(bits) * 10_000_000;
            assert(n == (whole * 10_000_000) * pow2(149) + 0) by (nonlinear_arith)
                requires
                    n == magnitude(bits) * 10_000_000,
                    magnitude(bits) == p.significand * pow2(p.scale as nat),
                    pow2(p.scale as nat) == unit * pow2(149),
                    whole == p.significand * unit,
            ;
            lemma_fundamental_div_mod_converse(
                n as int,
                pow2(149) as int,
                (whole * 10_000_000) as int,
                0,
            );
            assert(scaled(bits) == whole * 10_000_000);
        }
    } else {
        let k: u32 = 149 - p.scale;
        let num: u64 = (p.significand as u64) * 10_000_000;
        let rounded: u64;
        proof {
            lemma_pow2_pos(p.scale as nat);
            lemma_pow2_pos(k as nat);
            lemma_pow2_adds(k as nat, p.scale as nat);
            assert(magnitude(bits) * 10_000_000 == num * pow2(p.scale as nat)) by (nonlinear_arith)
                requires
                    magnitude(bits) == p.significand * pow2(p.scale as nat),
                    num == p.significand * 10_000_000,
            ;
            lemma_nearest_integer_scaled(num as nat, pow2(k as nat), pow2(p.scale as nat));
            assert(scaled(bits) == nearest_integer(num as nat, pow2(k as nat)));
        }
        if k > 48 {
            proof {
                lemma_pow2_ordered(49, k as nat);
                lemma_pow2_unfold(49);
                lemma_basic_div(num as int, pow2(k as nat) as int);
                lemma_small_mod(num as nat, pow2(k as nat));
            }
            rounded = 0;
        } else {
            let unit: u64 = power_of_two(k) as u64;
            proof {
                lemma_pow2_ordered(k as nat, 48);
            }
            let q: u64 = num / unit;
            let r: u64 = num % unit;
            rounded = if 2 * r > unit || (2 * r == unit && q % 2 == 1) {
                q + 1
            } else {
                q
            };
        }
        whole = (rounded / 10_000_000) as u128;
        fraction = rounded % 10_000_000;
    }
    push_decimal(&mut out, whole);
    let ghost digits = out@;
    out.push(46);
    push_seven_digits(&mut out, fraction);
    proof {
        lemma_ten_to_39();
        lemma_decimal_width(
            whole as nat,
            1_000_000_000_000_000_000_000_000_000_000_000_000_000nat,
            39,
        );
        assert(whole == scaled(bits) / 10_000_000);
        assert(fraction == scaled(bits) % 10_000_000);
        assert(out@ =~= fixed7_text(bits));
    }
    out
}

} // verus!
