//! Facts about rounding to a 24-bit significand.

use vstd::prelude::*;
use vstd::arithmetic::power2::*;
use vstd::arithmetic::div_mod::*;
use crate::binary32::{
    exponent_field, fraction_field, is_finite, is_nan, magnitude, nearest_integer,
    nearest_magnitude, negative, pattern_of, quotient, scale, signed_units, significand, sum,
    surplus_bits, SIGN_BIT,
};

verus! {

/// 2^23 and 2^24 as literals.
pub proof fn lemma_pow2_significand()
    ensures
        pow2(23) == 0x80_0000,
        pow2(24) == 0x100_0000,
        pow2(0) == 1,
        pow2(1) == 2,
{
    lemma2_to64();
}

/// The powers of two that bound the machine arithmetic.
pub proof fn lemma_pow2_values()
    ensures
        pow2(26) == 0x400_0000,
        pow2(40) == 0x100_0000_0000,
        pow2(48) == 0x1_0000_0000_0000,
        pow2(64) == 0x1_0000_0000_0000_0000,
        pow2(104) == 0x100_0000_0000_0000_0000_0000_0000,
{
    lemma2_to64();
    lemma2_to64_rest();
    lemma_pow2_adds(64, 40);
}

/// Powers of two grow with the exponent.
pub proof fn lemma_pow2_ordered(small: nat, large: nat)
    requires
        small <= large,
    ensures
        pow2(small) <= pow2(large),
{
    if small < large {
        lemma_pow2_strictly_increases(small, large);
    }
}

/// One more in the exponent doubles the power.
pub proof fn lemma_pow2_step(e: nat)
    ensures
        pow2(e + 1) == 2 * pow2(e),
        pow2(e) > 0,
{
    lemma_pow2_unfold(e + 1);
    lemma_pow2_pos(e);
}

/// A number in the binade that starts at 2^(23+s) has `s` surplus bits.
pub proof fn lemma_surplus_of_binade(n: nat, s: nat)
    requires
        n < pow2(24 + s),
        s > 0 ==> n >= pow2(23 + s),
    ensures
        surplus_bits(n) == s,
    decreases s,
{
    lemma_pow2_significand();
    if s > 0 {
        lemma_pow2_step(23 + s);
        lemma_pow2_step((22 + s) as nat);
        lemma_pow2_strictly_increases(24, 24 + s);
        if s > 1 {
            lemma_pow2_strictly_increases(24, 23 + s);
        }
        assert(n >= 0x100_0000);
        assert(n / 2 < pow2((23 + s) as nat));
        assert(s - 1 > 0 ==> n / 2 >= pow2((22 + s) as nat));
        lemma_surplus_of_binade(n / 2, (s - 1) as nat);
    }
}

/// Every number lies in the binade that its surplus bits name.
pub proof fn lemma_binade_of_surplus(n: nat)
    ensures
        n < pow2(24 + surplus_bits(n)),
        surplus_bits(n) > 0 ==> n >= pow2(23 + surplus_bits(n)),
    decreases n,
{
    lemma_pow2_significand();
    if n >= 0x100_0000 {
        lemma_binade_of_surplus(n / 2);
        let s = surplus_bits(n / 2);
        lemma_pow2_step(24 + s);
        lemma_pow2_step(23 + s);
        if s == 0 {
            assert(n >= pow2(24));
        }
    }
}

/// Scaling a numerator by a power of two adds that power to the surplus bits
/// of the quotient, once the quotient fills 24 bits.
pub proof fn lemma_surplus_scaled(n: nat, d: nat, j: nat)
    requires
        d > 0,
        n / d >= 0x80_0000,
    ensures
        surplus_bits((n * pow2(j)) / d) == surplus_bits(n / d) + j,
{
    let x = n / d;
    let s = surplus_bits(x);
    lemma_pow2_significand();
    lemma_binade_of_surplus(x);
    lemma_pow2_pos(j);
    lemma_pow2_adds(23 + s, j);
    lemma_pow2_adds(24 + s, j);
    let lo = pow2(23 + s);
    let hi = pow2(24 + s);
    let c = pow2(j);
    assert(lo <= x < hi);
    lemma_fundamental_div_mod(n as int, d as int);
    lemma_mod_pos_bound(n as int, d as int);
    assert(n >= d * lo) by (nonlinear_arith)
        requires
            n == d * x + n % d,
            n % d >= 0,
            x >= lo,
            d > 0,
    ;
    assert(n < d * hi) by (nonlinear_arith)
        requires
            n == d * x + n % d,
            n % d < d,
            x + 1 <= hi,
            d > 0,
    ;
    assert(n * c >= d * (lo * c)) by (nonlinear_arith)
        requires
            n >= d * lo,
            c > 0,
    ;
    assert(n * c < d * (hi * c)) by (nonlinear_arith)
        requires
            n < d * hi,
            c > 0,
    ;
    lemma_multiply_divide_lt((n * c) as int, d as int, (hi * c) as int);
    lemma_div_is_ordered((d * (lo * c)) as int, (n * c) as int, d as int);
    lemma_div_multiples_vanish((lo * c) as int, d as int);
    assert(pow2(23 + s + j) == lo * c);
    assert(pow2(24 + s + j) == hi * c);
    lemma_surplus_of_binade((n * c) / d, s + j);
}

/// Rounding a quotient to an integer looks only at the ratio.
pub proof fn lemma_nearest_integer_scaled(n: nat, d: nat, c: nat)
    requires
        d > 0,
        c > 0,
    ensures
        nearest_integer(n * c, d * c) == nearest_integer(n, d),
{
    lemma_div_multiples_vanish_quotient(c as int, n as int, d as int);
    lemma_truncate_middle(n as int, c as int, d as int);
    let q = n / d;
    let r = n % d;
    assert(c * n == n * c) by (nonlinear_arith);
    assert(c * d == d * c) by (nonlinear_arith);
    assert((n * c) / (d * c) == q);
    assert((n * c) % (d * c) == c * r);
    assert((2 * (c * r) > d * c) == (2 * r > d)) by (nonlinear_arith)
        requires
            c > 0,
    ;
    assert((2 * (c * r) == d * c) == (2 * r == d)) by (nonlinear_arith)
        requires
            c > 0,
    ;
}

/// Rounding to a 24-bit significand commutes with scaling by a power of two,
/// once the quotient fills 24 bits.
pub proof fn lemma_nearest_magnitude_scaled(n: nat, d: nat, j: nat)
    requires
        d > 0,
        n / d >= 0x80_0000,
    ensures
        nearest_magnitude(n * pow2(j), d) == nearest_magnitude(n, d) * pow2(j),
{
    let s = surplus_bits(n / d);
    lemma_surplus_scaled(n, d, j);
    lemma_pow2_adds(s, j);
    lemma_pow2_pos(s);
    lemma_pow2_pos(j);
    let c = pow2(j);
    let u = pow2(s);
    assert(d * (u * c) == (d * u) * c) by (nonlinear_arith);
    assert(d * u > 0) by (nonlinear_arith)
        requires
            d > 0,
            u > 0,
    ;
    lemma_nearest_integer_scaled(n, d * u, c);
    let k = nearest_integer(n, d * u);
    assert(k * (u * c) == (k * u) * c) by (nonlinear_arith);
}

/// The pattern of a significand at a scale.
pub proof fn lemma_pattern_of_parts(negative: bool, m: nat, x: nat)
    requires
        m < 0x100_0000,
        x > 0 ==> m >= 0x80_0000,
    ensures
        surplus_bits(m * pow2(x)) == x,
        (m * pow2(x)) / pow2(x) == m,
        x <= 253 ==> x * 0x80_0000 + m < 0x7F80_0000,
        pattern_of(negative, m * pow2(x)) == (if negative {
            0x8000_0000u32
        } else {
            0u32
        }) + (if x > 253 {
            0x7F80_0000u32
        } else {
            (x * 0x80_0000 + m) as u32
        }),
{
    lemma_pow2_significand();
    lemma_pow2_pos(x);
    lemma_pow2_adds(23, x);
    lemma_pow2_adds(24, x);
    let c = pow2(x);
    assert(m * c < pow2(24) * c) by (nonlinear_arith)
        requires
            m < pow2(24),
            c > 0,
    ;
    if x > 0 {
        assert(m * c >= pow2(23) * c) by (nonlinear_arith)
            requires
                m >= pow2(23),
                c > 0,
        ;
    }
    lemma_surplus_of_binade(m * c, x);
    lemma_div_multiples_vanish(m as int, c as int);
    assert(c * m == m * c) by (nonlinear_arith);
}

/// A finite pattern is the pattern of its own sign and magnitude.
pub proof fn lemma_pattern_round_trip(bits: u32)
    requires
        is_finite(bits),
    ensures
        pattern_of(negative(bits), magnitude(bits)) == bits,
{
    lemma_pattern_of_parts(negative(bits), significand(bits), scale(bits));
}

/// A number that 24 bits hold at some scale is its own rounding.
pub proof fn lemma_nearest_of_exact(m: nat, x: nat)
    requires
        m < 0x100_0000,
        x > 0 ==> m >= 0x80_0000,
    ensures
        nearest_magnitude(m * pow2(x), 1) == m * pow2(x),
{
    lemma_pattern_of_parts(false, m, x);
    lemma_pow2_pos(x);
    let c = pow2(x);
    let n = m * c;
    assert(n / 1 == n);
    assert(1 * c == c);
    lemma_fundamental_div_mod_converse(n as int, c as int, m as int, 0);
}

/// Adding a much smaller number to a normal one, or taking it away, rounds
/// back to the normal one.
pub proof fn lemma_far_sum(m: nat, g: nat, small: nat, plus: bool)
    requires
        0x80_0000 <= m < 0x100_0000,
        small < 0x100_0000,
        g >= 26,
    ensures
        plus ==> nearest_magnitude(m * pow2(g) + small, 1) == m * pow2(g),
        !plus ==> m * pow2(g) >= small && nearest_magnitude((m * pow2(g) - small) as nat, 1) == m
            * pow2(g),
{
    lemma_pow2_significand();
    lemma_pow2_pos(g);
    lemma_pow2_adds(23, g);
    lemma_pow2_adds(24, g);
    lemma_pow2_step((g - 1) as nat);
    lemma_pow2_adds(23, (g - 1) as nat);
    lemma_pow2_adds(24, (g - 1) as nat);
    lemma2_to64();
    if g > 26 {
        lemma_pow2_strictly_increases(26, g);
    }
    let c = pow2(g);
    let h = pow2((g - 1) as nat);
    assert(c >= 0x400_0000);
    assert(c == 2 * h);
    let a = m * c;
    assert(a >= pow2(23) * c && a + c <= pow2(24) * c) by (nonlinear_arith)
        requires
            pow2(23) <= m,
            m + 1 <= pow2(24),
            a == m * c,
            c > 0,
    ;
    if plus || small == 0 {
        let y = a + small;
        lemma_surplus_of_binade(y, g);
        assert(y / 1 == y);
        assert(1 * c == c);
        lemma_fundamental_div_mod_converse(y as int, c as int, m as int, small as int);
    } else if m > 0x80_0000 {
        let y = (a - small) as nat;
        assert(a - c >= pow2(23) * c) by (nonlinear_arith)
            requires
                pow2(23) <= m - 1,
                a == m * c,
                c > 0,
        ;
        lemma_surplus_of_binade(y, g);
        assert(y / 1 == y);
        assert(1 * c == c);
        assert(y == (m - 1) * c + (c - small)) by (nonlinear_arith)
            requires
                y == a - small,
                a == m * c,
        ;
        lemma_fundamental_div_mod_converse(y as int, c as int, m - 1, c - small);
    } else {
        let y = (a - small) as nat;
        assert(a == pow2(24) * h) by (nonlinear_arith)
            requires
                a == m * c,
                m == 0x80_0000,
                pow2(24) == 0x100_0000,
                c == 2 * h,
        ;
        assert(y >= pow2(23) * h) by (nonlinear_arith)
            requires
                y == a - small,
                a == pow2(24) * h,
                pow2(23) == 0x80_0000,
                pow2(24) == 0x100_0000,
                h >= 0x200_0000,
                small < 0x100_0000,
        ;
        lemma_surplus_of_binade(y, (g - 1) as nat);
        assert(y / 1 == y);
        assert(1 * h == h);
        assert(y == 0xFF_FFFF * h + (h - small)) by (nonlinear_arith)
            requires
                y == a - small,
                a == pow2(24) * h,
                pow2(24) == 0x100_0000,
        ;
        lemma_fundamental_div_mod_converse(y as int, h as int, 0xFF_FFFF, h - small);
        assert(nearest_integer(y, h) == 0x100_0000);
        assert(0x100_0000 * h == a);
    }
}

/// A number that 24 bits hold at some scale, however it is written, is its
/// own rounding.
pub proof fn lemma_nearest_of_multiple(a: nat, x: nat)
    requires
        a < 0x100_0000,
    ensures
        nearest_magnitude(a * pow2(x), 1) == a * pow2(x),
        surplus_bits(a * pow2(x)) <= x,
        (a * pow2(x)) % pow2(surplus_bits(a * pow2(x))) == 0,
{
    lemma_pow2_significand();
    lemma_pow2_pos(x);
    lemma_pow2_adds(24, x);
    let c = pow2(x);
    let n = a * c;
    let s = surplus_bits(n);
    lemma_binade_of_surplus(n);
    assert(n < pow2(24 + x)) by (nonlinear_arith)
        requires
            n == a * c,
            a < pow2(24),
            c > 0,
            pow2(24 + x) == pow2(24) * c,
    ;
    if s > x {
        lemma_pow2_ordered(24 + x, 23 + s);
        assert(false);
    }
    let rest = pow2((x - s) as nat);
    let u = pow2(s);
    lemma_pow2_adds((x - s) as nat, s);
    lemma_pow2_pos(s);
    assert(n == (a * rest) * u + 0) by (nonlinear_arith)
        requires
            n == a * c,
            c == rest * u,
    ;
    lemma_fundamental_div_mod_converse(n as int, u as int, (a * rest) as int, 0);
    assert(n / 1 == n);
    assert(1 * u == u);
}

/// The pattern of a magnitude that 24 bits hold, below 2^277, is finite and
/// has that sign and that magnitude.
pub proof fn lemma_magnitude_of_pattern(sign: bool, a: nat, x: nat)
    requires
        a < 0x100_0000,
        a * pow2(x) < pow2(277),
    ensures
        is_finite(pattern_of(sign, a * pow2(x))),
        negative(pattern_of(sign, a * pow2(x))) == sign,
        magnitude(pattern_of(sign, a * pow2(x))) == a * pow2(x),
{
    let n = a * pow2(x);
    let s = surplus_bits(n);
    let u = pow2(s);
    let m = n / u;
    lemma_pow2_significand();
    lemma_nearest_of_multiple(a, x);
    lemma_binade_of_surplus(n);
    lemma_pow2_pos(s);
    lemma_pow2_adds(23, s);
    lemma_pow2_adds(24, s);
    lemma_fundamental_div_mod(n as int, u as int);
    assert(n == m * u) by (nonlinear_arith)
        requires
            n == u * m + n % u,
            n % u == 0,
    ;
    if s > 253 {
        lemma_pow2_ordered(277, 23 + s);
        assert(false);
    }
    assert(m < 0x100_0000) by (nonlinear_arith)
        requires
            m * u < pow2(24) * u,
            u > 0,
            pow2(24) == 0x100_0000,
    ;
    if s > 0 {
        assert(m >= 0x80_0000) by (nonlinear_arith)
            requires
                m * u >= pow2(23) * u,
                u > 0,
                pow2(23) == 0x80_0000,
        ;
    }
    lemma_pattern_of_parts(sign, m, s);
    let p = pattern_of(sign, n);
    let body: nat = s * 0x80_0000 + m;
    assert(p == if sign {
        0x8000_0000 + body
    } else {
        body
    });
    assert(exponent_field(p) == if m >= 0x80_0000 {
        s + 1
    } else {
        0
    });
    assert(fraction_field(p) == if m >= 0x80_0000 {
        m - 0x80_0000
    } else {
        m as int
    });
    assert(significand(p) == m);
    assert(scale(p) == s);
}

/// Rounding never crosses a number that 24 bits hold: what lies at or above
/// such a number rounds to at least it, and what lies at or below it rounds
/// to at most it.
pub proof fn lemma_rounding_keeps_side(n: nat, a: nat, x: nat)
    requires
        a < 0x100_0000,
    ensures
        n >= a * pow2(x) ==> nearest_magnitude(n, 1) >= a * pow2(x),
        n <= a * pow2(x) ==> nearest_magnitude(n, 1) <= a * pow2(x),
{
    let fixed = a * pow2(x);
    let s = surplus_bits(n);
    let u = pow2(s);
    let q = n / u;
    let r = n % u;
    lemma_pow2_significand();
    lemma_pow2_pos(s);
    lemma_binade_of_surplus(n);
    lemma_binade_of_surplus(fixed);
    lemma_nearest_of_multiple(a, x);
    lemma_fundamental_div_mod(n as int, u as int);
    lemma_mod_pos_bound(n as int, u as int);
    assert(n / 1 == n);
    assert(1 * u == u);
    let near = nearest_integer(n, u);
    assert(near == q || near == q + 1);
    assert(nearest_magnitude(n, 1) == near * u);
    assert(q * u <= near * u <= (q + 1) * u) by (nonlinear_arith)
        requires
            near == q || near == q + 1,
            u > 0,
    ;
    assert(n == q * u + r) by (nonlinear_arith)
        requires
            n == u * q + r,
    ;
    let t = surplus_bits(fixed);
    if t >= s {
        // the fixed number is a whole multiple of the rounding unit
        let rest = pow2((t - s) as nat);
        lemma_pow2_adds((t - s) as nat, s);
        lemma_pow2_pos(t);
        lemma_fundamental_div_mod(fixed as int, pow2(t) as int);
        let k = (fixed / pow2(t)) * rest;
        assert(fixed == k * u) by (nonlinear_arith)
            requires
                fixed == pow2(t) * (fixed / pow2(t)) + fixed % pow2(t),
                fixed % pow2(t) == 0,
                pow2(t) == rest * u,
                k == (fixed / pow2(t)) * rest,
        ;
        if n >= fixed {
            assert(q >= k) by (nonlinear_arith)
                requires
                    q * u + r >= k * u,
                    r < u,
                    u > 0,
            ;
            assert(q * u >= k * u) by (nonlinear_arith)
                requires
                    q >= k,
                    u > 0,
            ;
        }
        if n <= fixed {
            assert(q <= k) by (nonlinear_arith)
                requires
                    q * u + r <= k * u,
                    r >= 0,
                    u > 0,
            ;
            if q < k {
                assert((q + 1) * u <= k * u) by (nonlinear_arith)
                    requires
                        q + 1 <= k,
                        u > 0,
                ;
            } else {
                assert(r == 0) by (nonlinear_arith)
                    requires
                        q * u + r <= k * u,
                        q == k,
                        r >= 0,
                ;
                assert(near == q);
            }
        }
    } else {
        // the fixed number lies below the binade of n
        lemma_pow2_ordered(24 + t, 23 + s);
        lemma_pow2_adds(23, s);
        assert(fixed < pow2(23 + s) <= n);
        assert(q >= pow2(23)) by (nonlinear_arith)
            requires
                q * u + r >= pow2(23) * u,
                r < u,
                u > 0,
        ;
        assert(q * u >= pow2(23) * u) by (nonlinear_arith)
            requires
                q >= pow2(23),
                u > 0,
        ;
    }
}

/// Among the patterns without a sign, the larger magnitude has the larger
/// pattern.
pub proof fn lemma_pattern_ordered(a: nat, x: nat, b: nat, y: nat)
    requires
        a < 0x100_0000,
        b < 0x100_0000,
        a * pow2(x) <= b * pow2(y),
        b * pow2(y) < pow2(277),
    ensures
        pattern_of(false, a * pow2(x)) <= pattern_of(false, b * pow2(y)),
        pattern_of(false, b * pow2(y)) < 0x7F80_0000,
{
    let low = a * pow2(x);
    let high = b * pow2(y);
    let s = surplus_bits(low);
    let t = surplus_bits(high);
    lemma_pow2_significand();
    lemma_binade_of_surplus(low);
    lemma_binade_of_surplus(high);
    lemma_pow2_pos(s);
    lemma_pow2_pos(t);
    lemma_pow2_adds(23, s);
    lemma_pow2_adds(24, s);
    lemma_pow2_adds(23, t);
    lemma_pow2_adds(24, t);
    if t > 253 {
        lemma_pow2_ordered(277, 23 + t);
        assert(false);
    }
    if s > t {
        lemma_pow2_ordered(24 + t, 23 + s);
        assert(false);
    }
    let m = low / pow2(s);
    let k = high / pow2(t);
    lemma_fundamental_div_mod(low as int, pow2(s) as int);
    lemma_mod_pos_bound(low as int, pow2(s) as int);
    lemma_fundamental_div_mod(high as int, pow2(t) as int);
    lemma_mod_pos_bound(high as int, pow2(t) as int);
    assert(m < 0x100_0000) by (nonlinear_arith)
        requires
            low == pow2(s) * m + low % pow2(s),
            low % pow2(s) >= 0,
            low < pow2(24) * pow2(s),
            pow2(s) > 0,
            pow2(24) == 0x100_0000,
    ;
    assert(k < 0x100_0000) by (nonlinear_arith)
        requires
            high == pow2(t) * k + high % pow2(t),
            high % pow2(t) >= 0,
            high < pow2(24) * pow2(t),
            pow2(t) > 0,
            pow2(24) == 0x100_0000,
    ;
    if t > 0 {
        assert(k >= 0x80_0000) by (nonlinear_arith)
            requires
                high == pow2(t) * k + high % pow2(t),
                high % pow2(t) < pow2(t),
                high >= pow2(23) * pow2(t),
                pow2(t) > 0,
                pow2(23) == 0x80_0000,
        ;
    }
    if s == t {
        lemma_div_is_ordered(low as int, high as int, pow2(s) as int);
    }
}

/// What rounding gives is a number that 24 bits hold at some scale. The
/// result names such a significand and scale.
pub proof fn lemma_nearest_is_held(n: nat) -> (form: (nat, nat))
    ensures
        form.0 < 0x100_0000,
        nearest_magnitude(n, 1) == form.0 * pow2(form.1),
{
    let s = surplus_bits(n);
    let u = pow2(s);
    lemma_pow2_significand();
    lemma_pow2_pos(s);
    lemma_pow2_adds(24, s);
    lemma_pow2_step(s);
    lemma_binade_of_surplus(n);
    lemma_fundamental_div_mod(n as int, u as int);
    lemma_mod_pos_bound(n as int, u as int);
    assert(n / 1 == n);
    assert(1 * u == u);
    let q = n / u;
    assert(q < 0x100_0000) by (nonlinear_arith)
        requires
            n == u * q + n % u,
            n % u >= 0,
            n < pow2(24) * u,
            u > 0,
            pow2(24) == 0x100_0000,
    ;
    let near = nearest_integer(n, u);
    if near == 0x100_0000 {
        assert(near * u == 0x80_0000 * pow2(s + 1)) by (nonlinear_arith)
            requires
                near == 0x100_0000,
                pow2(s + 1) == 2 * u,
        ;
        (0x80_0000, s + 1)
    } else {
        (near, s)
    }
}

/// A quotient that lies half way between two integers rounds to the even
/// one.
pub proof fn lemma_tie_goes_to_even(n: nat, d: nat)
    requires
        d > 0,
        2 * (n % d) == d,
    ensures
        nearest_integer(n, d) % 2 == 0,
        nearest_integer(n, d) == n / d || nearest_integer(n, d) == n / d + 1,
{
}

/// How far two numbers lie apart.
pub open spec fn distance(a: int, b: int) -> int {
    if a >= b {
        a - b
    } else {
        b - a
    }
}

/// Rounding goes to the nearest: of all the numbers that 24 bits hold at some
/// scale, none lies nearer to `n / d` than the rounded one. Both sides are
/// multiplied by `d` to stay among the integers.
pub proof fn lemma_nearest_is_nearest(n: nat, d: nat, a: nat, x: nat)
    requires
        d > 0,
        a < 0x100_0000,
    ensures
        distance((nearest_magnitude(n, d) * d) as int, n as int) <= distance(
            (a * pow2(x) * d) as int,
            n as int,
        ),
{
    let other = a * pow2(x);
    let s = surplus_bits(n / d);
    let u = pow2(s);
    let whole = d * u;
    lemma_pow2_significand();
    lemma_pow2_pos(s);
    assert(whole > 0) by (nonlinear_arith)
        requires
            whole == d * u,
            d > 0,
            u > 0,
    ;
    let q = n / whole;
    let r = n % whole;
    lemma_fundamental_div_mod(n as int, whole as int);
    lemma_mod_pos_bound(n as int, whole as int);
    let near = nearest_integer(n, whole);
    let picked = nearest_magnitude(n, d) * d;
    assert(picked == near * whole) by (nonlinear_arith)
        requires
            picked == near * u * d,
            whole == d * u,
    ;
    assert(n == q * whole + r) by (nonlinear_arith)
        requires
            n == whole * q + r,
    ;
    // the rounded number is off by the smaller of r and whole - r
    assert(distance(picked as int, n as int) == if near == q {
        r as int
    } else {
        whole - r
    }) by (nonlinear_arith)
        requires
            picked == near * whole,
            n == q * whole + r,
            near == q || near == q + 1,
            0 <= r < whole,
    ;
    assert(near == q ==> 2 * r <= whole);
    assert(near == q + 1 ==> 2 * r >= whole);
    let t = surplus_bits(other);
    lemma_nearest_of_multiple(a, x);
    lemma_binade_of_surplus(other);
    lemma_binade_of_surplus(n / d);
    if t >= s {
        // the other number is a whole multiple of the rounding unit
        let rest = pow2((t - s) as nat);
        lemma_pow2_adds((t - s) as nat, s);
        lemma_pow2_pos(t);
        lemma_fundamental_div_mod(other as int, pow2(t) as int);
        let k = (other / pow2(t)) * rest;
        assert(other * d == k * whole) by (nonlinear_arith)
            requires
                other == pow2(t) * (other / pow2(t)) + other % pow2(t),
                other % pow2(t) == 0,
                pow2(t) == rest * u,
                k == (other / pow2(t)) * rest,
                whole == d * u,
        ;
        assert(distance((k * whole) as int, n as int) >= if k <= q {
            r as int
        } else {
            whole - r
        }) by (nonlinear_arith)
            requires
                n == q * whole + r,
                0 <= r < whole,
        ;
    } else {
        // the other number lies below the binade of the quotient
        lemma_pow2_ordered(24 + t, 23 + s);
        lemma_pow2_adds(23, s);
        lemma_div_denominator(n as int, d as int, u as int);
        lemma_fundamental_div_mod((n / d) as int, u as int);
        lemma_mod_pos_bound((n / d) as int, u as int);
        assert(q >= pow2(23)) by (nonlinear_arith)
            requires
                n / d == u * q + (n / d) % u,
                (n / d) % u < u,
                n / d >= pow2(23) * u,
                u > 0,
        ;
        assert(other * d < q * whole) by (nonlinear_arith)
            requires
                other < pow2(23) * u,
                q >= pow2(23),
                whole == d * u,
                d > 0,
                u > 0,
        ;
    }
}

/// A finite sum is the nearest pattern: no finite pattern of whatever sign
/// lies nearer to the exact sum of two finite patterns than their sum does.
pub proof fn lemma_sum_is_nearest(a: u32, b: u32, other: u32)
    requires
        is_finite(a),
        is_finite(b),
        is_finite(other),
        is_finite(sum(a, b)),
    ensures
        distance(signed_units(sum(a, b)), signed_units(a) + signed_units(b)) <= distance(
            signed_units(other),
            signed_units(a) + signed_units(b),
        ),
{
    let exact = signed_units(a) + signed_units(b);
    let size: nat = if exact < 0 {
        (-exact) as nat
    } else {
        exact as nat
    };
    assert(magnitude(0u32) == 0 && magnitude(SIGN_BIT) == 0) by {
        assert(significand(0u32) == 0 && significand(SIGN_BIT) == 0);
        assert(0 * pow2(scale(0u32)) == 0 && 0 * pow2(scale(SIGN_BIT)) == 0);
    }
    if exact != 0 {
        let near = nearest_magnitude(size, 1);
        let form = lemma_nearest_is_held(size);
        lemma_binade_of_surplus(near);
        if near >= pow2(277) {
            // then the sum would be an infinity
            if surplus_bits(near) <= 253 {
                lemma_pow2_ordered(24 + surplus_bits(near), 277);
            }
            assert(surplus_bits(near) > 253);
            assert(exponent_field(0x7F80_0000u32) == 255);
            assert(exponent_field(0xFF80_0000u32) == 255);
            assert(false);
        }
        lemma_magnitude_of_pattern(exact < 0, form.0, form.1);
        lemma_nearest_is_nearest(size, 1, significand(other), scale(other));
        assert(near * 1 == near);
        assert(magnitude(other) * 1 == magnitude(other));
    }
}

/// A finite quotient is the nearest pattern: no finite pattern of whatever
/// sign lies nearer to a finite pattern divided by a count than the quotient
/// does. Both sides are multiplied by the count to stay among the integers.
pub proof fn lemma_quotient_is_nearest(a: u32, count: nat, other: u32)
    requires
        is_finite(a),
        is_finite(other),
        count > 0,
    ensures
        is_finite(quotient(a, count)),
        distance(signed_units(quotient(a, count)) * count, signed_units(a)) <= distance(
            signed_units(other) * count,
            signed_units(a),
        ),
{
    let size = magnitude(a);
    let near = nearest_magnitude(size, count);
    lemma_pow2_significand();
    lemma_pow2_pos(scale(a));
    lemma_pow2_adds(24, 253);
    lemma_pow2_ordered(scale(a), 253);
    assert(size < pow2(277)) by (nonlinear_arith)
        requires
            size == significand(a) * pow2(scale(a)),
            significand(a) < pow2(24),
            0 < pow2(scale(a)) <= pow2(253),
            pow2(277) == pow2(24) * pow2(253),
    ;
    // the quotient is no larger than the dividend
    lemma_rounding_keeps_side(size, significand(a), scale(a));
    lemma_nearest_of_exact(significand(a), scale(a));
    lemma_nearest_is_nearest(size, count, significand(a), scale(a));
    lemma_nearest_is_nearest(size, count, significand(other), scale(other));
    assert(near <= size) by (nonlinear_arith)
        requires
            distance((near * count) as int, size as int) <= distance(
                (size * count) as int,
                size as int,
            ),
            count >= 1,
    ;
    let s = surplus_bits(size / count);
    lemma_pow2_pos(s);
    let whole = count * pow2(s);
    let k = nearest_integer(size, whole);
    lemma_binade_of_surplus(size / count);
    lemma_pow2_adds(24, s);
    lemma_pow2_step(s);
    // the rounded quotient is a number that 24 bits hold
    assert(whole > 0) by (nonlinear_arith)
        requires
            whole == count * pow2(s),
            count > 0,
            pow2(s) > 0,
    ;
    lemma_div_denominator(size as int, count as int, pow2(s) as int);
    lemma_fundamental_div_mod((size / count) as int, pow2(s) as int);
    lemma_mod_pos_bound((size / count) as int, pow2(s) as int);
    assert(size / whole < 0x100_0000) by (nonlinear_arith)
        requires
            size / count == pow2(s) * (size / whole) + (size / count) % pow2(s),
            (size / count) % pow2(s) >= 0,
            size / count < pow2(24) * pow2(s),
            pow2(s) > 0,
            pow2(24) == 0x100_0000,
    ;
    if k == 0x100_0000 {
        assert(near == 0x80_0000 * pow2(s + 1)) by (nonlinear_arith)
            requires
                near == k * pow2(s),
                k == 0x100_0000,
                pow2(s + 1) == 2 * pow2(s),
        ;
        lemma_magnitude_of_pattern(negative(a), 0x80_0000, s + 1);
    } else {
        lemma_magnitude_of_pattern(negative(a), k, s);
    }
    let q = quotient(a, count);
    assert(magnitude(q) == near);
    assert(negative(q) == negative(a));
    assert(distance(signed_units(q) * count, signed_units(a)) == distance(
        (near * count) as int,
        size as int,
    )) by (nonlinear_arith)
        requires
            signed_units(q) == if negative(a) {
                -(near as int)
            } else {
                near as int
            },
            signed_units(a) == if negative(a) {
                -(size as int)
            } else {
                size as int
            },
    ;
    assert(distance(signed_units(other) * count, signed_units(a)) >= distance(
        (magnitude(other) * count) as int,
        size as int,
    )) by (nonlinear_arith)
        requires
            signed_units(other) == magnitude(other) || signed_units(other) == -(magnitude(
                other,
            ) as int),
            signed_units(a) == if negative(a) {
                -(size as int)
            } else {
                size as int
            },
            count > 0,
    ;
}

/// The order of the operands does not matter to a sum.
pub proof fn lemma_sum_commutes(a: u32, b: u32)
    ensures
        sum(a, b) == sum(b, a),
{
}

/// Negative zero changes nothing when added: this is what the sum of no
/// values is.
pub proof fn lemma_negative_zero_is_neutral(a: u32)
    requires
        !is_nan(a),
    ensures
        sum(SIGN_BIT, a) == a,
        sum(a, SIGN_BIT) == a,
{
    assert(magnitude(SIGN_BIT) == 0) by {
        assert(significand(SIGN_BIT) == 0);
        assert(0 * pow2(scale(SIGN_BIT)) == 0);
    }
    assert(is_finite(SIGN_BIT) && negative(SIGN_BIT));
    if is_finite(a) {
        lemma_nearest_of_exact(significand(a), scale(a));
        lemma_pattern_round_trip(a);
        if magnitude(a) == 0 {
            lemma_pattern_of_parts(negative(a), 0, 0);
            assert(0 * pow2(0) == 0);
        }
    }
}

} // verus!
