//! Rounding of exact fractions, the arithmetic under every floating-point
//! operation.
//!
//! A quantity is measured in units of `2^-1074`, the gap between the smallest
//! doubles. In these units every finite double is a natural number, one is
//! `2^1074`, and the result of an operation is the exact fraction rounded to
//! 53 significant bits.
use vstd::arithmetic::div_mod::{
    lemma_fundamental_div_mod, lemma_fundamental_div_mod_converse, lemma_mod_bound,
};
use vstd::arithmetic::mul::lemma_mul_inequality;
use vstd::arithmetic::power2::{
    lemma_pow2_adds, lemma_pow2_pos, lemma_pow2_strictly_increases, lemma_pow2_unfold, pow2,
};
use vstd::prelude::*;

verus! {

/// The number one, in units.
pub open spec fn one() -> nat {
    pow2(1074)
}

/// The integer nearest to `num / den`; of two equally near, the even one.
pub open spec fn round_half_even(num: nat, den: nat) -> nat {
    let whole = num / den;
    let rest = num % den;
    if 2 * rest < den || (2 * rest == den && whole % 2 == 0) {
        whole
    } else {
        whole + 1
    }
}

/// How many low bits of `x` do not fit into 53 significant ones.
pub open spec fn excess_bits(x: nat) -> nat
    decreases x,
{
    if x < pow2(53) {
        0
    } else {
        proof {
            lemma_pow2_pos(53);
        }
        1 + excess_bits(x / 2)
    }
}

/// The double nearest to `num / den` units, ties to even.
pub open spec fn nearest(num: nat, den: nat) -> nat {
    let grain = pow2(excess_bits(num / den));
    round_half_even(num, den * grain) * grain
}

/// Computes [`round_half_even`].
pub fn round_quotient(num: u128, den: u128) -> (quotient: u128)
    requires
        den > 0,
    ensures
        quotient == round_half_even(num as nat, den as nat),
{
    let whole: u128 = num / den;
    let rest: u128 = num % den;
    let other: u128 = den - rest;
    if rest < other || (rest == other && whole % 2 == 0) {
        whole
    } else {
        proof {
            lemma_fundamental_div_mod(num as int, den as int);
            assert(whole * 2 <= num) by (nonlinear_arith)
                requires
                    den >= 2,
                    num == den * whole + rest,
                    rest >= 0,
                    whole >= 0,
            ;
        }
        whole + 1
    }
}

/// What [`excess_bits`] counts: dropping that many bits leaves 53 at most,
/// and dropping one fewer would leave more.
pub proof fn lemma_excess_bits(x: nat)
    ensures
        x < pow2(53 + excess_bits(x)),
        excess_bits(x) > 0 ==> x >= pow2(52 + excess_bits(x)),
    decreases x,
{
    lemma_pow2_pos(53);
    if x >= pow2(53) {
        lemma_excess_bits(x / 2);
        let j = excess_bits(x / 2);
        lemma_pow2_unfold(53 + (j + 1));
        lemma_pow2_unfold(52 + (j + 1));
    }
}

/// The count is the only one with that property.
pub proof fn lemma_excess_bits_unique(x: nat, j: nat)
    requires
        x < pow2(53 + j),
        j > 0 ==> x >= pow2(52 + j),
    ensures
        excess_bits(x) == j,
{
    lemma_excess_bits(x);
    let k = excess_bits(x);
    if k < j {
        if 53 + k < 52 + j {
            lemma_pow2_strictly_increases(53 + k, 52 + j);
        }
    } else if j < k {
        if 53 + j < 52 + k {
            lemma_pow2_strictly_increases(53 + j, 52 + k);
        }
    }
}

/// A fraction keeps its rounding when both sides are scaled.
pub proof fn lemma_round_half_even_scale(num: nat, den: nat, factor: nat)
    requires
        den > 0,
        factor > 0,
    ensures
        round_half_even(num * factor, den * factor) == round_half_even(num, den),
{
    let whole = num / den;
    let rest = num % den;
    lemma_fundamental_div_mod(num as int, den as int);
    lemma_mod_bound(num as int, den as int);
    assert(num * factor == whole * (den * factor) + rest * factor) by (nonlinear_arith)
        requires
            num == den * whole + rest,
    ;
    assert(0 <= rest * factor < den * factor) by (nonlinear_arith)
        requires
            0 <= rest < den,
            factor > 0,
    ;
    lemma_fundamental_div_mod_converse(
        (num * factor) as int,
        (den * factor) as int,
        whole as int,
        (rest * factor) as int,
    );
    assert(2 * (rest * factor) < den * factor <==> 2 * rest < den) by (nonlinear_arith)
        requires
            factor > 0,
    ;
    assert(2 * (rest * factor) == den * factor <==> 2 * rest == den) by (nonlinear_arith)
        requires
            factor > 0,
    ;
}

/// So does the quotient without its remainder.
pub proof fn lemma_quotient_scale(num: nat, den: nat, factor: nat)
    requires
        den > 0,
        factor > 0,
    ensures
        (num * factor) / (den * factor) == num / den,
        den * factor > 0,
{
    let whole = num / den;
    let rest = num % den;
    lemma_fundamental_div_mod(num as int, den as int);
    lemma_mod_bound(num as int, den as int);
    assert(num * factor == whole * (den * factor) + rest * factor) by (nonlinear_arith)
        requires
            num == den * whole + rest,
    ;
    assert(0 <= rest * factor < den * factor) by (nonlinear_arith)
        requires
            0 <= rest < den,
            factor > 0,
    ;
    lemma_fundamental_div_mod_converse(
        (num * factor) as int,
        (den * factor) as int,
        whole as int,
        (rest * factor) as int,
    );
}

/// Scaling both sides of a fraction changes nothing for the nearest double.
pub proof fn lemma_nearest_scale(num: nat, den: nat, factor: nat)
    requires
        den > 0,
        factor > 0,
    ensures
        nearest(num * factor, den * factor) == nearest(num, den),
{
    lemma_quotient_scale(num, den, factor);
    let grain = pow2(excess_bits(num / den));
    lemma_pow2_pos(excess_bits(num / den));
    assert(den * grain > 0) by (nonlinear_arith)
        requires
            den > 0,
            grain > 0,
    ;
    assert((den * factor) * grain == (den * grain) * factor) by (nonlinear_arith);
    lemma_round_half_even_scale(num, den * grain, factor);
}

/// The bits that do not fit, of a quotient that was scaled by `2^k`.
pub proof fn lemma_excess_bits_shift(num: nat, den: nat, k: nat)
    requires
        den > 0,
        num / den >= pow2(52) || k == 0,
    ensures
        excess_bits((num * pow2(k)) / den) == excess_bits(num / den) + k,
{
    let scale = pow2(k);
    let whole = num / den;
    let shifted = (num * scale) / den;
    let j = excess_bits(whole);
    lemma_pow2_pos(k);
    lemma_fundamental_div_mod(num as int, den as int);
    lemma_mod_bound(num as int, den as int);
    lemma_fundamental_div_mod((num * scale) as int, den as int);
    lemma_mod_bound((num * scale) as int, den as int);
    let rest = num % den;
    let rest2 = (num * scale) % den;
    assert(whole * scale <= shifted) by (nonlinear_arith)
        requires
            num == den * whole + rest,
            num * scale == den * shifted + rest2,
            0 <= rest < den,
            0 <= rest2 < den,
            scale > 0,
            den > 0,
    ;
    assert(shifted < (whole + 1) * scale) by (nonlinear_arith)
        requires
            num == den * whole + rest,
            num * scale == den * shifted + rest2,
            0 <= rest < den,
            0 <= rest2 < den,
            scale > 0,
            den > 0,
    ;
    lemma_excess_bits(whole);
    lemma_pow2_adds(53 + j, k);
    lemma_pow2_adds(52 + j, k);
    lemma_mul_inequality((whole + 1) as int, pow2(53 + j) as int, scale as int);
    assert(53 + j + k == 53 + (j + k));
    assert(52 + j + k == 52 + (j + k));
    if j + k > 0 {
        assert(whole >= pow2(52 + j)) by {
            if j == 0 {
                assert(k > 0);
            }
        }
        lemma_mul_inequality(pow2(52 + j) as int, whole as int, scale as int);
    }
    lemma_excess_bits_unique(shifted, j + k);
}

/// What rounding to an integer does to a fraction: it moves it by half at most,
/// and up to the next integer at most.
pub proof fn lemma_round_half_even_error(num: nat, den: nat)
    requires
        den > 0,
    ensures
        2 * (den * round_half_even(num, den)) <= 2 * num + den,
        2 * num <= 2 * (den * round_half_even(num, den)) + den,
        num / den <= round_half_even(num, den) <= num / den + 1,
{
    let whole = num / den;
    lemma_fundamental_div_mod(num as int, den as int);
    lemma_mod_bound(num as int, den as int);
    assert(den * (whole + 1) == den * whole + den) by (nonlinear_arith);
}

/// A double keeps 53 bits, so it is off by one part in `2^53` at most, unless
/// the fraction is too small to have as many.
pub proof fn lemma_nearest_error(num: nat, den: nat)
    requires
        den > 0,
        num / den >= pow2(52),
    ensures
        (den * nearest(num, den)) * pow2(53) <= num * (pow2(53) + 1),
        num * (pow2(53) - 1) <= (den * nearest(num, den)) * pow2(53),
{
    let x = num / den;
    let j = excess_bits(x);
    let grain = pow2(j);
    lemma_pow2_pos(j);
    lemma_pow2_pos(52);
    lemma_excess_bits(x);
    lemma_pow2_adds(52, j);
    lemma_pow2_unfold(53);
    lemma_fundamental_div_mod(num as int, den as int);
    lemma_mod_bound(num as int, den as int);
    let rest = num % den;
    let q = round_half_even(num, den * grain);
    let half = pow2(52);
    assert(den * grain > 0) by (nonlinear_arith)
        requires
            den > 0,
            grain > 0,
    ;
    lemma_round_half_even_error(num, den * grain);
    assert(x >= half * grain) by {
        if j == 0 {
            vstd::arithmetic::power2::lemma2_to64();
        }
    }
    assert((den * grain) * half <= num) by (nonlinear_arith)
        requires
            num == den * x + rest,
            x >= half * grain,
            den > 0,
    ;
    assert((den * grain) * q == den * (q * grain)) by (nonlinear_arith);
    assert((den * (q * grain)) * (2 * half) <= num * (2 * half + 1)) by (nonlinear_arith)
        requires
            2 * (den * (q * grain)) <= 2 * num + den * grain,
            (den * grain) * half <= num,
            half > 0,
    ;
    assert(num * (2 * half - 1) <= (den * (q * grain)) * (2 * half)) by (nonlinear_arith)
        requires
            2 * num <= 2 * (den * (q * grain)) + den * grain,
            (den * grain) * half <= num,
            half > 0,
    ;
}

/// Rounding to an integer keeps the order of fractions.
proof fn lemma_round_half_even_monotone(a: nat, b: nat, den: nat)
    requires
        den > 0,
        a <= b,
    ensures
        round_half_even(a, den) <= round_half_even(b, den),
{
    lemma_fundamental_div_mod(a as int, den as int);
    lemma_mod_bound(a as int, den as int);
    lemma_fundamental_div_mod(b as int, den as int);
    lemma_mod_bound(b as int, den as int);
    let (p, q) = (a / den, b / den);
    let (r, t) = (a % den, b % den);
    assert(p <= q) by (nonlinear_arith)
        requires
            a == den * p + r,
            b == den * q + t,
            0 <= r,
            t < den,
            a <= b,
            den > 0,
    ;
    if p == q {
        assert(r <= t);
    }
}

/// So does rounding to a double.
pub proof fn lemma_nearest_monotone(a: nat, b: nat, den: nat)
    requires
        den > 0,
        a <= b,
    ensures
        nearest(a, den) <= nearest(b, den),
{
    let (x, y) = (a / den, b / den);
    vstd::arithmetic::div_mod::lemma_div_is_ordered(a as int, b as int, den as int);
    let (j, k) = (excess_bits(x), excess_bits(y));
    lemma_excess_bits(x);
    lemma_excess_bits(y);
    lemma_pow2_pos(j);
    lemma_pow2_pos(k);
    let (f, g) = (pow2(j), pow2(k));
    assert(den * f > 0 && den * g > 0) by (nonlinear_arith)
        requires
            den > 0,
            f > 0,
            g > 0,
    ;
    if k < j {
        if 53 + k < 52 + j {
            lemma_pow2_strictly_increases(53 + k, 52 + j);
        }
        assert(false);
    } else if j == k {
        lemma_round_half_even_monotone(a, b, den * f);
        lemma_mul_inequality(
            round_half_even(a, den * f) as int,
            round_half_even(b, den * f) as int,
            f as int,
        );
    } else {
        lemma_nearest_binade(a, den);
        lemma_nearest_binade(b, den);
        if 53 + j < 52 + k {
            lemma_pow2_strictly_increases(53 + j, 52 + k);
        }
    }
}

/// A fraction and its nearest double lie between the same powers of two.
pub proof fn lemma_nearest_binade(num: nat, den: nat)
    requires
        den > 0,
    ensures
        nearest(num, den) <= pow2(53 + excess_bits(num / den)),
        excess_bits(num / den) > 0 ==> nearest(num, den) >= pow2(52 + excess_bits(num / den)),
{
    let x = num / den;
    let j = excess_bits(x);
    let g = pow2(j);
    lemma_pow2_pos(j);
    lemma_excess_bits(x);
    lemma_pow2_adds(53, j);
    lemma_pow2_adds(52, j);
    assert(den * g > 0) by (nonlinear_arith)
        requires
            den > 0,
            g > 0,
    ;
    lemma_round_half_even_error(num, den * g);
    vstd::arithmetic::div_mod::lemma_div_denominator(num as int, den as int, g as int);
    let top = x / g;
    assert(num / (den * g) == top);
    lemma_fundamental_div_mod(x as int, g as int);
    lemma_mod_bound(x as int, g as int);
    let rest = x % g;
    assert(top < pow2(53)) by (nonlinear_arith)
        requires
            x == g * top + rest,
            0 <= rest,
            x < pow2(53) * g,
            g > 0,
    ;
    let q = round_half_even(num, den * g);
    lemma_mul_inequality(q as int, pow2(53) as int, g as int);
    if j > 0 {
        assert(top >= pow2(52)) by (nonlinear_arith)
            requires
                x == g * top + rest,
                rest < g,
                x >= pow2(52) * g,
                g > 0,
        ;
        lemma_mul_inequality(pow2(52) as int, q as int, g as int);
    }
}

/// A number of 53 bits, scaled by a power of two, is a double: to add less
/// than half of its last place changes nothing.
pub proof fn lemma_nearest_absorbs(significand: nat, scale: nat, tiny: nat)
    requires
        significand < pow2(53),
        scale > 0 ==> significand >= pow2(52),
        2 * tiny < pow2(scale),
    ensures
        nearest(significand * pow2(scale) + tiny, 1) == significand * pow2(scale),
{
    let g = pow2(scale);
    let x = significand * g + tiny;
    lemma_pow2_pos(scale);
    lemma_pow2_adds(53, scale);
    lemma_pow2_adds(52, scale);
    assert(x < pow2(53) * g) by (nonlinear_arith)
        requires
            x == significand * g + tiny,
            significand < pow2(53),
            tiny < g,
    ;
    if scale > 0 {
        assert(x >= pow2(52) * g) by (nonlinear_arith)
            requires
                x == significand * g + tiny,
                significand >= pow2(52),
        ;
    }
    assert(x / 1 == x);
    lemma_excess_bits_unique(x, scale);
    lemma_fundamental_div_mod_converse(x as int, g as int, significand as int, tiny as int);
    assert(1 * g == g);
}

/// A fraction below a power of two is not rounded above it.
pub proof fn lemma_nearest_upper(num: nat, den: nat, bound: nat)
    requires
        den > 0,
        num < den * pow2(bound),
        bound >= 53,
    ensures
        nearest(num, den) <= pow2(bound),
{
    let x = num / den;
    let j = excess_bits(x);
    lemma_fundamental_div_mod(num as int, den as int);
    lemma_mod_bound(num as int, den as int);
    let rest = num % den;
    assert(x < pow2(bound)) by (nonlinear_arith)
        requires
            num == den * x + rest,
            rest >= 0,
            num < den * pow2(bound),
            den > 0,
    ;
    lemma_excess_bits(x);
    lemma_nearest_binade(num, den);
    if 53 + j > bound {
        if bound < 52 + j {
            lemma_pow2_strictly_increases(bound, 52 + j);
        }
    } else if 53 + j < bound {
        lemma_pow2_strictly_increases(53 + j, bound);
    }
}

/// A fraction that reaches a power of two is not rounded below it.
pub proof fn lemma_nearest_lower(num: nat, den: nat, floor: nat)
    requires
        den > 0,
        num >= den * pow2(floor),
        floor >= 52,
    ensures
        nearest(num, den) >= pow2(floor),
{
    let scale = (floor - 52) as nat;
    lemma_pow2_adds(52, scale);
    lemma_pow2_strictly_increases(52, 53);
    lemma_pow2_pos(scale);
    lemma_nearest_absorbs(pow2(52), scale, 0);
    lemma_pow2_pos(floor);
    lemma_nearest_scale(pow2(floor), 1, den);
    assert(pow2(floor) * den == den * pow2(floor)) by (nonlinear_arith);
    assert(1 * den == den);
    lemma_nearest_monotone(den * pow2(floor), num, den);
}

/// Nothing is rounded to nothing.
pub proof fn lemma_nearest_zero(den: nat)
    requires
        den > 0,
    ensures
        nearest(0, den) == 0,
{
    lemma_pow2_pos(53);
    vstd::arithmetic::power2::lemma2_to64();
    assert(0nat / den == 0) by (nonlinear_arith)
        requires
            den > 0,
    ;
    assert(excess_bits(0) == 0);
    assert(0nat / (den * 1) == 0 && 0nat % (den * 1) == 0) by (nonlinear_arith)
        requires
            den > 0,
    ;
}

/// A whole number of 53 bits, at any scale, is a double.
pub proof fn lemma_nearest_exact(n: nat, scale: nat)
    requires
        n < pow2(53),
    ensures
        nearest(n * pow2(scale), 1) == n * pow2(scale),
{
    let x = n * pow2(scale);
    let j = excess_bits(x);
    assert(x / 1 == x);
    lemma_excess_bits(x);
    lemma_pow2_pos(scale);
    lemma_pow2_pos(j);
    lemma_pow2_adds(53, scale);
    assert(x < pow2(53) * pow2(scale)) by (nonlinear_arith)
        requires
            x == n * pow2(scale),
            n < pow2(53),
            pow2(scale) > 0,
    ;
    if j > scale {
        if 53 + scale < 52 + j {
            lemma_pow2_strictly_increases(53 + scale, 52 + j);
        }
        assert(false);
    }
    let rest = (scale - j) as nat;
    lemma_pow2_adds(rest, j);
    let whole = n * pow2(rest);
    assert(x == whole * pow2(j) + 0) by (nonlinear_arith)
        requires
            x == n * (pow2(rest) * pow2(j)),
            whole == n * pow2(rest),
    ;
    assert(1 * pow2(j) == pow2(j));
    lemma_fundamental_div_mod_converse(x as int, pow2(j) as int, whole as int, 0);
}

/// Rounding to a double picks, of all numbers of 53 bits at any scale, one
/// that is nearest.
pub proof fn law_nearest_is_nearest(num: nat, den: nat, n: nat, scale: nat)
    requires
        den > 0,
        n < pow2(53),
    ensures
        ({
            let d = den * nearest(num, den);
            let other = den * (n * pow2(scale));
            let off = if d < num {
                num - d
            } else {
                d - num
            };
            let other_off = if other < num {
                num - other
            } else {
                other - num
            };
            off <= other_off
        }),
{
    let x = num / den;
    let j = excess_bits(x);
    let g = pow2(j);
    lemma_pow2_pos(j);
    lemma_pow2_pos(scale);
    let dg = den * g;
    assert(dg > 0) by (nonlinear_arith)
        requires
            den > 0,
            g > 0,
            dg == den * g,
    ;
    let q = round_half_even(num, dg);
    let v = n * pow2(scale);
    assert(den * (q * g) == dg * q) by (nonlinear_arith)
        requires
            dg == den * g,
    ;
    lemma_round_half_even_error(num, dg);
    if scale >= j {
        // The other number is a multiple of the same grain.
        let rest = (scale - j) as nat;
        lemma_pow2_adds(rest, j);
        let m = n * pow2(rest);
        assert(den * v == dg * m) by (nonlinear_arith)
            requires
                v == n * (pow2(rest) * g),
                m == n * pow2(rest),
                dg == den * g,
        ;
        lemma_grid_is_nearest(num, dg, q, m);
    } else {
        // The other number is too small to reach the fraction: the grid point
        // just below the fraction is nearer.
        lemma_excess_bits(x);
        lemma_pow2_adds(52, j);
        let down = (j - scale - 1) as nat;
        lemma_pow2_adds(down, scale + 1);
        lemma_pow2_unfold(scale + 1);
        lemma_pow2_pos(down);
        lemma_pow2_unfold(53);
        assert(v <= pow2(52) * g) by (nonlinear_arith)
            requires
                v == n * pow2(scale),
                n < 2 * pow2(52),
                g == pow2(down) * (2 * pow2(scale)),
                pow2(down) >= 1,
                pow2(scale) > 0,
                pow2(52) > 0,
        ;
        lemma_pow2_pos(52);
        let low = pow2(52);
        assert(den * v <= dg * low) by (nonlinear_arith)
            requires
                v <= low * g,
                dg == den * g,
                den > 0,
        ;
        assert(dg * low <= num) by {
            lemma_fundamental_div_mod(num as int, den as int);
            lemma_mod_bound(num as int, den as int);
            let rest = num % den;
            assert(dg * low <= num) by (nonlinear_arith)
                requires
                    num == den * x + rest,
                    rest >= 0,
                    x >= low * g,
                    dg == den * g,
                    den > 0,
            ;
        }
        lemma_grid_is_nearest(num, dg, q, low);
    }
}

/// Of the multiples of `grain` the rounded one is nearest.
proof fn lemma_grid_is_nearest(num: nat, grain: nat, q: nat, m: nat)
    requires
        grain > 0,
        q == round_half_even(num, grain),
    ensures
        ({
            let d = grain * q;
            let other = grain * m;
            let off = if d < num {
                num - d
            } else {
                d - num
            };
            let other_off = if other < num {
                num - other
            } else {
                other - num
            };
            off <= other_off
        }),
{
    lemma_round_half_even_error(num, grain);
    if m != q {
        if m < q {
            assert(grain * m + grain <= grain * q) by (nonlinear_arith)
                requires
                    m + 1 <= q,
                    grain > 0,
            ;
        } else {
            assert(grain * q + grain <= grain * m) by (nonlinear_arith)
                requires
                    q + 1 <= m,
                    grain > 0,
            ;
        }
    }
}

/// Rounding to an integer is off by half at most, and where it is off by
/// exactly half the integer is even.
pub proof fn law_integers_are_rounded_to_even(num: u128, den: u128, quotient: u128)
    requires
        den > 0,
        call_ensures(round_quotient, (num, den), quotient),
    ensures
        2 * (quotient * den) <= 2 * num + den,
        2 * num <= 2 * (quotient * den) + den,
        2 * (quotient * den) == 2 * num + den || 2 * num == 2 * (quotient * den) + den ==> quotient
            % 2 == 0,
{
    lemma_half_even(num as nat, den as nat);
}

/// The same, of every fraction.
pub proof fn lemma_half_even(num: nat, den: nat)
    requires
        den > 0,
    ensures
        ({
            let q = round_half_even(num, den);
            &&& 2 * (q * den) <= 2 * num + den
            &&& 2 * num <= 2 * (q * den) + den
            &&& 2 * (q * den) == 2 * num + den || 2 * num == 2 * (q * den) + den ==> q % 2 == 0
        }),
{
    let q = round_half_even(num, den);
    let whole = num / den;
    lemma_fundamental_div_mod(num as int, den as int);
    lemma_mod_bound(num as int, den as int);
    assert(whole * den == den * whole) by (nonlinear_arith);
    assert((whole + 1) * den == den * whole + den) by (nonlinear_arith);
}

/// `x` is a number of 53 bits, or the power of two just above, at some scale.
pub open spec fn is_scaled(x: nat, n: nat, scale: nat) -> bool {
    n <= 0x20_0000_0000_0000 && x == n * pow2(scale)
}

/// What rounding to a double gives is a double.
pub proof fn law_nearest_is_a_double(num: nat, den: nat)
    requires
        den > 0,
    ensures
        exists|n: nat, scale: nat| is_scaled(nearest(num, den), n, scale),
{
    let j = excess_bits(num / den);
    let grain = pow2(j);
    let n = round_half_even(num, den * grain);
    lemma_nearest_binade(num, den);
    lemma_pow2_adds(53, j);
    lemma_pow2_pos(j);
    vstd::arithmetic::power2::lemma2_to64_rest();
    assert(n <= pow2(53)) by (nonlinear_arith)
        requires
            n * grain <= pow2(53) * grain,
            grain > 0,
    ;
    assert(is_scaled(nearest(num, den), n, j));
}

} // verus!
