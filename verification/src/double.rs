//! IEEE 754 doubles, held by their bit pattern and computed with integers.
use crate::rounding;
use vstd::arithmetic::div_mod::{
    lemma_fundamental_div_mod, lemma_fundamental_div_mod_converse, lemma_mod_bound,
};
use vstd::arithmetic::mul::lemma_mul_inequality;
use vstd::arithmetic::power2::{
    lemma2_to64, lemma2_to64_rest, lemma_pow2_adds, lemma_pow2_pos, lemma_pow2_strictly_increases,
    lemma_pow2_unfold, pow2,
};
use vstd::prelude::*;

verus! {

/// How many fractions share one exponent: `2^52`.
pub const FRACTIONS: u64 = 0x10_0000_0000_0000;

/// The sign bit.
pub const SIGN: u64 = 0x8000_0000_0000_0000;

/// A double, by its bit pattern.
#[derive(Clone, Copy, Debug, PartialEq, Eq, Structural)]
pub struct Double {
    pub bits: u64,
}

impl Double {
    /// The sign bit is set.
    pub open spec fn negative(self) -> bool {
        self.bits >= SIGN
    }

    /// The pattern without its sign.
    pub open spec fn pattern(self) -> nat {
        self.bits as nat % SIGN as nat
    }

    pub open spec fn exponent(self) -> nat {
        (self.bits as nat / FRACTIONS as nat) % 2048
    }

    pub open spec fn fraction(self) -> nat {
        self.bits as nat % FRACTIONS as nat
    }

    pub open spec fn is_nan(self) -> bool {
        self.exponent() == 2047 && self.fraction() != 0
    }

    /// The significand, with the leading bit that the pattern leaves out.
    pub open spec fn significand(self) -> nat {
        if self.exponent() == 0 {
            self.fraction()
        } else {
            FRACTIONS as nat + self.fraction()
        }
    }

    /// The power of two that the significand is scaled by, in units.
    pub open spec fn scale(self) -> nat {
        if self.exponent() == 0 {
            0
        } else {
            (self.exponent() - 1) as nat
        }
    }

    /// The magnitude, in units of `2^-1074`. An infinity counts as the power
    /// of two just above the finite doubles.
    pub open spec fn units(self) -> nat {
        self.significand() * pow2(self.scale())
    }

    /// The value with its sign, in units.
    pub open spec fn value(self) -> int {
        if self.negative() {
            -(self.units() as int)
        } else {
            self.units() as int
        }
    }
}

/// The pattern without its sign is the scale and the significand, put together.
proof fn lemma_pattern(d: Double)
    ensures
        d.significand() < 0x20_0000_0000_0000,
        d.scale() <= 2046,
        d.scale() > 0 ==> d.significand() >= FRACTIONS,
        d.pattern() == d.scale() * FRACTIONS as nat + d.significand(),
        d.exponent() > 0 ==> d.significand() >= FRACTIONS,
        d.exponent() == 0 ==> d.significand() < FRACTIONS,
{
}

/// The pattern that a scale and a significand make up.
proof fn lemma_assemble(scale: nat, significand: nat, d: Double)
    requires
        significand <= 0x20_0000_0000_0000,
        scale > 0 ==> significand >= FRACTIONS,
        scale <= 2000,
        d.bits == scale * FRACTIONS + significand,
    ensures
        !d.negative(),
        d.exponent() < 2047,
        d.units() == significand * pow2(scale),
{
    if significand == 0x20_0000_0000_0000 {
        lemma_pow2_unfold(scale + 1);
        assert(d.exponent() == scale + 2);
        assert(d.fraction() == 0);
        assert(FRACTIONS * pow2(scale + 1) == significand * pow2(scale)) by (nonlinear_arith)
            requires
                pow2(scale + 1) == 2 * pow2(scale),
                significand == 0x20_0000_0000_0000,
                FRACTIONS == 0x10_0000_0000_0000,
        ;
    } else if significand < FRACTIONS {
        assert(d.exponent() == 0);
    } else {
        assert(d.exponent() == scale + 1);
        assert(d.fraction() == significand - FRACTIONS);
    }
}

/// The patterns without sign are in the order of the magnitudes.
proof fn lemma_pattern_order(a: Double, b: Double)
    requires
        a.pattern() < b.pattern(),
    ensures
        a.units() < b.units(),
{
    lemma_pattern(a);
    lemma_pattern(b);
    let (m, n) = (a.significand(), b.significand());
    let (j, k) = (a.scale(), b.scale());
    lemma_pow2_pos(j);
    if j == k {
        assert(m * pow2(j) < n * pow2(j)) by (nonlinear_arith)
            requires
                m < n,
                pow2(j) > 0,
        ;
    } else {
        assert(j < k) by (nonlinear_arith)
            requires
                j * FRACTIONS + m < k * FRACTIONS + n,
                FRACTIONS == 0x10_0000_0000_0000,
                n < 0x20_0000_0000_0000,
                j > 0 ==> m >= FRACTIONS,
                j != k,
                j >= 0,
                k >= 0,
        ;
        let gap = (k - j - 1) as nat;
        lemma_pow2_adds(gap, j + 1);
        lemma_pow2_unfold(j + 1);
        lemma_pow2_pos(gap);
        assert(gap + (j + 1) == k);
        assert(m * pow2(j) < n * pow2(k)) by (nonlinear_arith)
            requires
                pow2(k) == pow2(gap) * (2 * pow2(j)),
                pow2(gap) >= 1,
                pow2(j) > 0,
                m < 0x20_0000_0000_0000,
                n >= 0x10_0000_0000_0000,
        ;
    }
}

/// Computes a power of two.
fn two_to(k: u32) -> (p: u128)
    requires
        k < 128,
    ensures
        p == pow2(k as nat),
{
    let mut p: u128 = 1;
    let mut i: u32 = 0;
    proof {
        lemma2_to64();
    }
    while i < k
        invariant
            i <= k < 128,
            p == pow2(i as nat),
        decreases k - i,
    {
        proof {
            lemma_pow2_unfold((i + 1) as nat);
            lemma2_to64();
            lemma2_to64_rest();
            lemma_pow2_adds(64, 63);
            if i < 126 {
                lemma_pow2_strictly_increases((i + 1) as nat, 127);
            }
        }
        p = p * 2;
        i = i + 1;
    }
    p
}

impl Double {
    /// Splits a double into its significand and its scale.
    fn parts(self) -> (parts: (u64, u32))
        ensures
            parts.0 == self.significand(),
            parts.1 == self.scale(),
    {
        let exponent: u64 = (self.bits / FRACTIONS) % 2048;
        let fraction: u64 = self.bits % FRACTIONS;
        if exponent == 0 {
            (fraction, 0)
        } else {
            (FRACTIONS + fraction, (exponent - 1) as u32)
        }
    }

    /// Whether `self < other` holds; no comparison with a NaN does.
    pub fn less_than(self, other: Double) -> (less: bool)
        ensures
            less == (!self.is_nan() && !other.is_nan() && self.value() < other.value()),
    {
        let nan_self = (self.bits / FRACTIONS) % 2048 == 2047 && self.bits % FRACTIONS != 0;
        let nan_other = (other.bits / FRACTIONS) % 2048 == 2047 && other.bits % FRACTIONS != 0;
        if nan_self || nan_other {
            return false;
        }
        let a: u64 = self.bits % SIGN;
        let b: u64 = other.bits % SIGN;
        proof {
            lemma_magnitudes(self, other);
        }
        if self.bits < SIGN {
            if other.bits < SIGN {
                a < b
            } else {
                false
            }
        } else if other.bits < SIGN {
            a != 0 || b != 0
        } else {
            b < a
        }
    }

    /// Brings a value into the range from `low` to `high`; a NaN stays as it is.
    pub fn clamp(self, low: Double, high: Double) -> (clamped: Double)
        ensures
            clamped == clamped_between(self, low, high),
    {
        if self.less_than(low) {
            low
        } else if high.less_than(self) {
            high
        } else {
            self
        }
    }
}

/// `self` where it lies between `low` and `high`, the end that it is beyond
/// otherwise. A NaN lies beyond neither.
pub open spec fn clamped_between(d: Double, low: Double, high: Double) -> Double {
    if d.is_nan() {
        d
    } else if !low.is_nan() && d.value() < low.value() {
        low
    } else if !high.is_nan() && d.value() > high.value() {
        high
    } else {
        d
    }
}

/// How two magnitudes compare, by their patterns.
proof fn lemma_magnitudes(a: Double, b: Double)
    ensures
        a.pattern() < b.pattern() ==> a.units() < b.units(),
        b.pattern() < a.pattern() ==> b.units() < a.units(),
        a.pattern() == b.pattern() ==> a.units() == b.units(),
        (a.units() == 0) == (a.pattern() == 0),
        (b.units() == 0) == (b.pattern() == 0),
{
    let zero = Double { bits: 0 };
    assert(zero.units() == 0) by (nonlinear_arith)
        requires
            zero.units() == zero.significand() * pow2(zero.scale()),
            zero.significand() == 0,
    ;
    let (p, q) = (a.pattern(), b.pattern());
    if p < q {
        lemma_pattern_order(a, b);
    } else if q < p {
        lemma_pattern_order(b, a);
    } else {
        assert(a.exponent() == b.exponent());
        assert(a.fraction() == b.fraction());
    }
    if p > 0 {
        lemma_pattern_order(zero, a);
    } else {
        assert(a.exponent() == zero.exponent());
        assert(a.fraction() == zero.fraction());
    }
    if q > 0 {
        lemma_pattern_order(zero, b);
    } else {
        assert(b.exponent() == zero.exponent());
        assert(b.fraction() == zero.fraction());
    }
}

impl Double {
    /// The double nearest to `num * 2^k / den` units.
    fn nearest_to(num: u128, den: u64, k: u32) -> (d: Double)
        requires
            den > 0,
            k <= 1800,
        ensures
            !d.negative(),
            d.exponent() < 2047,
            d.units() == rounding::nearest(num as nat * pow2(k as nat), den as nat),
    {
        if num == 0 {
            proof {
                rounding::lemma_nearest_zero(den as nat);
                assert(num as nat * pow2(k as nat) == 0) by (nonlinear_arith)
                    requires
                        num == 0,
                ;
                lemma_assemble(0, 0, Double { bits: 0 });
            }
            return Double { bits: 0 };
        }
        // Shift left, as far as the scale has room, to get enough bits into the quotient.
        let mut n: u128 = num;
        let mut left: u32 = k;
        while left > 0 && n < 0x4000_0000_0000_0000_0000_0000_0000_0000
            invariant
                0 < n,
                left <= k <= 1800,
                n as nat * pow2(left as nat) == num as nat * pow2(k as nat),
            decreases left,
        {
            proof {
                lemma_pow2_unfold(left as nat);
                assert((2 * n) * pow2((left - 1) as nat) == n * (2 * pow2((left - 1) as nat)))
                    by (nonlinear_arith);
            }
            n = n * 2;
            left = left - 1;
        }
        // Drop the bits of the quotient beyond the significant ones.
        let whole: u128 = n / (den as u128);
        let mut top: u128 = whole;
        let mut grain_den: u128 = den as u128;
        let mut dropped: u32 = 0;
        proof {
            lemma2_to64();
            lemma2_to64_rest();
            lemma_fundamental_div_mod(n as int, den as int);
            lemma_mod_bound(n as int, den as int);
            assert(grain_den * top <= n < grain_den * (top + 1)) by (nonlinear_arith)
                requires
                    n == den * whole + n as int % den as int,
                    0 <= n as int % den as int,
                    (n as int % den as int) < den,
                    grain_den == den,
                    top == whole,
            ;
        }
        while top >= 0x20_0000_0000_0000
            invariant
                0 < den,
                0 < n,
                pow2(53) == 0x20_0000_0000_0000,
                grain_den > 0,
                grain_den as nat == den as nat * pow2(dropped as nat),
                grain_den * top <= n < grain_den * (top + 1),
                dropped + rounding::excess_bits(top as nat) == rounding::excess_bits(whole as nat),
                dropped > 0 ==> top >= 0x10_0000_0000_0000,
                dropped <= 128,
            decreases top,
        {
            proof {
                lemma_pow2_unfold((dropped + 1) as nat);
                assert(grain_den <= 0x1000_0000_0000_0000_0000) by (nonlinear_arith)
                    requires
                        grain_den * top <= n,
                        top >= 0x20_0000_0000_0000,
                        n <= 0xffff_ffff_ffff_ffff_ffff_ffff_ffff_ffff,
                        grain_den > 0,
                ;
                assert(dropped < 128) by {
                    if dropped >= 128 {
                        lemma2_to64();
                        lemma_pow2_adds(64, 64);
                        assert(grain_den >= 0x1_0000_0000_0000_0000_0000_0000_0000_0000)
                            by (nonlinear_arith)
                            requires
                                grain_den == den as nat * pow2(128),
                                pow2(128) == 0x1_0000_0000_0000_0000_0000_0000_0000_0000,
                                den > 0,
                        ;
                    }
                }
                assert((2 * grain_den) * (top / 2) <= grain_den * top) by (nonlinear_arith)
                    requires
                        grain_den > 0,
                        2 * (top / 2) <= top,
                ;
                assert(grain_den * (top + 1) <= (2 * grain_den) * (top / 2 + 1)) by (nonlinear_arith)
                    requires
                        grain_den > 0,
                        top + 1 <= 2 * (top / 2 + 1),
                ;
                assert(2 * (den as nat * pow2(dropped as nat)) == den as nat * (2 * pow2(
                    dropped as nat,
                ))) by (nonlinear_arith);
            }
            top = top / 2;
            grain_den = grain_den * 2;
            dropped = dropped + 1;
        }
        let significand: u128 = rounding::round_quotient(n, grain_den);
        proof {
            assert(n == top * grain_den + (n - grain_den * top)) by (nonlinear_arith);
            assert(n - grain_den * top < grain_den) by (nonlinear_arith)
                requires
                    n < grain_den * (top + 1),
            ;
            lemma_fundamental_div_mod_converse(
                n as int,
                grain_den as int,
                top as int,
                n - grain_den * top,
            );
            assert(left > 0 ==> whole >= 0x20_0000_0000_0000) by {
                if left > 0 {
                    assert(whole >= 0x20_0000_0000_0000) by (nonlinear_arith)
                        requires
                            n < den * (whole + 1),
                            n >= 0x4000_0000_0000_0000_0000_0000_0000_0000,
                            den <= 0xffff_ffff_ffff_ffff,
                    ;
                }
            }
            lemma_nearest_parts(
                num as nat,
                den as nat,
                k as nat,
                n as nat,
                left as nat,
                dropped as nat,
            );
            assert(left + dropped > 0 ==> top >= 0x10_0000_0000_0000);
        }
        let scale: u64 = (left + dropped) as u64;
        let bits: u64 = scale * FRACTIONS + significand as u64;
        let d = Double { bits };
        proof {
            lemma_assemble(scale as nat, significand as nat, d);
        }
        d
    }
}

/// The nearest double of a fraction, from a shifted one that has the same value.
proof fn lemma_nearest_parts(num: nat, den: nat, k: nat, n: nat, left: nat, dropped: nat)
    requires
        den > 0,
        n * pow2(left) == num * pow2(k),
        dropped == rounding::excess_bits(n / den),
        left > 0 ==> n / den >= pow2(52),
    ensures
        rounding::nearest(num * pow2(k), den) == rounding::round_half_even(
            n,
            den * pow2(dropped),
        ) * pow2(left + dropped),
{
    rounding::lemma_excess_bits_shift(n, den, left);
    lemma_pow2_pos(left);
    lemma_pow2_pos(dropped);
    lemma_pow2_adds(dropped, left);
    assert(den * pow2(dropped) > 0) by (nonlinear_arith)
        requires
            den > 0,
            pow2(dropped) > 0,
    ;
    assert(den * (pow2(dropped) * pow2(left)) == (den * pow2(dropped)) * pow2(left))
        by (nonlinear_arith);
    rounding::lemma_round_half_even_scale(n, den * pow2(dropped), pow2(left));
}

/// The units bound the scale.
pub proof fn lemma_scale_bound(d: Double, bound: nat)
    requires
        d.units() < pow2(bound),
        bound >= 52,
    ensures
        d.scale() + 52 <= bound,
{
    lemma_pattern(d);
    if d.scale() + 52 > bound {
        lemma2_to64_rest();
        lemma_pow2_adds(52, d.scale());
        lemma_pow2_pos(d.scale());
        if bound < 52 + d.scale() {
            lemma_pow2_strictly_increases(bound, 52 + d.scale());
        }
        lemma_mul_inequality(pow2(52) as int, d.significand() as int, pow2(d.scale()) as int);
    }
}

/// They bound it from below, too.
proof fn lemma_scale_floor(d: Double, floor: nat)
    requires
        d.units() >= pow2(floor),
    ensures
        d.scale() + 53 > floor,
{
    lemma_pattern(d);
    if d.scale() + 53 <= floor {
        lemma2_to64_rest();
        lemma_pow2_adds(53, d.scale());
        lemma_pow2_pos(d.scale());
        assert(d.significand() * pow2(d.scale()) < pow2(53) * pow2(d.scale())) by (nonlinear_arith)
            requires
                d.significand() < pow2(53),
                pow2(d.scale()) > 0,
        ;
        if 53 + d.scale() < floor {
            lemma_pow2_strictly_increases(53 + d.scale(), floor);
        }
    }
}

impl Double {
    /// Converts an integer.
    pub fn from_u64(n: u64) -> (d: Double)
        ensures
            !d.negative(),
            d.exponent() < 2047,
            d.units() == rounding::nearest(n as nat * rounding::one(), 1),
    {
        Double::nearest_to(n as u128, 1, 1074)
    }

    /// Divides the magnitude by an integer.
    pub fn divided_by(self, divisor: u64) -> (d: Double)
        requires
            divisor > 0,
            self.units() < pow2(1800),
        ensures
            !d.negative(),
            d.exponent() < 2047,
            d.units() == rounding::nearest(self.units(), divisor as nat),
    {
        proof {
            lemma_scale_bound(self, 1800);
        }
        let (significand, scale) = self.parts();
        Double::nearest_to(significand as u128, divisor, scale)
    }

    /// Adds two magnitudes.
    pub fn plus(self, other: Double) -> (d: Double)
        requires
            self.units() < pow2(1800),
            other.units() < pow2(1800),
        ensures
            !d.negative(),
            d.exponent() < 2047,
            d.units() == rounding::nearest(self.units() + other.units(), 1),
    {
        proof {
            lemma_pattern(self);
            lemma_pattern(other);
            lemma_scale_bound(self, 1800);
            lemma_scale_bound(other, 1800);
        }
        let (m, j) = self.parts();
        let (n, k) = other.parts();
        if j >= k {
            Double::sum_of_parts(m, j, n, k)
        } else {
            Double::sum_of_parts(n, k, m, j)
        }
    }

    /// Adds `m * 2^j` and `n * 2^k` units.
    fn sum_of_parts(m: u64, j: u32, n: u64, k: u32) -> (d: Double)
        requires
            k <= j <= 1800,
            m < 0x20_0000_0000_0000,
            n < 0x20_0000_0000_0000,
            j > 0 ==> m >= FRACTIONS,
        ensures
            !d.negative(),
            d.exponent() < 2047,
            d.units() == rounding::nearest(
                m as nat * pow2(j as nat) + n as nat * pow2(k as nat),
                1,
            ),
    {
        let gap: u32 = j - k;
        proof {
            lemma2_to64();
            lemma2_to64_rest();
            lemma_pow2_adds(gap as nat, k as nat);
            lemma_pow2_pos(k as nat);
        }
        if gap <= 60 {
            let shift: u128 = two_to(gap);
            proof {
                if gap < 60 {
                    lemma_pow2_strictly_increases(gap as nat, 60);
                }
                assert(m * shift <= 0x20_0000_0000_0000 * 0x1000_0000_0000_0000) by (nonlinear_arith)
                    requires
                        m < 0x20_0000_0000_0000,
                        shift <= 0x1000_0000_0000_0000,
                ;
                assert(m * (pow2(gap as nat) * pow2(k as nat)) + n * pow2(k as nat) == (m * shift
                    + n) * pow2(k as nat)) by (nonlinear_arith)
                    requires
                        shift == pow2(gap as nat),
                ;
            }
            Double::nearest_to((m as u128) * shift + n as u128, 1, k)
        } else {
            let bits: u64 = (j as u64) * FRACTIONS + m;
            let d = Double { bits };
            proof {
                lemma_assemble(j as nat, m as nat, d);
                let tiny = n * pow2(k as nat);
                lemma_pow2_adds((gap - 61) as nat, 61);
                assert(pow2(61) == 0x2000_0000_0000_0000);
                lemma_pow2_pos((gap - 61) as nat);
                assert(2 * tiny < pow2(j as nat)) by (nonlinear_arith)
                    requires
                        tiny == n * pow2(k as nat),
                        n < 0x20_0000_0000_0000,
                        pow2(j as nat) == (pow2((gap - 61) as nat) * 0x2000_0000_0000_0000) * pow2(
                            k as nat,
                        ),
                        pow2((gap - 61) as nat) >= 1,
                        pow2(k as nat) > 0,
                ;
                rounding::lemma_nearest_absorbs(m as nat, j as nat, tiny as nat);
            }
            d
        }
    }

    /// Takes a magnitude from a greater one of about the same scale.
    pub fn minus(self, other: Double) -> (d: Double)
        requires
            other.units() <= self.units() < pow2(1800),
            self.scale() <= other.scale() + 60,
        ensures
            !d.negative(),
            d.exponent() < 2047,
            d.units() == rounding::nearest((self.units() - other.units()) as nat, 1),
    {
        proof {
            lemma2_to64_rest();
            lemma_pattern(self);
            lemma_pattern(other);
            lemma_magnitudes(self, other);
            lemma_scale_bound(self, 1800);
            assert(other.scale() <= self.scale()) by (nonlinear_arith)
                requires
                    other.scale() * FRACTIONS + other.significand() <= self.scale() * FRACTIONS
                        + self.significand(),
                    FRACTIONS == 0x10_0000_0000_0000,
                    self.significand() < 0x20_0000_0000_0000,
                    other.scale() > 0 ==> other.significand() >= FRACTIONS,
                    other.scale() >= 0,
                    self.scale() >= 0,
            ;
        }
        let (m, j) = self.parts();
        let (n, k) = other.parts();
        let gap: u32 = j - k;
        let shift: u128 = two_to(gap);
        proof {
            lemma_pow2_adds(gap as nat, k as nat);
            lemma_pow2_pos(k as nat);
            if gap < 60 {
                lemma_pow2_strictly_increases(gap as nat, 60);
            }
            assert(m * shift <= 0x20_0000_0000_0000 * 0x1000_0000_0000_0000) by (nonlinear_arith)
                requires
                    m < 0x20_0000_0000_0000,
                    shift <= 0x1000_0000_0000_0000,
            ;
            assert(self.units() - other.units() == (m * shift - n) * pow2(k as nat))
                by (nonlinear_arith)
                requires
                    self.units() == m * (shift * pow2(k as nat)),
                    other.units() == n * pow2(k as nat),
            ;
            assert(m * shift >= n) by (nonlinear_arith)
                requires
                    (m * shift - n) * pow2(k as nat) >= 0,
                    pow2(k as nat) > 0,
            ;
        }
        Double::nearest_to((m as u128) * shift - n as u128, 1, k)
    }

    /// Multiplies two magnitudes that are not too small for their product to
    /// have all its bits.
    pub fn times(self, other: Double) -> (d: Double)
        requires
            self.units() < pow2(1400),
            other.units() < pow2(1400),
            self.units() == 0 || other.units() == 0 || (self.units() >= pow2(700)
                && other.units() >= pow2(700)),
        ensures
            !d.negative(),
            d.exponent() < 2047,
            d.units() == rounding::nearest(self.units() * other.units(), rounding::one()),
    {
        proof {
            lemma_pattern(self);
            lemma_pattern(other);
            lemma_scale_bound(self, 1400);
            lemma_scale_bound(other, 1400);
            lemma_pow2_pos(1074);
            lemma_magnitudes(self, other);
        }
        let (m, j) = self.parts();
        let (n, k) = other.parts();
        if m == 0 || n == 0 {
            proof {
                lemma_pow2_pos(self.scale());
                lemma_pow2_pos(other.scale());
                assert(self.units() * other.units() == 0) by (nonlinear_arith)
                    requires
                        self.units() == m * pow2(self.scale()),
                        other.units() == n * pow2(other.scale()),
                        m == 0 || n == 0,
                ;
                rounding::lemma_nearest_zero(rounding::one());
                lemma_assemble(0, 0, Double { bits: 0 });
            }
            return Double { bits: 0 };
        }
        proof {
            lemma_pow2_pos(self.scale());
            lemma_pow2_pos(other.scale());
            assert(self.units() > 0 && other.units() > 0) by (nonlinear_arith)
                requires
                    self.units() == m * pow2(self.scale()),
                    other.units() == n * pow2(other.scale()),
                    m > 0,
                    n > 0,
                    pow2(self.scale()) > 0,
                    pow2(other.scale()) > 0,
            ;
            lemma_scale_floor(self, 700);
            lemma_scale_floor(other, 700);
            let rest = (j + k - 1074) as nat;
            lemma_pow2_adds(rest, 1074);
            lemma_pow2_adds(j as nat, k as nat);
            assert(rest + 1074 == j as nat + k as nat);
            assert(m * n < 0x20_0000_0000_0000 * 0x20_0000_0000_0000) by (nonlinear_arith)
                requires
                    m < 0x20_0000_0000_0000,
                    n < 0x20_0000_0000_0000,
            ;
            assert((m * pow2(j as nat)) * (n * pow2(k as nat)) == ((m * n) * pow2(rest))
                * rounding::one()) by (nonlinear_arith)
                requires
                    pow2(j as nat) * pow2(k as nat) == pow2(rest) * rounding::one(),
            ;
            rounding::lemma_nearest_scale(
                ((m * n) * pow2(rest)) as nat,
                1,
                rounding::one(),
            );
            assert(1 * rounding::one() == rounding::one());
        }
        Double::nearest_to((m as u128) * (n as u128), 1, j + k - 1074)
    }

    /// The whole part of the magnitude, or the greatest integer where it is
    /// beyond that.
    pub fn truncated(self) -> (n: u64)
        ensures
            n == if self.units() / rounding::one() > u64::MAX {
                u64::MAX as nat
            } else {
                self.units() / rounding::one()
            },
    {
        let (m, k) = self.parts();
        proof {
            lemma2_to64();
            lemma2_to64_rest();
            lemma_pattern(self);
            lemma_pow2_pos(1074);
        }
        if k >= 1074 {
            let shift: u32 = k - 1074;
            proof {
                lemma_pow2_adds(shift as nat, 1074);
                lemma_pow2_pos(shift as nat);
                let v = m * pow2(shift as nat);
                assert(self.units() == v * rounding::one() + 0) by (nonlinear_arith)
                    requires
                        self.units() == m * (pow2(shift as nat) * pow2(1074)),
                        rounding::one() == pow2(1074),
                        v == m * pow2(shift as nat),
                ;
                lemma_fundamental_div_mod_converse(
                    self.units() as int,
                    rounding::one() as int,
                    v,
                    0,
                );
                if shift >= 12 {
                    if shift > 12 {
                        lemma_pow2_strictly_increases(12, shift as nat);
                    }
                    assert(v > u64::MAX) by (nonlinear_arith)
                        requires
                            v == m * pow2(shift as nat),
                            m >= 0x10_0000_0000_0000,
                            pow2(shift as nat) >= 0x1000,
                    ;
                } else {
                    if shift < 11 {
                        lemma_pow2_strictly_increases(shift as nat, 11);
                    }
                    assert(v <= u64::MAX) by (nonlinear_arith)
                        requires
                            v == m * pow2(shift as nat),
                            m < 0x20_0000_0000_0000,
                            pow2(shift as nat) <= 0x800,
                    ;
                }
            }
            if shift >= 12 {
                u64::MAX
            } else {
                m * (two_to(shift) as u64)
            }
        } else {
            let shift: u32 = 1074 - k;
            proof {
                lemma_pow2_adds(shift as nat, k as nat);
                lemma_pow2_pos(shift as nat);
                lemma_pow2_pos(k as nat);
                rounding::lemma_quotient_scale(m as nat, pow2(shift as nat), pow2(k as nat));
                assert(self.units() / rounding::one() == m as nat / pow2(shift as nat));
                assert(m as nat / pow2(shift as nat) <= m) by (nonlinear_arith)
                    requires
                        pow2(shift as nat) > 0,
                ;
                if shift >= 53 {
                    if shift > 53 {
                        lemma_pow2_strictly_increases(53, shift as nat);
                    }
                    lemma_fundamental_div_mod_converse(
                        m as int,
                        pow2(shift as nat) as int,
                        0,
                        m as int,
                    );
                }
            }
            if shift >= 53 {
                0
            } else {
                ((m as u128) / two_to(shift)) as u64
            }
        }
    }

    /// The magnitude times `factor`, rounded to an integer.
    pub fn rounded(self, factor: u64) -> (n: u64)
        requires
            factor <= 10,
            self.units() < pow2(53) * rounding::one(),
        ensures
            n == rounding::round_half_even(self.units() * factor as nat, rounding::one()),
    {
        let (m, k) = self.parts();
        proof {
            lemma2_to64();
            lemma2_to64_rest();
            lemma_pattern(self);
            lemma_pow2_adds(53, 1074);
            lemma_scale_bound(self, 1127);
        }
        proof {
            lemma_pow2_pos(k as nat);
            if k == 1075 {
                lemma_pow2_unfold(1075);
                assert(self.units() >= pow2(53) * rounding::one()) by (nonlinear_arith)
                    requires
                        self.units() == m * (2 * rounding::one()),
                        m >= 0x10_0000_0000_0000,
                        pow2(53) == 0x20_0000_0000_0000,
                ;
            }
        }
        let shift: u32 = 1074 - k;
        proof {
            assert(m * factor <= 0x20_0000_0000_0000 * 10) by (nonlinear_arith)
                requires
                    m < 0x20_0000_0000_0000,
                    factor <= 10,
            ;
        }
        let scaled: u128 = (m as u128) * (factor as u128);
        proof {
            lemma_pow2_adds(shift as nat, k as nat);
            lemma_pow2_pos(shift as nat);
            assert((m * pow2(k as nat)) * factor == scaled * pow2(k as nat)) by (nonlinear_arith)
                requires
                    scaled == m * factor,
            ;
            rounding::lemma_round_half_even_scale(
                scaled as nat,
                pow2(shift as nat),
                pow2(k as nat),
            );
            rounding::lemma_round_half_even_error(scaled as nat, pow2(shift as nat));
        }
        if shift >= 64 {
            proof {
                if shift > 64 {
                    lemma_pow2_strictly_increases(64, shift as nat);
                }
                lemma_fundamental_div_mod_converse(
                    scaled as int,
                    pow2(shift as nat) as int,
                    0,
                    scaled as int,
                );
            }
            0
        } else {
            let den: u128 = two_to(shift);
            let q: u128 = rounding::round_quotient(scaled, den);
            proof {
                assert(scaled as nat / pow2(shift as nat) <= scaled) by (nonlinear_arith)
                    requires
                        pow2(shift as nat) > 0,
                ;
            }
            q as u64
        }
    }
}

/// What a pattern stands for: a sign, eleven bits of exponent and 52 bits of
/// fraction, in units of `2^-1074`.
pub proof fn law_patterns_stand_for_numbers(sign: bool, exponent: nat, fraction: nat, d: Double)
    requires
        exponent < 2048,
        fraction < 0x10_0000_0000_0000,
        d.bits == (if sign {
            0x8000_0000_0000_0000nat
        } else {
            0
        }) + exponent * 0x10_0000_0000_0000 + fraction,
    ensures
        d.is_nan() <==> exponent == 2047 && fraction > 0,
        d.negative() == sign,
        exponent == 0 ==> d.units() == fraction,
        exponent > 0 ==> d.units() == (0x10_0000_0000_0000 + fraction) * pow2(
            (exponent - 1) as nat,
        ),
        d.value() == if sign {
            -d.units()
        } else {
            d.units() as int
        },
{
    lemma2_to64();
    assert(d.exponent() == exponent);
    assert(d.fraction() == fraction);
    if exponent == 0 {
        assert(fraction * pow2(0) == fraction) by (nonlinear_arith)
            requires
                pow2(0) == 1,
        ;
    }
}

/// Comparison and clamping go by the numbers; a NaN compares with nothing and
/// is left as it is.
pub proof fn law_doubles_are_compared_by_value(
    d: Double,
    low: Double,
    high: Double,
    less: bool,
    clamped: Double,
)
    requires
        call_ensures(Double::less_than, (d, low), less),
        call_ensures(Double::clamp, (d, low, high), clamped),
        !low.is_nan() && !high.is_nan() && low.value() <= high.value(),
    ensures
        d.is_nan() ==> !less && clamped == d,
        !d.is_nan() ==> (less <==> d.value() < low.value()),
        !d.is_nan() && low.value() <= d.value() <= high.value() ==> clamped == d,
        !d.is_nan() && d.value() < low.value() ==> clamped == low,
        !d.is_nan() && d.value() > high.value() ==> clamped == high,
{
}

} // verus!
