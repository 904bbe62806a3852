//! The share of packets that is lost on purpose.
use crate::double;
use crate::double::Double;
use crate::rounding;
use crate::text;
use vstd::arithmetic::power2::{
    lemma2_to64, lemma2_to64_rest, lemma_pow2_adds, lemma_pow2_pos, lemma_pow2_strictly_increases,
    pow2,
};
use vstd::prelude::*;
use vstd::string::*;

verus! {

/// The pattern of the double one.
pub const ONE_BITS: u64 = 0x3ff0_0000_0000_0000;

/// The pattern of the double one hundred.
pub const HUNDRED_BITS: u64 = 0x4059_0000_0000_0000;

/// A percentage, from zero to one hundred, or a NaN.
#[derive(Clone, Copy, Debug)]
pub struct LossPercent {
    double: Double,
}

/// The patterns are what their names say.
pub proof fn lemma_constants()
    ensures
        (Double { bits: 0 }).units() == 0,
        (Double { bits: 0 }).value() == 0,
        !(Double { bits: 0 }).is_nan(),
        (Double { bits: ONE_BITS }).units() == rounding::one(),
        (Double { bits: ONE_BITS }).value() == rounding::one(),
        !(Double { bits: ONE_BITS }).is_nan(),
        (Double { bits: ONE_BITS }).scale() == 1022,
        (Double { bits: ONE_BITS }).exponent() == 1023,
        (Double { bits: HUNDRED_BITS }).units() == 100 * rounding::one(),
        (Double { bits: HUNDRED_BITS }).value() == 100 * rounding::one(),
        !(Double { bits: HUNDRED_BITS }).is_nan(),
        rounding::one() > 0,
        100 * rounding::one() < pow2(1081),
        rounding::nearest(100 * rounding::one(), 1) == 100 * rounding::one(),
        rounding::nearest(rounding::one(), 1) == rounding::one(),
{
    let zero = Double { bits: 0 };
    let one = Double { bits: ONE_BITS };
    let hundred = Double { bits: HUNDRED_BITS };
    lemma2_to64();
    lemma2_to64_rest();
    lemma_pow2_pos(1074);
    assert(zero.significand() == 0 && zero.scale() == 0);
    assert(zero.units() == 0) by (nonlinear_arith)
        requires
            zero.units() == zero.significand() * pow2(zero.scale()),
            zero.significand() == 0,
    ;
    assert(one.significand() == pow2(52) && one.scale() == 1022);
    lemma_pow2_adds(52, 1022);
    assert(hundred.significand() == 25 * 0x1_0000_0000_0000 && hundred.scale() == 1028);
    lemma_pow2_adds(48, 1028);
    lemma_pow2_adds(2, 1074);
    assert(hundred.units() == 100 * pow2(1074)) by (nonlinear_arith)
        requires
            hundred.units() == (25 * 0x1_0000_0000_0000) * pow2(1028),
            0x1_0000_0000_0000 * pow2(1028) == pow2(1076),
            pow2(1076) == 4 * pow2(1074),
    ;
    lemma_pow2_adds(7, 1074);
    lemma_pow2_pos(1028);
    lemma_pow2_pos(1022);
    rounding::lemma_nearest_absorbs(hundred.significand(), hundred.scale(), 0);
    rounding::lemma_nearest_absorbs(one.significand(), one.scale(), 0);
}

impl LossPercent {
    #[verifier::type_invariant]
    spec fn in_range(self) -> bool {
        self.double.is_nan() || 0 <= self.double.value() <= 100 * rounding::one()
    }

    /// The percentage as a double.
    pub closed spec fn double(self) -> Double {
        self.double
    }

    pub open spec fn is_nan(self) -> bool {
        self.double().is_nan()
    }

    /// The percentage in units, of which one percent has [`rounding::one`].
    pub open spec fn units(self) -> nat {
        self.double().units()
    }

    /// Some loss is asked for.
    pub open spec fn positive(self) -> bool {
        !self.is_nan() && self.units() > 0
    }

    /// The percentage nearest to a double.
    pub fn clamped(raw: Double) -> (loss: LossPercent)
        ensures
            loss.double() == double::clamped_between(
                raw,
                Double { bits: 0 },
                Double { bits: HUNDRED_BITS },
            ),
    {
        proof {
            lemma_constants();
        }
        LossPercent { double: raw.clamp(Double { bits: 0 }, Double { bits: HUNDRED_BITS }) }
    }

    /// The percentage as a double, which lies between zero and one hundred.
    pub fn get(self) -> (double: Double)
        ensures
            double == self.double(),
            double.is_nan() || 0 <= double.value() <= 100 * rounding::one(),
    {
        proof {
            use_type_invariant(&self);
        }
        self.double
    }

    /// One percent.
    pub fn one_percent() -> (loss: LossPercent)
        ensures
            loss.double() == (Double { bits: ONE_BITS }),
    {
        proof {
            lemma_constants();
        }
        LossPercent { double: Double { bits: ONE_BITS } }
    }

    /// Whether some loss is asked for.
    pub fn is_positive(self) -> (positive: bool)
        ensures
            positive == self.positive(),
    {
        proof {
            use_type_invariant(&self);
            lemma_constants();
        }
        (Double { bits: 0 }).less_than(self.double)
    }

    /// Whether no loss is asked for. Neither this nor its opposite holds of a NaN.
    pub fn is_zero(self) -> (zero: bool)
        ensures
            zero == (!self.is_nan() && self.units() == 0),
    {
        proof {
            use_type_invariant(&self);
            lemma_constants();
        }
        !self.is_nan_loss() && !self.is_positive()
    }

    /// `self` and one percent more, up to one hundred.
    pub open spec fn is_step_up(self, next: LossPercent) -> bool {
        if self.is_nan() {
            next == self
        } else {
            let sum = rounding::nearest(self.units() + rounding::one(), 1);
            &&& !next.is_nan()
            &&& !next.double().negative()
            &&& next.units() == if sum > 100 * rounding::one() {
                100 * rounding::one()
            } else {
                sum
            }
        }
    }

    /// `self` and one percent less, down to zero.
    pub open spec fn is_step_down(self, next: LossPercent) -> bool {
        if self.is_nan() {
            next == self
        } else {
            &&& !next.is_nan()
            &&& !next.double().negative()
            &&& next.units() == if self.units() < rounding::one() {
                0
            } else {
                rounding::nearest((self.units() - rounding::one()) as nat, 1)
            }
        }
    }

    /// One percent more.
    pub fn step_up(self) -> (next: LossPercent)
        ensures
            self.is_step_up(next),
    {
        proof {
            use_type_invariant(&self);
            lemma_constants();
            lemma_pow2_strictly_increases(1081, 1800);
        }
        if self.is_nan_loss() {
            return self;
        }
        let sum = self.double.plus(Double { bits: ONE_BITS });
        LossPercent::clamped(sum)
    }

    /// One percent less.
    pub fn step_down(self) -> (next: LossPercent)
        ensures
            self.is_step_down(next),
    {
        proof {
            use_type_invariant(&self);
            lemma_constants();
            lemma_pow2_strictly_increases(1081, 1800);
        }
        if self.is_nan_loss() {
            return self;
        }
        if self.double.less_than(Double { bits: ONE_BITS }) {
            return LossPercent { double: Double { bits: 0 } };
        }
        proof {
            double::lemma_scale_bound(self.double, 1081);
            rounding::lemma_nearest_monotone(
                (self.units() - rounding::one()) as nat,
                100 * rounding::one(),
                1,
            );
        }
        LossPercent::clamped(self.double.minus(Double { bits: ONE_BITS }))
    }

    /// The probability that a packet is lost, in units: a hundredth of the
    /// percentage.
    pub open spec fn chance(self) -> nat {
        rounding::nearest(self.units(), 100)
    }

    /// The probability that a packet is lost: a hundredth of the percentage,
    /// never above one. Of a NaN it is that NaN.
    pub fn probability(self) -> (p: Double)
        ensures
            self.is_nan() ==> p == self.double(),
            !self.is_nan() ==> {
                &&& !p.is_nan()
                &&& !p.negative()
                &&& p.units() == self.chance()
                &&& p.units() <= rounding::one()
            },
    {
        proof {
            use_type_invariant(&self);
            lemma_constants();
            lemma_pow2_strictly_increases(1081, 1800);
        }
        if self.is_nan_loss() {
            return self.double;
        }
        proof {
            rounding::lemma_nearest_monotone(self.units(), 100 * rounding::one(), 100);
            lemma_hundredth(rounding::one());
        }
        self.double.divided_by(100)
    }

    /// The percentage as text, with one digit after the point.
    pub open spec fn text(self) -> Seq<char> {
        if self.is_nan() {
            "NaN"@
        } else {
            let written = text::one_decimal(
                rounding::round_half_even(self.units() * 10, rounding::one()),
            );
            if self.double().negative() {
                "-"@ + written
            } else {
                written
            }
        }
    }

    /// Appends the percentage as text.
    pub fn push_text(self, written: &mut String)
        ensures
            final(written)@ == old(written)@ + self.text(),
    {
        proof {
            use_type_invariant(&self);
            lemma_constants();
            lemma_pow2_adds(53, 1074);
            lemma_pow2_strictly_increases(1081, 1127);
        }
        if self.is_nan_loss() {
            written.append("NaN");
            return ;
        }
        if self.double.bits >= double::SIGN {
            written.append("-");
        }
        text::push_one_decimal(written, self.double.rounded(10));
        assert(written@ =~= old(written)@ + self.text());
    }

    fn is_nan_loss(self) -> (nan: bool)
        ensures
            nan == self.is_nan(),
    {
        let exponent: u64 = (self.double.bits / double::FRACTIONS) % 2048;
        exponent == 2047 && self.double.bits % double::FRACTIONS != 0
    }
}

proof fn lemma_hundredth(units: nat)
    ensures
        rounding::nearest(100 * units, 100) == rounding::nearest(units, 1),
{
    rounding::lemma_nearest_scale(units, 1, 100);
}

/// No loss at all has probability zero, and full loss probability one.
pub proof fn law_probability_ends(units: nat)
    ensures
        units == 0 ==> rounding::nearest(units, 100) == 0,
        units == 100 * rounding::one() ==> rounding::nearest(units, 100) == rounding::one(),
{
    lemma_constants();
    lemma_hundredth(rounding::one());
    lemma_hundredth(0);
    lemma2_to64();
    lemma2_to64_rest();
    rounding::lemma_nearest_absorbs(0, 0, 0);
}

/// More loss asked for never makes a loss less probable.
pub proof fn law_probability_grows(less: nat, more: nat)
    requires
        less <= more,
    ensures
        rounding::nearest(less, 100) <= rounding::nearest(more, 100),
{
    rounding::lemma_nearest_monotone(less, more, 100);
}

/// A whole percentage stays whole: a step up from `n` percent leads to
/// `n + 1`, or stays at one hundred, and a step down to `n - 1`, or stays at
/// zero.
pub proof fn law_whole_percentages_step_exactly(
    loss: LossPercent,
    up: LossPercent,
    down: LossPercent,
    n: nat,
)
    requires
        n <= 100,
        !loss.is_nan(),
        loss.units() == n * rounding::one(),
        loss.is_step_up(up),
        loss.is_step_down(down),
    ensures
        up.units() == if n == 100 {
            100 * rounding::one()
        } else {
            (n + 1) * rounding::one()
        },
        down.units() == if n == 0 {
            0
        } else {
            ((n - 1) * rounding::one()) as nat
        },
        !up.is_nan() && !down.is_nan(),
{
    let one = rounding::one();
    lemma_constants();
    lemma2_to64_rest();
    rounding::lemma_nearest_exact(n + 1, 1074);
    assert(n * one + one == (n + 1) * one) by (nonlinear_arith);
    assert((n + 1) * one > 100 * one <==> n + 1 > 100) by (nonlinear_arith)
        requires
            one > 0,
    ;
    if n > 0 {
        rounding::lemma_nearest_exact((n - 1) as nat, 1074);
        assert(n * one - one == (n - 1) * one) by (nonlinear_arith);
        assert(n * one >= one) by (nonlinear_arith)
            requires
                n > 0,
        ;
    } else {
        assert(n * one == 0) by (nonlinear_arith)
            requires
                n == 0,
        ;
    }
}

/// The nearest double to a whole number of units is off by one part in `2^53`
/// at most.
proof fn lemma_nearest_is_close(x: nat)
    ensures
        x * 0x1f_ffff_ffff_ffff <= rounding::nearest(x, 1) * 0x20_0000_0000_0000 <= x
            * 0x20_0000_0000_0001,
{
    lemma2_to64();
    lemma2_to64_rest();
    assert(x / 1 == x);
    if x < pow2(53) {
        rounding::lemma_nearest_exact(x, 0);
        assert(x * pow2(0) == x) by (nonlinear_arith)
            requires
                pow2(0) == 1,
        ;
    } else {
        rounding::lemma_nearest_error(x, 1);
        assert(1 * rounding::nearest(x, 1) == rounding::nearest(x, 1));
    }
}

/// A step up adds one percent, up to one hundred.
pub proof fn lemma_step_up_is_one_percent(loss: LossPercent, up: LossPercent)
    requires
        loss.is_step_up(up),
    ensures
        loss.is_nan() ==> up == loss,
        !loss.is_nan() ==> ({
            let one = rounding::one();
            let more = loss.units() + one;
            &&& !up.is_nan() && !up.double().negative()
            &&& more >= 100 * one ==> up.units() == 100 * one
            &&& more < 100 * one ==> up.units() <= 100 * one && more * 0x1f_ffff_ffff_ffff
                <= up.units() * 0x20_0000_0000_0000 <= more * 0x20_0000_0000_0001
        }),
{
    if !loss.is_nan() {
        let one = rounding::one();
        let more = loss.units() + one;
        lemma_constants();
        lemma_nearest_is_close(more);
        if more >= 100 * one {
            rounding::lemma_nearest_monotone(100 * one, more, 1);
        } else {
            rounding::lemma_nearest_monotone(more, 100 * one, 1);
        }
    }
}

/// A step down takes one percent, down to zero.
pub proof fn lemma_step_down_is_one_percent(loss: LossPercent, down: LossPercent)
    requires
        loss.is_step_down(down),
    ensures
        loss.is_nan() ==> down == loss,
        !loss.is_nan() ==> ({
            let one = rounding::one();
            let less = (loss.units() - one) as nat;
            &&& !down.is_nan() && !down.double().negative()
            &&& loss.units() <= one ==> down.units() == 0
            &&& loss.units() > one ==> less * 0x1f_ffff_ffff_ffff <= down.units()
                * 0x20_0000_0000_0000 <= less * 0x20_0000_0000_0001
        }),
{
    if !loss.is_nan() {
        let one = rounding::one();
        if loss.units() > one {
            lemma_nearest_is_close((loss.units() - one) as nat);
        } else {
            rounding::lemma_nearest_zero(1);
        }
    }
}

/// A step up adds one percent, up to one hundred, and a step down takes one,
/// down to zero, but for one part in `2^53`. A NaN stays.
pub proof fn law_steps_are_one_percent(loss: LossPercent, up: LossPercent, down: LossPercent)
    requires
        call_ensures(LossPercent::step_up, (loss,), up),
        call_ensures(LossPercent::step_down, (loss,), down),
    ensures
        loss.is_nan() ==> up == loss && down == loss,
        !loss.is_nan() ==> ({
            let one = rounding::one();
            let more = loss.units() + one;
            let less = (loss.units() - one) as nat;
            &&& !up.is_nan() && !up.double().negative()
            &&& !down.is_nan() && !down.double().negative()
            &&& more >= 100 * one ==> up.units() == 100 * one
            &&& more < 100 * one ==> up.units() <= 100 * one && more * 0x1f_ffff_ffff_ffff
                <= up.units() * 0x20_0000_0000_0000 <= more * 0x20_0000_0000_0001
            &&& loss.units() <= one ==> down.units() == 0
            &&& loss.units() > one ==> less * 0x1f_ffff_ffff_ffff <= down.units()
                * 0x20_0000_0000_0000 <= less * 0x20_0000_0000_0001
        }),
{
    lemma_step_up_is_one_percent(loss, up);
    lemma_step_down_is_one_percent(loss, down);
}

/// A hundredth is a hundredth, but for rounding: a hundred times it is the
/// whole, off by one part in `2^53` or by fifty units at most.
pub proof fn law_the_probability_is_a_hundredth(loss: LossPercent, p: Double)
    requires
        call_ensures(LossPercent::probability, (loss,), p),
    ensures
        loss.is_nan() ==> p == loss.double(),
        !loss.is_nan() ==> ({
            &&& !p.is_nan() && !p.negative()
            &&& p.units() <= rounding::one()
            &&& loss.units() == 0 ==> p.units() == 0
            &&& loss.units() == 100 * rounding::one() ==> p.units() == rounding::one()
            &&& 100 * p.units() <= loss.units() + 50 || (100 * p.units()) * 0x20_0000_0000_0000
                <= loss.units() * 0x20_0000_0000_0001
            &&& loss.units() <= 100 * p.units() + 50 || loss.units() * 0x1f_ffff_ffff_ffff <= (100
                * p.units()) * 0x20_0000_0000_0000
        }),
{
    if !loss.is_nan() {
        let x = loss.units();
        lemma2_to64();
        lemma2_to64_rest();
        law_probability_ends(x);
        let j = rounding::excess_bits(x / 100);
        if x / 100 >= pow2(52) {
            rounding::lemma_nearest_error(x, 100);
        } else {
            assert(j == 0) by {
                assert(x / 100 < pow2(53));
            }
            rounding::lemma_round_half_even_error(x, 100);
            let q = rounding::round_half_even(x, 100);
            assert(pow2(j) == 1);
            assert(100 * pow2(j) == 100);
            assert(rounding::nearest(x, 100) == q * pow2(j));
            assert(q * pow2(j) == q) by (nonlinear_arith)
                requires
                    pow2(j) == 1,
            ;
            assert(p.units() == q);
            assert(2 * (100 * q) <= 2 * x + 100);
        }
    }
}

/// A percentage is brought into range, and is told to be zero or above zero by
/// its value; a NaN is neither.
pub proof fn law_percentages_are_in_range(
    raw: Double,
    loss: LossPercent,
    got: Double,
    positive: bool,
    zero: bool,
)
    requires
        call_ensures(LossPercent::clamped, (raw,), loss),
        call_ensures(LossPercent::get, (loss,), got),
        call_ensures(LossPercent::is_positive, (loss,), positive),
        call_ensures(LossPercent::is_zero, (loss,), zero),
    ensures
        got == loss.double(),
        raw.is_nan() ==> got == raw && !positive && !zero,
        !raw.is_nan() ==> ({
            let hundred = 100 * rounding::one();
            &&& !got.is_nan()
            &&& raw.value() < 0 ==> got.value() == 0
            &&& 0 <= raw.value() <= hundred ==> got == raw
            &&& raw.value() > hundred ==> got.value() == hundred
            &&& positive <==> raw.value() > 0
            &&& zero <==> raw.value() <= 0
        }),
{
    lemma_constants();
}

/// One percent is one percent.
pub proof fn law_one_percent_is_one(loss: LossPercent)
    requires
        call_ensures(LossPercent::one_percent, (), loss),
    ensures
        loss.units() == rounding::one(),
        !loss.is_nan(),
        loss.positive(),
{
    lemma_constants();
}

/// A percentage is written with one digit behind the point, the nearest there
/// is; of two that are equally near the even one. A sign bit is written, too.
pub proof fn law_percentages_are_written(loss: LossPercent, written: &mut String) -> (tenths: nat)
    requires
        call_ensures(LossPercent::push_text, (loss, written), ()),
    ensures
        loss.is_nan() ==> final(written)@ == old(written)@ + "NaN"@,
        !loss.is_nan() ==> ({
            let one = rounding::one();
            let exact = 10 * loss.units();
            let number = text::decimal(tenths / 10).push('.').push((48 + tenths % 10) as char);
            &&& final(written)@ == old(written)@ + if loss.double().negative() {
                seq!['-'] + number
            } else {
                number
            }
            &&& 2 * (tenths * one) <= 2 * exact + one
            &&& 2 * exact <= 2 * (tenths * one) + one
            &&& 2 * (tenths * one) == 2 * exact + one || 2 * exact == 2 * (tenths * one) + one
                ==> tenths % 2 == 0
        }),
{
    let one = rounding::one();
    lemma_constants();
    let tenths = rounding::round_half_even(loss.units() * 10, one);
    rounding::lemma_half_even(loss.units() * 10, one);
    reveal_strlit(".");
    reveal_strlit("-");
    let number = text::decimal(tenths / 10).push('.').push((48 + tenths % 10) as char);
    assert(text::one_decimal(tenths) =~= number);
    assert("-"@ + number =~= seq!['-'] + number);
    if !loss.is_nan() {
        assert(final(written)@ == old(written)@ + loss.text());
    }
    tenths
}

} // verus!
