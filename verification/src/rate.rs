//! The presets of the rate limit, and rates as text.
use crate::double::Double;
use crate::rounding;
use crate::text;
use vstd::arithmetic::power2::{
    lemma2_to64, lemma2_to64_rest, lemma_pow2_adds, lemma_pow2_pos, lemma_pow2_strictly_increases,
    pow2,
};
use vstd::prelude::*;
use vstd::string::*;

verus! {

/// The rates that an adjustment steps through, in bytes per second.
pub const RATE_PRESETS: [u64; 17] = [
    10_000,
    25_000,
    50_000,
    100_000,
    250_000,
    300_000,
    350_000,
    400_000,
    450_000,
    500_000,
    1_000_000,
    2_000_000,
    5_000_000,
    10_000_000,
    20_000_000,
    50_000_000,
    100_000_000,
];

/// One of the presets.
pub open spec fn is_preset(rate: u64) -> bool {
    RATE_PRESETS@.contains(rate)
}

/// `next` is the smallest preset above `current`, the greatest preset where
/// there is none.
pub open spec fn is_next_rate(current: u64, next: u64) -> bool {
    &&& is_preset(next)
    &&& if exists|rate: u64| #[trigger] is_preset(rate) && rate > current {
        &&& next > current
        &&& forall|rate: u64| #[trigger] is_preset(rate) && rate > current ==> next <= rate
    } else {
        forall|rate: u64| #[trigger] is_preset(rate) ==> rate <= next
    }
}

/// `prev` is the greatest preset below `current`, zero where there is none.
pub open spec fn is_prev_rate(current: u64, prev: u64) -> bool {
    &&& prev == 0 || (is_preset(prev) && prev < current)
    &&& forall|rate: u64| #[trigger] is_preset(rate) && rate < current ==> rate <= prev
}

/// The presets ascend.
pub proof fn lemma_presets_ascend()
    ensures
        forall|i: int, j: int|
            0 <= i < j < RATE_PRESETS@.len() ==> #[trigger] RATE_PRESETS@[i]
                < #[trigger] RATE_PRESETS@[j],
        RATE_PRESETS@.len() == 17,
        RATE_PRESETS@[0] == 10_000,
        RATE_PRESETS@[16] == 100_000_000,
{
}

/// The preset that follows a rate.
pub fn next_rate(current: u64) -> (next: u64)
    ensures
        is_next_rate(current, next),
{
    proof {
        lemma_presets_ascend();
    }
    let mut i: usize = 0;
    while i < 17
        invariant
            i <= 17,
            RATE_PRESETS@.len() == 17,
            forall|j: int| 0 <= j < i ==> #[trigger] RATE_PRESETS@[j] <= current,
            forall|j: int, k: int|
                0 <= j < k < RATE_PRESETS@.len() ==> #[trigger] RATE_PRESETS@[j]
                    < #[trigger] RATE_PRESETS@[k],
        decreases 17 - i,
    {
        if RATE_PRESETS[i] > current {
            return RATE_PRESETS[i];
        }
        i = i + 1;
    }
    RATE_PRESETS[16]
}

/// The preset before a rate.
pub fn prev_rate(current: u64) -> (prev: u64)
    ensures
        is_prev_rate(current, prev),
{
    proof {
        lemma_presets_ascend();
    }
    let mut i: usize = 17;
    while i > 0
        invariant
            i <= 17,
            RATE_PRESETS@.len() == 17,
            forall|j: int| i <= j < 17 ==> #[trigger] RATE_PRESETS@[j] >= current,
            forall|j: int, k: int|
                0 <= j < k < RATE_PRESETS@.len() ==> #[trigger] RATE_PRESETS@[j]
                    < #[trigger] RATE_PRESETS@[k],
        decreases i,
    {
        i = i - 1;
        if RATE_PRESETS[i] < current {
            return RATE_PRESETS[i];
        }
    }
    0
}

/// A step up has one result, and so has a step down.
pub proof fn law_rate_steps_are_unique(current: u64, a: u64, b: u64)
    ensures
        is_next_rate(current, a) && is_next_rate(current, b) ==> a == b,
        is_prev_rate(current, a) && is_prev_rate(current, b) ==> a == b,
{
    lemma_presets_ascend();
    assert(is_preset(RATE_PRESETS@[0]));
}

/// A step up from a preset that is not the greatest, and a step down, lead
/// back to it.
pub proof fn law_step_down_undoes_step_up(rate: u64, up: u64, back: u64)
    requires
        is_preset(rate),
        rate != 100_000_000,
        is_next_rate(rate, up),
        is_prev_rate(up, back),
    ensures
        up > rate,
        back == rate,
{
    lemma_presets_ascend();
    assert(is_preset(RATE_PRESETS@[16]));
    let i = choose|i: int| 0 <= i < 17 && RATE_PRESETS@[i] == rate;
    assert(rate < 100_000_000);
}

/// A step down from a preset and a step up lead back to it.
pub proof fn law_step_up_undoes_step_down(rate: u64, down: u64, back: u64)
    requires
        is_preset(rate),
        is_prev_rate(rate, down),
        is_next_rate(down, back),
    ensures
        down < rate,
        back == rate,
{
    lemma_presets_ascend();
    assert(rate >= 10_000);
}

/// A rate in a greater unit: the double nearest to `bytes_per_sec`, divided
/// by `divisor`.
pub open spec fn quotient(bytes_per_sec: u64, divisor: nat) -> nat {
    rounding::nearest(rounding::nearest(bytes_per_sec as nat * rounding::one(), 1), divisor)
}

/// The number that is written of a rate in a greater unit: the quotient,
/// multiplied by `factor`, and rounded to an integer.
pub open spec fn written_number(bytes_per_sec: u64, divisor: nat, factor: nat) -> nat {
    rounding::round_half_even(quotient(bytes_per_sec, divisor) * factor, rounding::one())
}

/// A rate as text, in the greatest unit that leaves a whole part.
pub open spec fn rate_text(bytes_per_sec: u64) -> Seq<char> {
    if bytes_per_sec >= 1_000_000_000 {
        text::one_decimal(written_number(bytes_per_sec, 1_000_000_000, 10)) + "GB/s"@
    } else if bytes_per_sec >= 1_000_000 {
        text::one_decimal(written_number(bytes_per_sec, 1_000_000, 10)) + "MB/s"@
    } else if bytes_per_sec >= 1_000 {
        text::decimal(written_number(bytes_per_sec, 1_000, 1)) + "KB/s"@
    } else {
        text::decimal(bytes_per_sec as nat) + "B/s"@
    }
}

/// A rate is written to within half of its last digit, but for one part in
/// `2^14` of that digit; one that needs no more digits is written exactly.
pub proof fn law_rates_are_written_to_the_last_digit(
    bytes_per_sec: u64,
    divisor: nat,
    factor: nat,
)
    requires
        (divisor == 1_000_000_000 && factor == 10) || (divisor == 1_000_000 && factor == 10
            && bytes_per_sec < 1_000_000_000) || (divisor == 1_000 && factor == 1 && bytes_per_sec
            < 1_000_000),
    ensures
        ({
            let shown = written_number(bytes_per_sec, divisor, factor) * divisor;
            let exact = bytes_per_sec as nat * factor;
            let off = if shown < exact {
                exact - shown
            } else {
                shown - exact
            };
            &&& off * 16384 <= divisor * 8193
            &&& exact % divisor == 0 ==> shown == exact
        }),
{
    let one = rounding::one();
    let n = bytes_per_sec as nat;
    let a = rounding::nearest(n * one, 1);
    let q = rounding::nearest(a, divisor);
    let s = rounding::round_half_even(q * factor, one);
    let p = pow2(53);
    lemma2_to64();
    lemma2_to64_rest();
    lemma_pow2_pos(1074);
    rounding::lemma_round_half_even_error(q * factor, one);
    if n == 0 {
        assert(n * one == 0) by (nonlinear_arith)
            requires
                n == 0,
        ;
        rounding::lemma_nearest_zero(1);
        rounding::lemma_nearest_zero(divisor);
    } else {
        lemma_pow2_strictly_increases(52, 1074);
        lemma_pow2_strictly_increases(52, 1044);
        lemma_pow2_adds(30, 1044);
        assert(n * one >= 1 * pow2(1074)) by (nonlinear_arith)
            requires
                n > 0,
                one == pow2(1074),
        ;
        rounding::lemma_nearest_lower(n * one, 1, 1074);
        rounding::lemma_nearest_error(n * one, 1);
        assert(a / divisor >= pow2(52)) by (nonlinear_arith)
            requires
                a >= 0x4000_0000 * pow2(1044),
                pow2(1044) > pow2(52),
                0 < divisor <= 1_000_000_000,
        ;
        rounding::lemma_nearest_error(a, divisor);
    }
    // Both roundings of the quotient.
    assert((divisor * q) * (p * p) <= (n * one) * ((p + 1) * (p + 1))) by (nonlinear_arith)
        requires
            a * p <= (n * one) * (p + 1),
            (divisor * q) * p <= a * (p + 1),
            p > 0,
    ;
    assert((n * one) * ((p - 1) * (p - 1)) <= (divisor * q) * (p * p)) by (nonlinear_arith)
        requires
            (n * one) * (p - 1) <= a * p,
            a * (p - 1) <= (divisor * q) * p,
            p > 1,
    ;
    // And the one to an integer.
    let exact = n * factor;
    let shown = s * divisor;
    lemma_shown(one as int, q as int, n as int, s as int, divisor as int, factor as int, p as int);
    assert((exact * 0x40_0000_0000_0001) * 16384 <= divisor * (p * p)) by (nonlinear_arith)
        requires
            p == 0x20_0000_0000_0000,
            exact <= divisor * 184_467_440_738,
            divisor > 0,
    ;
    assert((shown - exact) * 16384 <= divisor * 8193 && (exact - shown) * 16384 <= divisor * 8193)
        by (nonlinear_arith)
        requires
            (2 * (shown - exact)) * (p * p) <= (2 * exact) * (2 * p + 1) + divisor * (p * p),
            (2 * (exact - shown)) * (p * p) <= (2 * exact) * (2 * p + 1) + divisor * (p * p),
            (exact * 0x40_0000_0000_0001) * 16384 <= divisor * (p * p),
            p == 0x20_0000_0000_0000,
    ;
    if exact % divisor == 0 {
        let v = exact / divisor;
        vstd::arithmetic::div_mod::lemma_fundamental_div_mod(exact as int, divisor as int);
        assert(s == v) by (nonlinear_arith)
            requires
                (s * divisor - v * divisor) * 16384 <= divisor * 8193,
                (v * divisor - s * divisor) * 16384 <= divisor * 8193,
                divisor > 0,
        ;
    }
}

/// How far the written number is off, from how far its parts are.
proof fn lemma_shown(one: int, q: int, n: int, s: int, divisor: int, factor: int, p: int)
    requires
        one > 0,
        p > 1,
        n >= 0,
        divisor > 0,
        1 <= factor <= 10,
        (divisor * q) * (p * p) <= (n * one) * ((p + 1) * (p + 1)),
        (n * one) * ((p - 1) * (p - 1)) <= (divisor * q) * (p * p),
        2 * (one * s) <= 2 * (q * factor) + one,
        2 * (q * factor) <= 2 * (one * s) + one,
    ensures
        (2 * (s * divisor - n * factor)) * (p * p) <= (2 * (n * factor)) * (2 * p + 1) + divisor * (
        p * p),
        (2 * (n * factor - s * divisor)) * (p * p) <= (2 * (n * factor)) * (2 * p + 1) + divisor * (
        p * p),
{
    let w = divisor * (p * p);
    assert(w > 0) by (nonlinear_arith)
        requires
            w == divisor * (p * p),
            divisor > 0,
            p > 1,
    ;
    let high = n * ((p + 1) * (p + 1));
    let low = n * ((p - 1) * (p - 1));
    assert((q * factor) * w <= (factor * high) * one) by (nonlinear_arith)
        requires
            (divisor * q) * (p * p) <= (n * one) * ((p + 1) * (p + 1)),
            w == divisor * (p * p),
            high == n * ((p + 1) * (p + 1)),
            factor > 0,
    ;
    assert((factor * low) * one <= (q * factor) * w) by (nonlinear_arith)
        requires
            (n * one) * ((p - 1) * (p - 1)) <= (divisor * q) * (p * p),
            w == divisor * (p * p),
            low == n * ((p - 1) * (p - 1)),
            factor > 0,
    ;
    assert(one * (2 * (s * w)) <= one * (2 * (factor * high) + w)) by (nonlinear_arith)
        requires
            2 * (one * s) <= 2 * (q * factor) + one,
            (q * factor) * w <= (factor * high) * one,
            w > 0,
    ;
    assert(one * (2 * (factor * low)) <= one * (2 * (s * w) + w)) by (nonlinear_arith)
        requires
            2 * (q * factor) <= 2 * (one * s) + one,
            (factor * low) * one <= (q * factor) * w,
            w > 0,
    ;
    assert(2 * (s * w) <= 2 * (factor * high) + w) by (nonlinear_arith)
        requires
            one * (2 * (s * w)) <= one * (2 * (factor * high) + w),
            one > 0,
    ;
    assert(2 * (factor * low) <= 2 * (s * w) + w) by (nonlinear_arith)
        requires
            one * (2 * (factor * low)) <= one * (2 * (s * w) + w),
            one > 0,
    ;
    let e = n * factor;
    assert(factor * high == e * (p * p) + e * (2 * p + 1)) by (nonlinear_arith)
        requires
            high == n * ((p + 1) * (p + 1)),
            e == n * factor,
    ;
    assert(factor * low == e * (p * p) - e * (2 * p - 1)) by (nonlinear_arith)
        requires
            low == n * ((p - 1) * (p - 1)),
            e == n * factor,
    ;
    assert(e * (2 * p - 1) <= e * (2 * p + 1)) by (nonlinear_arith)
        requires
            e == n * factor,
            n >= 0,
            factor > 0,
    ;
    assert((2 * (s * divisor - e)) * (p * p) == 2 * (s * w) - 2 * (e * (p * p))) by (nonlinear_arith)
        requires
            w == divisor * (p * p),
    ;
    assert((2 * (e - s * divisor)) * (p * p) == 2 * (e * (p * p)) - 2 * (s * w)) by (nonlinear_arith)
        requires
            w == divisor * (p * p),
    ;
    assert((2 * e) * (2 * p + 1) == 2 * (e * (2 * p + 1))) by (nonlinear_arith);
}

/// Divides a rate, multiplies it by `factor`, and rounds it to an integer.
fn rounded_quotient(bytes_per_sec: u64, divisor: u64, factor: u64) -> (n: u64)
    requires
        divisor >= 1_000,
        divisor >= 1_000_000 || bytes_per_sec < 1_000_000,
        factor <= 10,
    ensures
        n == written_number(bytes_per_sec, divisor as nat, factor as nat),
{
    let rate = Double::from_u64(bytes_per_sec);
    proof {
        lemma2_to64();
        lemma2_to64_rest();
        lemma_pow2_pos(1074);
        let bits: nat = if bytes_per_sec < 1_000_000 {
            20
        } else {
            64
        };
        let less: nat = if bytes_per_sec < 1_000_000 {
            9
        } else {
            19
        };
        lemma_pow2_adds(bits, 1074);
        assert(bytes_per_sec as nat * rounding::one() < 1 * pow2(bits + 1074)) by (nonlinear_arith)
            requires
                bytes_per_sec < pow2(bits),
                pow2(bits + 1074) == pow2(bits) * rounding::one(),
                rounding::one() > 0,
        ;
        rounding::lemma_nearest_upper(bytes_per_sec as nat * rounding::one(), 1, bits + 1074);
        lemma_pow2_strictly_increases(bits + 1074, 1800);
        let bound = (bits + 1074 - less) as nat;
        lemma_pow2_adds(less, bound);
        lemma_pow2_pos(bound);
        assert(rate.units() < divisor as nat * pow2(bound)) by (nonlinear_arith)
            requires
                rate.units() <= pow2(less) * pow2(bound),
                pow2(less) < divisor,
                pow2(bound) > 0,
        ;
        rounding::lemma_nearest_upper(rate.units(), divisor as nat, bound);
        lemma_pow2_adds(53, 1074);
        lemma_pow2_strictly_increases(bound, 1127);
    }
    rate.divided_by(divisor).rounded(factor)
}

/// Writes a rate.
pub fn format_rate(bytes_per_sec: u64) -> (written: String)
    ensures
        written@ == rate_text(bytes_per_sec),
{
    let mut written = String::new();
    if bytes_per_sec >= 1_000_000_000 {
        text::push_one_decimal(&mut written, rounded_quotient(bytes_per_sec, 1_000_000_000, 10));
        written.append("GB/s");
    } else if bytes_per_sec >= 1_000_000 {
        text::push_one_decimal(&mut written, rounded_quotient(bytes_per_sec, 1_000_000, 10));
        written.append("MB/s");
    } else if bytes_per_sec >= 1_000 {
        text::push_decimal(&mut written, rounded_quotient(bytes_per_sec, 1_000, 1) as u128);
        written.append("KB/s");
    } else {
        text::push_decimal(&mut written, bytes_per_sec as u128);
        written.append("B/s");
    }
    assert(written@ =~= rate_text(bytes_per_sec));
    written
}

/// The presets, in bytes per second.
pub proof fn law_presets_are_these(rate: u64)
    ensures
        is_preset(rate) <==> rate == 10_000 || rate == 25_000 || rate == 50_000 || rate == 100_000
            || rate == 250_000 || rate == 300_000 || rate == 350_000 || rate == 400_000 || rate
            == 450_000 || rate == 500_000 || rate == 1_000_000 || rate == 2_000_000 || rate
            == 5_000_000 || rate == 10_000_000 || rate == 20_000_000 || rate == 50_000_000 || rate
            == 100_000_000,
{
    let p = RATE_PRESETS@;
    assert(p.len() == 17);
    assert(p[0] == 10_000 && p[1] == 25_000 && p[2] == 50_000 && p[3] == 100_000);
    assert(p[4] == 250_000 && p[5] == 300_000 && p[6] == 350_000 && p[7] == 400_000);
    assert(p[8] == 450_000 && p[9] == 500_000 && p[10] == 1_000_000 && p[11] == 2_000_000);
    assert(p[12] == 5_000_000 && p[13] == 10_000_000 && p[14] == 20_000_000);
    assert(p[15] == 50_000_000 && p[16] == 100_000_000);
}

/// A step up leads to a preset above, and passes none over; from the greatest
/// preset, or beyond, it leads there.
pub proof fn lemma_steps_up_pass_no_preset(current: u64, next: u64, other: u64)
    requires
        is_next_rate(current, next),
    ensures
        is_preset(next),
        current < 100_000_000 ==> next > current,
        current < 100_000_000 && is_preset(other) && other > current ==> next <= other,
        current >= 100_000_000 ==> next == 100_000_000,
{
    law_presets_are_these(next);
    law_presets_are_these(100_000_000);
    law_presets_are_these(other);
    if current >= 100_000_000 {
        assert forall|rate: u64| #[trigger] is_preset(rate) implies rate <= current by {
            law_presets_are_these(rate);
        }
        assert(is_preset(100_000_000));
    }
}

/// A step down leads to a preset below, and passes none over; where there is
/// none it leads to zero.
pub proof fn lemma_steps_down_pass_no_preset(current: u64, prev: u64, other: u64)
    requires
        is_prev_rate(current, prev),
    ensures
        current > 10_000 ==> is_preset(prev) && prev < current,
        current <= 10_000 ==> prev == 0,
        is_preset(other) && other < current ==> other <= prev,
{
    law_presets_are_these(prev);
    law_presets_are_these(10_000);
    law_presets_are_these(other);
}

/// A step up leads to the next preset and not further.
pub proof fn law_a_step_up_is_one_preset(current: u64, next: u64, other: u64)
    requires
        call_ensures(next_rate, (current,), next),
    ensures
        is_preset(next),
        current < 100_000_000 ==> next > current,
        current < 100_000_000 && is_preset(other) && other > current ==> next <= other,
        current >= 100_000_000 ==> next == 100_000_000,
{
    lemma_steps_up_pass_no_preset(current, next, other);
}

/// A step down leads to the preset before and not further.
pub proof fn law_a_step_down_is_one_preset(current: u64, prev: u64, other: u64)
    requires
        call_ensures(prev_rate, (current,), prev),
    ensures
        current > 10_000 ==> is_preset(prev) && prev < current,
        current <= 10_000 ==> prev == 0,
        is_preset(other) && other < current ==> other <= prev,
{
    lemma_steps_down_pass_no_preset(current, prev, other);
}

/// Half a kilobyte is a double, so that a tie is rounded to the even kilobyte.
proof fn lemma_kilobyte_ties(bytes_per_sec: u64)
    requires
        bytes_per_sec < 1_000_000,
        bytes_per_sec % 1_000 == 500,
    ensures
        written_number(bytes_per_sec, 1_000, 1) % 2 == 0,
{
    let one = rounding::one();
    let n = bytes_per_sec as nat;
    let k = n / 500;
    lemma2_to64();
    lemma2_to64_rest();
    lemma_pow2_pos(1074);
    lemma_pow2_pos(1073);
    lemma_pow2_adds(1, 1073);
    rounding::lemma_nearest_exact(n, 1074);
    rounding::lemma_nearest_exact(k, 1073);
    let half = pow2(1073);
    assert(n * one == (k * half) * 1_000) by (nonlinear_arith)
        requires
            n == k * 500,
            one == 2 * half,
    ;
    rounding::lemma_nearest_scale(k * half, 1, 1_000);
    let q = k * half;
    assert(quotient(bytes_per_sec, 1_000) == q);
    assert(q * 1 == q);
    rounding::lemma_half_even(q, one);
    let r = rounding::round_half_even(q, one);
    // `2 * q` is an odd multiple of `one`, so the rounded number is off by half.
    assert(2 * q == k * one) by (nonlinear_arith)
        requires
            q == k * half,
            one == 2 * half,
    ;
    assert(k % 2 == 1);
    let m = k / 2;
    assert(k == 2 * m + 1);
    assert(r == m || r == m + 1) by (nonlinear_arith)
        requires
            2 * (r * one) <= 2 * q + one,
            2 * q <= 2 * (r * one) + one,
            2 * q == k * one,
            k == 2 * m + 1,
            one > 0,
    ;
    assert(2 * (r * one) == 2 * q + one || 2 * q == 2 * (r * one) + one) by (nonlinear_arith)
        requires
            r == m || r == m + 1,
            2 * q == k * one,
            k == 2 * m + 1,
    ;
}

/// A rate is written in bytes below a thousand, in whole kilobytes below a
/// million, and in tenths of megabytes or gigabytes above. The number is the
/// nearest one, but for one part in `2^14` of its last digit; of two that are
/// equally near the even number of kilobytes is written.
pub proof fn law_rates_are_written_in_their_unit(bytes_per_sec: u64, written: String) -> (shown: nat)
    requires
        call_ensures(format_rate, (bytes_per_sec,), written),
    ensures
        ({
            let tenths = text::decimal(shown / 10).push('.').push((48 + shown % 10) as char);
            let n = bytes_per_sec as int;
            &&& n < 1_000 ==> shown == n && written@ == text::decimal(shown) + "B/s"@
            &&& 1_000 <= n < 1_000_000 ==> {
                &&& written@ == text::decimal(shown) + "KB/s"@
                &&& -500 <= shown * 1_000 - n <= 500
                &&& n % 1_000 == 500 ==> shown % 2 == 0
            }
            &&& 1_000_000 <= n < 1_000_000_000 ==> {
                &&& written@ == tenths + "MB/s"@
                &&& -8193 * 1_000_000 <= (shown * 1_000_000 - n * 10) * 16384 <= 8193 * 1_000_000
            }
            &&& 1_000_000_000 <= n ==> {
                &&& written@ == tenths + "GB/s"@
                &&& -8193 * 1_000_000_000 <= (shown * 1_000_000_000 - n * 10) * 16384 <= 8193
                    * 1_000_000_000
            }
        }),
{
    let n = bytes_per_sec;
    assert(written@ == rate_text(n));
    reveal_strlit(".");
    if n < 1_000 {
        n as nat
    } else if n < 1_000_000 {
        law_rates_are_written_to_the_last_digit(n, 1_000, 1);
        if n % 1_000 == 500 {
            lemma_kilobyte_ties(n);
        }
        written_number(n, 1_000, 1)
    } else if n < 1_000_000_000 {
        law_rates_are_written_to_the_last_digit(n, 1_000_000, 10);
        let shown = written_number(n, 1_000_000, 10);
        assert(text::one_decimal(shown) =~= text::decimal(shown / 10).push('.').push(
            (48 + shown % 10) as char,
        ));
        shown
    } else {
        law_rates_are_written_to_the_last_digit(n, 1_000_000_000, 10);
        let shown = written_number(n, 1_000_000_000, 10);
        assert(text::one_decimal(shown) =~= text::decimal(shown / 10).push('.').push(
            (48 + shown % 10) as char,
        ));
        shown
    }
}

} // verus!
