//! The rate limit: a bucket of tokens, one for each byte.
use crate::double::Double;
use crate::rounding;
use vstd::arithmetic::power2::{
    lemma2_to64, lemma2_to64_rest, lemma_pow2_adds, lemma_pow2_pos, lemma_pow2_strictly_increases,
    pow2,
};
use vstd::prelude::*;

verus! {

/// Nanoseconds in a second.
pub const NANOS_PER_SEC: u64 = 1_000_000_000;

/// The longest time that is measured, in nanoseconds: `2^64` seconds, less one
/// nanosecond.
pub const MAX_NANOS: u128 = 18_446_744_073_709_551_615_999_999_999;

/// A time in seconds, as a double: the whole seconds and the rest are
/// converted on their own, and added.
pub open spec fn seconds(nanos: nat) -> nat {
    let whole = rounding::nearest((nanos / NANOS_PER_SEC as nat) * rounding::one(), 1);
    let rest = rounding::nearest((nanos % NANOS_PER_SEC as nat) * rounding::one(), 1);
    rounding::nearest(whole + rounding::nearest(rest, NANOS_PER_SEC as nat), 1)
}

/// The tokens that a time earns: seconds times rate, in doubles, without the
/// fraction, and no more than 64 bits hold.
pub open spec fn earned(nanos: nat, rate: u64) -> nat {
    let whole = rounding::nearest(
        seconds(nanos) * rounding::nearest(rate as nat * rounding::one(), 1),
        rounding::one(),
    ) / rounding::one();
    if whole > u64::MAX {
        u64::MAX as nat
    } else {
        whole
    }
}

/// Bounds for an integer that was converted.
proof fn lemma_converted(n: u64)
    ensures
        rounding::nearest(n as nat * rounding::one(), 1) <= pow2(1138),
        n > 0 ==> rounding::nearest(n as nat * rounding::one(), 1) >= pow2(1074),
        n == 0 ==> rounding::nearest(n as nat * rounding::one(), 1) == 0,
{
    let units = n as nat * rounding::one();
    lemma2_to64();
    lemma_pow2_pos(1074);
    lemma_pow2_adds(64, 1074);
    assert(units < 1 * pow2(1138)) by (nonlinear_arith)
        requires
            units == n as nat * rounding::one(),
            n < pow2(64),
            pow2(1138) == pow2(64) * rounding::one(),
            rounding::one() > 0,
    ;
    rounding::lemma_nearest_upper(units, 1, 1138);
    if n > 0 {
        assert(units >= 1 * pow2(1074)) by (nonlinear_arith)
            requires
                units == n as nat * rounding::one(),
                rounding::one() == pow2(1074),
                n > 0,
        ;
        rounding::lemma_nearest_lower(units, 1, 1074);
    } else {
        assert(units == 0) by (nonlinear_arith)
            requires
                units == n as nat * rounding::one(),
                n == 0,
        ;
        rounding::lemma_nearest_zero(1);
    }
}

/// Bounds for a part of a second.
proof fn lemma_fraction(nanos: u64)
    requires
        nanos < NANOS_PER_SEC,
    ensures
        ({
            let part = rounding::nearest(
                rounding::nearest(nanos as nat * rounding::one(), 1),
                NANOS_PER_SEC as nat,
            );
            &&& part <= pow2(1138)
            &&& nanos > 0 ==> part >= pow2(1044)
            &&& nanos == 0 ==> part == 0
        }),
{
    let units = rounding::nearest(nanos as nat * rounding::one(), 1);
    lemma_converted(nanos);
    lemma2_to64();
    lemma_pow2_pos(1138);
    lemma_pow2_pos(1044);
    assert(units < NANOS_PER_SEC as nat * pow2(1138)) by (nonlinear_arith)
        requires
            units <= pow2(1138),
            pow2(1138) > 0,
            NANOS_PER_SEC == 1_000_000_000,
    ;
    rounding::lemma_nearest_upper(units, NANOS_PER_SEC as nat, 1138);
    if nanos > 0 {
        lemma_pow2_adds(30, 1044);
        assert(units >= NANOS_PER_SEC as nat * pow2(1044)) by (nonlinear_arith)
            requires
                units >= 0x4000_0000 * pow2(1044),
                pow2(1044) > 0,
                NANOS_PER_SEC == 1_000_000_000,
        ;
        rounding::lemma_nearest_lower(units, NANOS_PER_SEC as nat, 1044);
    } else {
        rounding::lemma_nearest_zero(NANOS_PER_SEC as nat);
    }
}

/// Computes [`earned`].
pub fn tokens_for(nanos: u128, rate: u64) -> (tokens: u64)
    requires
        nanos <= MAX_NANOS,
    ensures
        tokens == earned(nanos as nat, rate),
{
    let secs: u64 = (nanos / (NANOS_PER_SEC as u128)) as u64;
    let rest: u64 = (nanos % (NANOS_PER_SEC as u128)) as u64;
    proof {
        lemma_converted(secs);
        lemma_converted(rest);
        lemma_fraction(rest);
        lemma_converted(rate);
        lemma_pow2_adds(1, 1138);
        lemma2_to64();
        lemma_pow2_strictly_increases(1138, 1800);
        lemma_pow2_strictly_increases(1138, 1400);
        lemma_pow2_strictly_increases(1140, 1400);
        lemma_pow2_strictly_increases(1139, 1140);
        lemma_pow2_strictly_increases(700, 1044);
        lemma_pow2_strictly_increases(700, 1074);
        lemma_pow2_strictly_increases(1044, 1074);
    }
    let whole = Double::from_u64(secs);
    let part = Double::from_u64(rest).divided_by(NANOS_PER_SEC);
    let time = whole.plus(part);
    proof {
        let sum = whole.units() + part.units();
        assert(sum <= pow2(1139));
        rounding::lemma_nearest_upper(sum, 1, 1140);
        if secs == 0 && rest == 0 {
            rounding::lemma_nearest_zero(1);
        } else {
            rounding::lemma_nearest_lower(sum, 1, 1044);
        }
    }
    time.times(Double::from_u64(rate)).truncated()
}

/// A bucket of tokens.
#[derive(Clone, Copy, Debug)]
pub struct RateLimiter {
    /// The tokens in the bucket.
    pub tokens: u64,
    /// When the bucket was filled last, in nanoseconds.
    pub last: u128,
    /// The rate that it was filled at, in tokens per second.
    pub last_rate: u64,
}

impl RateLimiter {
    /// The bucket holds a second's worth at most.
    pub open spec fn wf(self) -> bool {
        self.tokens <= self.last_rate
    }

    /// The bucket at the time `now`, before any token is taken. Without a
    /// rate it is empty. A rate that is new fills it. Otherwise it has what
    /// it had, and what was earned since, up to a second's worth; the clock
    /// starts anew once something was earned.
    pub open spec fn refilled(self, now: u128, rate: u64) -> RateLimiter {
        if rate == 0 || rate != self.last_rate {
            RateLimiter { tokens: rate, last: now, last_rate: rate }
        } else {
            let elapsed: nat = if now < self.last {
                0
            } else {
                (now - self.last) as nat
            };
            let added = earned(elapsed, rate);
            if added == 0 {
                self
            } else {
                RateLimiter {
                    tokens: if self.tokens + added > rate {
                        rate
                    } else {
                        (self.tokens + added) as u64
                    },
                    last: now,
                    last_rate: rate,
                }
            }
        }
    }

    /// Whether `bytes` may pass: where no rate is set, or there is a token for
    /// each byte.
    pub open spec fn admits(self, now: u128, bytes: usize, rate: u64) -> bool {
        rate == 0 || bytes <= self.refilled(now, rate).tokens
    }

    /// The bucket after a packet of `bytes`: the tokens of one that passes are gone.
    pub open spec fn after(self, now: u128, bytes: usize, rate: u64) -> RateLimiter {
        let full = self.refilled(now, rate);
        if rate > 0 && self.admits(now, bytes, rate) {
            RateLimiter { tokens: (full.tokens - bytes) as u64, ..full }
        } else {
            full
        }
    }

    /// An empty bucket, without a rate.
    pub fn new(now: u128) -> (limiter: Self)
        ensures
            limiter == (RateLimiter { tokens: 0, last: now, last_rate: 0 }),
            limiter.wf(),
    {
        RateLimiter { tokens: 0, last: now, last_rate: 0 }
    }

    /// Decides whether a packet may pass at the time `now`, and takes its tokens.
    pub fn allow(&mut self, now: u128, bytes: usize, rate_per_sec: u64) -> (allowed: bool)
        requires
            now <= MAX_NANOS,
        ensures
            allowed == old(self).admits(now, bytes, rate_per_sec),
            *final(self) == old(self).after(now, bytes, rate_per_sec),
            old(self).wf() ==> final(self).wf(),
    {
        if rate_per_sec == 0 {
            self.tokens = 0;
            self.last_rate = 0;
            self.last = now;
            return true;
        }
        if self.last_rate != rate_per_sec {
            self.last_rate = rate_per_sec;
            self.tokens = rate_per_sec;
            self.last = now;
        } else {
            let elapsed: u128 = if now < self.last {
                0
            } else {
                now - self.last
            };
            let added: u64 = tokens_for(elapsed, rate_per_sec);
            if added > 0 {
                let sum: u128 = self.tokens as u128 + added as u128;
                self.tokens = if sum > rate_per_sec as u128 {
                    rate_per_sec
                } else {
                    sum as u64
                };
                self.last = now;
            }
        }
        let needed: u64 = bytes as u64;
        if needed <= self.tokens {
            self.tokens = self.tokens - needed;
            true
        } else {
            false
        }
    }
}

/// How far a conversion or an operation is off, at most: the bound of
/// [`rounding::lemma_nearest_error`] from above, which holds of zero as well.
proof fn lemma_upper_error(num: nat, den: nat)
    requires
        den > 0,
        num == 0 || num >= den * pow2(52),
    ensures
        (den * rounding::nearest(num, den)) * pow2(53) <= num * (pow2(53) + 1),
{
    if num == 0 {
        rounding::lemma_nearest_zero(den);
        assert((den * 0) * pow2(53) <= 0 * (pow2(53) + 1)) by (nonlinear_arith);
    } else {
        assert(num / den >= pow2(52)) by (nonlinear_arith)
            requires
                num >= den * pow2(52),
                den > 0,
        ;
        rounding::lemma_nearest_error(num, den);
    }
}

/// A time is no more than its seconds, but for rounding.
proof fn lemma_seconds_bound(nanos: nat)
    requires
        nanos <= MAX_NANOS,
    ensures
        ({
            let f = pow2(53);
            seconds(nanos) * (1_000_000_000 * (f * f * f)) <= (nanos * rounding::one()) * ((f + 1)
                * (f + 1) * (f + 1))
        }),
{
    let one = rounding::one();
    let f = pow2(53);
    let g = f + 1;
    let secs = nanos / NANOS_PER_SEC as nat;
    let rest = nanos % NANOS_PER_SEC as nat;
    lemma_pow2_pos(53);
    lemma_pow2_strictly_increases(52, 1044);
    lemma_pow2_strictly_increases(52, 1074);
    lemma_converted(secs as u64);
    lemma_converted(rest as u64);
    lemma_fraction(rest as u64);
    assert(secs * one == 0 || secs * one >= 1 * pow2(52)) by (nonlinear_arith)
        requires
            one > pow2(52),
            secs >= 0,
    ;
    assert(rest * one == 0 || rest * one >= 1 * pow2(52)) by (nonlinear_arith)
        requires
            one > pow2(52),
            rest >= 0,
    ;
    let a = rounding::nearest(secs * one, 1);
    let b0 = rounding::nearest(rest * one, 1);
    let b = rounding::nearest(b0, NANOS_PER_SEC as nat);
    let s = rounding::nearest(a + b, 1);
    lemma_upper_error(secs * one, 1);
    lemma_upper_error(rest * one, 1);
    assert(b0 == 0 || b0 >= NANOS_PER_SEC as nat * pow2(52)) by {
        if b0 != 0 {
            lemma2_to64();
            lemma_pow2_adds(30, 52);
            lemma_pow2_strictly_increases(82, 1074);
            assert(0x4000_0000 * pow2(52) >= NANOS_PER_SEC as nat * pow2(52)) by (nonlinear_arith)
                requires
                    NANOS_PER_SEC == 1_000_000_000,
                    pow2(52) >= 0,
            ;
        }
    }
    lemma_upper_error(b0, NANOS_PER_SEC as nat);
    assert(a + b == 0 || a + b >= 1 * pow2(52));
    lemma_upper_error(a + b, 1);
    assert(nanos == secs * 1_000_000_000 + rest);
    assert(b * (1_000_000_000 * (f * f)) <= (rest * one) * (g * g)) by (nonlinear_arith)
        requires
            (1_000_000_000 * b) * f <= b0 * g,
            b0 * f <= (rest * one) * g,
            f > 0,
            g > 0,
    ;
    assert(a * (1_000_000_000 * (f * f)) <= ((secs * 1_000_000_000) * one) * (g * g))
        by (nonlinear_arith)
        requires
            a * f <= (secs * one) * g,
            f > 0,
            g >= f,
            secs * one >= 0,
    ;
    assert((a + b) * (1_000_000_000 * (f * f)) <= (nanos * one) * (g * g)) by (nonlinear_arith)
        requires
            a * (1_000_000_000 * (f * f)) <= ((secs * 1_000_000_000) * one) * (g * g),
            b * (1_000_000_000 * (f * f)) <= (rest * one) * (g * g),
            nanos == secs * 1_000_000_000 + rest,
    ;
    assert(s * (1_000_000_000 * (f * f * f)) <= (nanos * one) * (g * g * g)) by (nonlinear_arith)
        requires
            s * f <= (a + b) * g,
            (a + b) * (1_000_000_000 * (f * f)) <= (nanos * one) * (g * g),
            f > 0,
            g > 0,
    ;
}

/// A time earns its share of the rate, but for one part in `2^50`.
pub proof fn lemma_earned_bound(nanos: nat, rate: u64)
    requires
        nanos <= MAX_NANOS,
    ensures
        earned(nanos, rate) * (1_000_000_000 * 0x4_0000_0000_0000) <= (nanos * rate)
            * 0x4_0000_0000_0001,
{
    let one = rounding::one();
    let f = pow2(53);
    let g = f + 1;
    lemma2_to64();
    lemma2_to64_rest();
    lemma_pow2_pos(1074);
    let s = seconds(nanos);
    let r = rounding::nearest(rate as nat * one, 1);
    let p = rounding::nearest(s * r, one);
    let whole = p / one;
    lemma_seconds_bound(nanos);
    lemma_converted(rate);
    lemma_pow2_strictly_increases(52, 1074);
    assert(rate as nat * one == 0 || rate as nat * one >= 1 * pow2(52)) by (nonlinear_arith)
        requires
            one > pow2(52),
    ;
    lemma_upper_error(rate as nat * one, 1);
    assert(s * r == 0 || s * r >= one * pow2(52)) by {
        if s > 0 && r > 0 {
            lemma_seconds_floor(nanos);
            lemma_pow2_strictly_increases(52, 1044);
            assert(s * r >= one * pow2(52)) by (nonlinear_arith)
                requires
                    s >= pow2(52),
                    r >= one,
            ;
        } else {
            assert(s * r == 0) by (nonlinear_arith)
                requires
                    s == 0 || r == 0,
            ;
        }
    }
    lemma_upper_error(s * r, one);
    vstd::arithmetic::div_mod::lemma_fundamental_div_mod(p as int, one as int);
    vstd::arithmetic::div_mod::lemma_mod_bound(p as int, one as int);
    let f3 = f * f * f;
    let g3 = g * g * g;
    assert(f3 > 0 && g3 > 0) by (nonlinear_arith)
        requires
            f > 0,
            g > 0,
            f3 == f * f * f,
            g3 == g * g * g,
    ;
    assert((s * r) * (1_000_000_000 * (f3 * f)) <= ((nanos * one) * (rate as nat * one)) * (g3
        * g)) by (nonlinear_arith)
        requires
            s * (1_000_000_000 * f3) <= (nanos * one) * g3,
            r * f <= (rate as nat * one) * g,
            s >= 0,
            r >= 0,
            f > 0,
            f3 > 0,
            g > 0,
            g3 > 0,
            one > 0,
    ;
    assert((one * p) * (1_000_000_000 * (f3 * f * f)) <= ((nanos * one) * (rate as nat * one))
        * (g3 * g * g)) by (nonlinear_arith)
        requires
            (one * p) * f <= (s * r) * g,
            (s * r) * (1_000_000_000 * (f3 * f)) <= ((nanos * one) * (rate as nat * one)) * (g3
                * g),
            f > 0,
            f3 > 0,
            g > 0,
            g3 > 0,
    ;
    lemma_cancel_one(
        one as int,
        whole as int,
        p as int,
        nanos as int,
        rate as int,
        (f3 * f * f) as int,
        (g3 * g * g) as int,
    );
    let k: int = 1_000_000_000int * 0x4_0000_0000_0000int;
    let c: int = 0x4_0000_0000_0001;
    let f5: int = (f3 * f * f) as int;
    let g5: int = (g3 * g * g) as int;
    assert(f == 0x20_0000_0000_0000);
    assert(f5 > 0 && g5 * 0x4_0000_0000_0000 <= f5 * c) by (nonlinear_arith)
        requires
            f == 0x20_0000_0000_0000,
            g == 0x20_0000_0000_0001,
            f5 == (f * f * f) * f * f,
            g5 == (g * g * g) * g * g,
            c == 0x4_0000_0000_0001,
    ;
    assert(whole * k <= (nanos * rate) * c) by (nonlinear_arith)
        requires
            whole * (1_000_000_000 * f5) <= (nanos * rate) * g5,
            g5 * 0x4_0000_0000_0000 <= f5 * c,
            f5 > 0,
            nanos * rate >= 0,
            k == 1_000_000_000 * 0x4_0000_0000_0000,
    ;
    assert(earned(nanos, rate) <= whole);
    assert(earned(nanos, rate) * k <= whole * k) by (nonlinear_arith)
        requires
            earned(nanos, rate) <= whole,
            k > 0,
    ;
}

proof fn lemma_cancel_one(one: int, whole: int, p: int, nanos: int, rate: int, f5: int, g5: int)
    requires
        one > 0,
        one * whole <= p,
        (one * p) * (1_000_000_000 * f5) <= ((nanos * one) * (rate * one)) * g5,
        f5 > 0,
    ensures
        whole * (1_000_000_000 * f5) <= (nanos * rate) * g5,
{
    let x = whole * (1_000_000_000 * f5);
    let y = (nanos * rate) * g5;
    assert((one * one) * x <= (one * one) * y) by (nonlinear_arith)
        requires
            x == whole * (1_000_000_000 * f5),
            y == (nanos * rate) * g5,
            one > 0,
            one * whole <= p,
            (one * p) * (1_000_000_000 * f5) <= ((nanos * one) * (rate * one)) * g5,
            f5 > 0,
    ;
    assert(x <= y) by (nonlinear_arith)
        requires
            (one * one) * x <= (one * one) * y,
            one > 0,
    ;
}

/// A time that is not nothing is not rounded to nothing.
proof fn lemma_seconds_floor(nanos: nat)
    requires
        nanos <= MAX_NANOS,
        seconds(nanos) > 0,
    ensures
        seconds(nanos) >= pow2(1044),
{
    let secs = (nanos / NANOS_PER_SEC as nat) as u64;
    let rest = (nanos % NANOS_PER_SEC as nat) as u64;
    lemma_converted(secs);
    lemma_converted(rest);
    lemma_fraction(rest);
    lemma_pow2_strictly_increases(1044, 1074);
    let sum = rounding::nearest(secs as nat * rounding::one(), 1) + rounding::nearest(
        rounding::nearest(rest as nat * rounding::one(), 1),
        NANOS_PER_SEC as nat,
    );
    if secs == 0 && rest == 0 {
        rounding::lemma_nearest_zero(1);
    } else {
        rounding::lemma_nearest_lower(sum, 1, 1044);
    }
}

/// The bytes that pass, of packets that come at the times and in the sizes
/// of `calls`, at one rate.
pub open spec fn admitted(limiter: RateLimiter, calls: Seq<(u128, usize)>, rate: u64) -> nat
    decreases calls.len(),
{
    if calls.len() == 0 {
        0
    } else {
        let (now, bytes) = calls[0];
        let passed: nat = if limiter.admits(now, bytes, rate) {
            bytes as nat
        } else {
            0
        };
        passed + admitted(limiter.after(now, bytes, rate), calls.drop_first(), rate)
    }
}

/// The times of `calls` do not run backwards, and lie between two others.
pub open spec fn in_order(calls: Seq<(u128, usize)>, start: u128, end: u128) -> bool {
    &&& start <= end <= MAX_NANOS
    &&& forall|i: int| 0 <= i < calls.len() ==> start <= #[trigger] calls[i].0 <= end
    &&& forall|i: int, j: int|
        0 <= i < j < calls.len() ==> #[trigger] calls[i].0 <= #[trigger] calls[j].0
}

/// From a bucket at its rate, no more passes than it holds and the time since
/// it was filled earns, but for one part in `2^50` of what is earned.
pub proof fn law_bucket_and_time_bound_the_bytes(
    limiter: RateLimiter,
    calls: Seq<(u128, usize)>,
    rate: u64,
    end: u128,
)
    requires
        rate > 0,
        limiter.last_rate == rate,
        in_order(calls, limiter.last, end),
    ensures
        admitted(limiter, calls, rate) * (1_000_000_000 * 0x4_0000_0000_0000) <= limiter.tokens * (
        1_000_000_000 * 0x4_0000_0000_0000) + ((end - limiter.last) * rate) * 0x4_0000_0000_0001,
    decreases calls.len(),
{
    let k: int = 1_000_000_000int * 0x4_0000_0000_0000int;
    let c: int = 0x4_0000_0000_0001;
    if calls.len() == 0 {
        assert(limiter.tokens * k + ((end - limiter.last) * rate) * c >= 0) by (nonlinear_arith)
            requires
                end >= limiter.last,
                k > 0,
                c > 0,
        ;
    } else {
        let (now, bytes) = calls[0];
        let rest = calls.drop_first();
        let next = limiter.after(now, bytes, rate);
        let added = earned((now - limiter.last) as nat, rate);
        let passed: int = if limiter.admits(now, bytes, rate) {
            bytes as int
        } else {
            0
        };
        lemma_earned_bound((now - limiter.last) as nat, rate);
        assert(forall|i: int| 0 <= i < rest.len() ==> #[trigger] rest[i] == calls[i + 1]);
        assert(in_order(rest, next.last, end)) by {
            assert forall|i: int| 0 <= i < rest.len() implies next.last <= #[trigger] rest[i].0
                <= end by {
                assert(rest[i] == calls[i + 1]);
                assert(calls[0].0 <= calls[i + 1].0);
            }
        }
        law_bucket_and_time_bound_the_bytes(next, rest, rate, end);
        let later = admitted(next, rest, rate) as int;
        if added == 0 {
            assert((passed + later) * k <= limiter.tokens * k + ((end - limiter.last) * rate) * c)
                by (nonlinear_arith)
                requires
                    later * k <= next.tokens * k + ((end - next.last) * rate) * c,
                    next.last == limiter.last,
                    passed + next.tokens <= limiter.tokens,
                    k > 0,
            ;
        } else {
            assert((passed + later) * k <= limiter.tokens * k + ((end - limiter.last) * rate) * c)
                by (nonlinear_arith)
                requires
                    later * k <= next.tokens * k + ((end - next.last) * rate) * c,
                    next.last == now,
                    passed + next.tokens <= limiter.tokens + added,
                    added * k <= ((now - limiter.last) * rate) * c,
                    k > 0,
            ;
        }
    }
}

/// A limit that is set, or changed, keeps its promise from there on: between
/// the first packet and `end` no more passes than one second's worth and the
/// worth of that time, but for one part in `2^50` of the latter.
pub proof fn law_rate_is_kept(
    limiter: RateLimiter,
    calls: Seq<(u128, usize)>,
    rate: u64,
    end: u128,
)
    requires
        rate > 0,
        limiter.last_rate != rate,
        calls.len() > 0,
        in_order(calls, calls[0].0, end),
    ensures
        admitted(limiter, calls, rate) * (1_000_000_000 * 0x4_0000_0000_0000) <= rate * (
        1_000_000_000 * 0x4_0000_0000_0000) + ((end - calls[0].0) * rate) * 0x4_0000_0000_0001,
{
    let (now, bytes) = calls[0];
    let filled = RateLimiter { tokens: rate, last: now, last_rate: rate };
    assert(limiter.refilled(now, rate) == filled);
    law_no_time_earns_nothing(rate);
    assert(filled.refilled(now, rate) == filled);
    law_bucket_and_time_bound_the_bytes(filled, calls, rate, end);
}

/// No tokens are earned in no time.
pub proof fn law_no_time_earns_nothing(rate: u64)
    ensures
        earned(0, rate) == 0,
{
    lemma_earned_bound(0, rate);
    assert((0 * rate) * 0x4_0000_0000_0001 == 0) by (nonlinear_arith);
    assert(earned(0, rate) == 0) by (nonlinear_arith)
        requires
            earned(0, rate) * (1_000_000_000 * 0x4_0000_0000_0000) <= 0,
            earned(0, rate) >= 0,
    ;
}

/// Without a rate every packet passes.
pub proof fn law_no_rate_no_limit(limiter: RateLimiter, now: u128, bytes: usize)
    ensures
        limiter.admits(now, bytes, 0),
{
}

/// A packet of more bytes than a second's worth never passes.
pub proof fn law_no_packet_beyond_the_rate(
    limiter: RateLimiter,
    now: u128,
    bytes: usize,
    rate: u64,
)
    requires
        limiter.wf(),
        rate > 0,
        bytes > rate,
    ensures
        !limiter.admits(now, bytes, rate),
{
}

/// A second earns the rate, so that it fills any bucket of that rate, where
/// the rate is a whole number of 53 bits.
pub proof fn law_a_second_fills_the_bucket(limiter: RateLimiter, rate: u64)
    requires
        0 < rate < 0x20_0000_0000_0000,
        limiter.last_rate == rate,
        limiter.wf(),
        limiter.last + NANOS_PER_SEC <= MAX_NANOS,
    ensures
        earned(NANOS_PER_SEC as nat, rate) == rate,
        limiter.refilled((limiter.last + NANOS_PER_SEC) as u128, rate).tokens == rate,
{
    let one = rounding::one();
    lemma2_to64();
    lemma2_to64_rest();
    lemma_pow2_pos(1074);
    rounding::lemma_nearest_exact(1, 1074);
    rounding::lemma_nearest_exact(rate as nat, 1074);
    rounding::lemma_nearest_zero(1);
    rounding::lemma_nearest_zero(NANOS_PER_SEC as nat);
    assert(0 * one == 0) by (nonlinear_arith);
    assert(1 * one == one) by (nonlinear_arith);
    assert(seconds(NANOS_PER_SEC as nat) == one);
    assert(one * (rate as nat * one) == (rate as nat * one) * one) by (nonlinear_arith);
    rounding::lemma_nearest_scale(rate as nat * one, 1, one);
    assert(rate as nat * one == rate as nat * one + 0);
    vstd::arithmetic::div_mod::lemma_fundamental_div_mod_converse(
        (rate as nat * one) as int,
        one as int,
        rate as int,
        0,
    );
}

/// How far a conversion or an operation is off, at most, from below.
proof fn lemma_lower_error(num: nat, den: nat)
    requires
        den > 0,
        num == 0 || num >= den * pow2(52),
    ensures
        num * (pow2(53) - 1) <= (den * rounding::nearest(num, den)) * pow2(53),
{
    if num == 0 {
        rounding::lemma_nearest_zero(den);
        assert(0 * (pow2(53) - 1) <= (den * 0) * pow2(53)) by (nonlinear_arith);
    } else {
        assert(num / den >= pow2(52)) by (nonlinear_arith)
            requires
                num >= den * pow2(52),
                den > 0,
        ;
        rounding::lemma_nearest_error(num, den);
    }
}

/// A time is no less than its seconds, but for rounding.
proof fn lemma_seconds_lower_bound(nanos: nat)
    requires
        nanos <= MAX_NANOS,
    ensures
        ({
            let f = pow2(53);
            (nanos * rounding::one()) * ((f - 1) * (f - 1) * (f - 1)) <= seconds(nanos) * (
            1_000_000_000 * (f * f * f))
        }),
{
    let one = rounding::one();
    let f = pow2(53);
    let h = f - 1;
    let secs = nanos / NANOS_PER_SEC as nat;
    let rest = nanos % NANOS_PER_SEC as nat;
    lemma2_to64_rest();
    lemma_pow2_strictly_increases(52, 1044);
    lemma_pow2_strictly_increases(52, 1074);
    lemma_converted(secs as u64);
    lemma_converted(rest as u64);
    lemma_fraction(rest as u64);
    assert(secs * one == 0 || secs * one >= 1 * pow2(52)) by (nonlinear_arith)
        requires
            one > pow2(52),
            secs >= 0,
    ;
    assert(rest * one == 0 || rest * one >= 1 * pow2(52)) by (nonlinear_arith)
        requires
            one > pow2(52),
            rest >= 0,
    ;
    let a = rounding::nearest(secs * one, 1);
    let b0 = rounding::nearest(rest * one, 1);
    let b = rounding::nearest(b0, NANOS_PER_SEC as nat);
    let s = rounding::nearest(a + b, 1);
    lemma_lower_error(secs * one, 1);
    lemma_lower_error(rest * one, 1);
    assert(b0 == 0 || b0 >= NANOS_PER_SEC as nat * pow2(52)) by {
        if b0 != 0 {
            lemma2_to64();
            lemma_pow2_adds(30, 52);
            lemma_pow2_strictly_increases(82, 1074);
            assert(0x4000_0000 * pow2(52) >= NANOS_PER_SEC as nat * pow2(52)) by (nonlinear_arith)
                requires
                    NANOS_PER_SEC == 1_000_000_000,
                    pow2(52) >= 0,
            ;
        }
    }
    lemma_lower_error(b0, NANOS_PER_SEC as nat);
    assert(a + b == 0 || a + b >= 1 * pow2(52));
    lemma_lower_error(a + b, 1);
    assert(nanos == secs * 1_000_000_000 + rest);
    assert((rest * one) * (h * h) <= b * (1_000_000_000 * (f * f))) by (nonlinear_arith)
        requires
            b0 * h <= (1_000_000_000 * b) * f,
            (rest * one) * h <= b0 * f,
            f > 0,
            h > 0,
    ;
    assert(((secs * 1_000_000_000) * one) * (h * h) <= a * (1_000_000_000 * (f * f)))
        by (nonlinear_arith)
        requires
            (secs * one) * h <= a * f,
            h > 0,
            f >= h,
            secs * one >= 0,
            a >= 0,
    ;
    assert((nanos * one) * (h * h) <= (a + b) * (1_000_000_000 * (f * f))) by (nonlinear_arith)
        requires
            ((secs * 1_000_000_000) * one) * (h * h) <= a * (1_000_000_000 * (f * f)),
            (rest * one) * (h * h) <= b * (1_000_000_000 * (f * f)),
            nanos == secs * 1_000_000_000 + rest,
    ;
    assert((nanos * one) * (h * h * h) <= s * (1_000_000_000 * (f * f * f))) by (nonlinear_arith)
        requires
            (a + b) * h <= s * f,
            (nanos * one) * (h * h) <= (a + b) * (1_000_000_000 * (f * f)),
            f > 0,
            h > 0,
    ;
}

/// A time earns its share of the rate, but for one part in `2^50` and for
/// less than one token, unless that is more than 64 bits hold.
pub proof fn lemma_earned_lower_bound(nanos: nat, rate: u64)
    requires
        nanos <= MAX_NANOS,
    ensures
        earned(nanos, rate) == u64::MAX || (earned(nanos, rate) + 1) * (1_000_000_000
            * 0x4_0000_0000_0000) > (nanos * rate) * 0x3_ffff_ffff_ffff,
{
    let one = rounding::one();
    let f = pow2(53);
    let h = f - 1;
    lemma2_to64();
    lemma2_to64_rest();
    lemma_pow2_pos(1074);
    let s = seconds(nanos);
    let r = rounding::nearest(rate as nat * one, 1);
    let p = rounding::nearest(s * r, one);
    let whole = p / one;
    lemma_seconds_lower_bound(nanos);
    lemma_converted(rate);
    lemma_pow2_strictly_increases(52, 1074);
    assert(rate as nat * one == 0 || rate as nat * one >= 1 * pow2(52)) by (nonlinear_arith)
        requires
            one > pow2(52),
    ;
    lemma_lower_error(rate as nat * one, 1);
    assert(s * r == 0 || s * r >= one * pow2(52)) by {
        if s > 0 && r > 0 {
            lemma_seconds_floor(nanos);
            lemma_pow2_strictly_increases(52, 1044);
            assert(s * r >= one * pow2(52)) by (nonlinear_arith)
                requires
                    s >= pow2(52),
                    r >= one,
            ;
        } else {
            assert(s * r == 0) by (nonlinear_arith)
                requires
                    s == 0 || r == 0,
            ;
        }
    }
    lemma_lower_error(s * r, one);
    vstd::arithmetic::div_mod::lemma_fundamental_div_mod(p as int, one as int);
    vstd::arithmetic::div_mod::lemma_mod_bound(p as int, one as int);
    let f3 = f * f * f;
    let h3 = h * h * h;
    assert(f3 > 0 && h3 > 0) by (nonlinear_arith)
        requires
            f > 0,
            h > 0,
            f3 == f * f * f,
            h3 == h * h * h,
    ;
    assert(((nanos * one) * (rate as nat * one)) * (h3 * h) <= (s * r) * (1_000_000_000 * (f3 * f)))
        by (nonlinear_arith)
        requires
            (nanos * one) * h3 <= s * (1_000_000_000 * f3),
            (rate as nat * one) * h <= r * f,
            nanos * one >= 0,
            rate as nat * one >= 0,
            s >= 0,
            r >= 0,
            f > 0,
            f3 > 0,
            h > 0,
            h3 > 0,
    ;
    assert(((nanos * one) * (rate as nat * one)) * (h3 * h * h) <= (one * p) * (1_000_000_000 * (f3
        * f * f))) by (nonlinear_arith)
        requires
            (s * r) * h <= (one * p) * f,
            ((nanos * one) * (rate as nat * one)) * (h3 * h) <= (s * r) * (1_000_000_000 * (f3
                * f)),
            f > 0,
            f3 > 0,
            h > 0,
            h3 > 0,
    ;
    let f5: int = (f3 * f * f) as int;
    let h5: int = h3 * h * h;
    assert(p < one * (whole + 1)) by (nonlinear_arith)
        requires
            p == one * whole + p as int % one as int,
            (p as int % one as int) < one,
    ;
    assert(f5 > 0 && h5 * 0x4_0000_0000_0000 >= f5 * 0x3_ffff_ffff_ffff) by (nonlinear_arith)
        requires
            f == 0x20_0000_0000_0000,
            h == 0x1f_ffff_ffff_ffff,
            f5 == (f * f * f) * f * f,
            h5 == (h * h * h) * h * h,
    ;
    lemma_cancel_one_below(one as int, whole as int, p as int, nanos as int, rate as int, f5, h5);
    let x = (nanos * rate) as int;
    assert(x * 0x3_ffff_ffff_ffff < (whole + 1) * (1_000_000_000 * 0x4_0000_0000_0000))
        by (nonlinear_arith)
        requires
            x * h5 < (whole + 1) * (1_000_000_000 * f5),
            h5 * 0x4_0000_0000_0000 >= f5 * 0x3_ffff_ffff_ffff,
            f5 > 0,
            x >= 0,
    ;
}

proof fn lemma_cancel_one_below(
    one: int,
    whole: int,
    p: int,
    nanos: int,
    rate: int,
    f5: int,
    h5: int,
)
    requires
        one > 0,
        p < one * (whole + 1),
        ((nanos * one) * (rate * one)) * h5 <= (one * p) * (1_000_000_000 * f5),
        f5 > 0,
    ensures
        (nanos * rate) * h5 < (whole + 1) * (1_000_000_000 * f5),
{
    let x = (nanos * rate) * h5;
    let y = (whole + 1) * (1_000_000_000 * f5);
    let w = 1_000_000_000 * f5;
    assert((one * one) * x == ((nanos * one) * (rate * one)) * h5) by (nonlinear_arith)
        requires
            x == (nanos * rate) * h5,
    ;
    assert((one * p) * w < (one * one) * y) by (nonlinear_arith)
        requires
            y == (whole + 1) * w,
            p < one * (whole + 1),
            one > 0,
            w > 0,
    ;
    assert(x < y) by (nonlinear_arith)
        requires
            (one * one) * x < (one * one) * y,
            one > 0,
    ;
}

/// The tokens that a time earns are what seconds times rate come to, cut off
/// to a whole number, but for one part in `2^50`.
pub proof fn law_time_earns_its_share(nanos: u128, rate: u64, tokens: u64)
    requires
        nanos <= MAX_NANOS,
        call_ensures(tokens_for, (nanos, rate), tokens),
    ensures
        tokens * (1_000_000_000 * 0x4_0000_0000_0000) <= (nanos * rate) * 0x4_0000_0000_0001,
        tokens == u64::MAX || (tokens + 1) * (1_000_000_000 * 0x4_0000_0000_0000) > (nanos * rate)
            * 0x3_ffff_ffff_ffff,
{
    lemma_earned_bound(nanos as nat, rate);
    lemma_earned_lower_bound(nanos as nat, rate);
}

/// What a rate limit does with a packet, in integers. Without a rate it passes.
/// A new rate fills the bucket with a second's worth. Otherwise the bucket has
/// at that moment what it had and what the time since has earned, neither more
/// nor less but for rounding, up to a second's worth; the clock starts anew once
/// a whole token was earned. The packet passes exactly where the bucket has a
/// token for each byte, and only then takes them.
pub proof fn law_buckets_fill_and_empty(limiter: RateLimiter, now: u128, bytes: usize, rate: u64)
    requires
        limiter.tokens <= limiter.last_rate,
        now <= MAX_NANOS,
    ensures
        ({
            let passes = limiter.admits(now, bytes, rate);
            let after = limiter.after(now, bytes, rate);
            // What the bucket had when the packet came.
            let had: int = after.tokens + if passes {
                bytes as int
            } else {
                0
            };
            let elapsed: int = if now < limiter.last {
                0
            } else {
                now - limiter.last
            };
            let unit: int = 1_000_000_000int * 0x4_0000_0000_0000int;
            &&& after.last_rate == rate
            &&& rate == 0 ==> passes && after.tokens == 0 && after.last == now
            &&& rate > 0 ==> (passes <==> bytes <= had)
            &&& rate > 0 && rate != limiter.last_rate ==> had == rate && after.last == now
            &&& rate > 0 && rate == limiter.last_rate ==> {
                &&& limiter.tokens <= had <= rate
                &&& had * unit <= limiter.tokens * unit + (elapsed * rate) * 0x4_0000_0000_0001
                &&& had == rate || (had + 1) * unit > limiter.tokens * unit + (elapsed * rate)
                    * 0x3_ffff_ffff_ffff
                &&& after.last == limiter.last && had == limiter.tokens || after.last == now && (had
                    > limiter.tokens || had == rate)
                &&& (elapsed * rate) * 0x4_0000_0000_0001 < unit ==> after.last == limiter.last
                &&& (elapsed * rate) * 0x3_ffff_ffff_ffff >= unit ==> after.last == now
            }
        }),
{
    let elapsed: nat = if now < limiter.last {
        0
    } else {
        (now - limiter.last) as nat
    };
    let added = earned(elapsed, rate);
    let unit: int = 1_000_000_000int * 0x4_0000_0000_0000int;
    lemma_earned_bound(elapsed, rate);
    lemma_earned_lower_bound(elapsed, rate);
    if rate > 0 && rate == limiter.last_rate {
        let had = limiter.refilled(now, rate).tokens as int;
        let c: int = (elapsed * rate) * 0x4_0000_0000_0001;
        let d: int = (elapsed * rate) * 0x3_ffff_ffff_ffff;
        assert(c >= 0) by (nonlinear_arith)
            requires
                c == (elapsed * rate) * 0x4_0000_0000_0001,
        ;
        assert(had <= limiter.tokens + added);
        assert(had * unit <= limiter.tokens * unit + c) by (nonlinear_arith)
            requires
                had <= limiter.tokens + added,
                added * unit <= c,
                unit > 0,
        ;
        if c < unit {
            assert(added == 0) by (nonlinear_arith)
                requires
                    added * unit <= c,
                    c < unit,
                    added >= 0,
                    unit > 0,
            ;
        }
        if d >= unit && added < u64::MAX {
            assert(added > 0) by (nonlinear_arith)
                requires
                    (added + 1) * unit > d,
                    d >= unit,
                    added >= 0,
            ;
        }
        if had != rate {
            assert(had == limiter.tokens + added);
            assert((had + 1) * unit > limiter.tokens * unit + d) by (nonlinear_arith)
                requires
                    had == limiter.tokens + added,
                    (added + 1) * unit > d,
            ;
        }
    }
}

/// A packet that the rate has earned is let through.
pub proof fn law_earned_packets_pass(limiter: RateLimiter, now: u128, bytes: usize, rate: u64)
    requires
        limiter.tokens <= limiter.last_rate,
        limiter.last_rate == rate,
        limiter.last <= now <= MAX_NANOS,
        rate > 0,
        bytes <= rate,
        (bytes + 1) * (1_000_000_000 * 0x4_0000_0000_0000) <= limiter.tokens * (1_000_000_000
            * 0x4_0000_0000_0000) + ((now - limiter.last) * rate) * 0x3_ffff_ffff_ffff,
    ensures
        limiter.admits(now, bytes, rate),
{
    law_buckets_fill_and_empty(limiter, now, bytes, rate);
    if !limiter.admits(now, bytes, rate) {
        let had = limiter.after(now, bytes, rate).tokens as int;
        let unit: int = 1_000_000_000int * 0x4_0000_0000_0000int;
        let x: int = limiter.tokens * unit + ((now - limiter.last) * rate) * 0x3_ffff_ffff_ffff;
        assert((had + 1) * unit > x);
        assert((bytes + 1) * unit <= x);
        assert(had > bytes) by (nonlinear_arith)
            requires
                (had + 1) * unit > x,
                (bytes + 1) * unit <= x,
                unit > 0,
        ;
    }
}

/// A rate limit that is asked answers, and changes, as its bucket does.
pub proof fn law_the_bucket_answers(
    limiter: &mut RateLimiter,
    now: u128,
    bytes: usize,
    rate: u64,
    allowed: bool,
)
    requires
        call_ensures(RateLimiter::allow, (limiter, now, bytes, rate), allowed),
        old(limiter).tokens <= old(limiter).last_rate,
        now <= MAX_NANOS,
    ensures
        ({
            let had: int = final(limiter).tokens + if allowed {
                bytes as int
            } else {
                0
            };
            let elapsed: int = if now < old(limiter).last {
                0
            } else {
                now - old(limiter).last
            };
            let unit: int = 1_000_000_000int * 0x4_0000_0000_0000int;
            &&& final(limiter).last_rate == rate
            &&& final(limiter).tokens <= rate
            &&& rate == 0 ==> allowed && final(limiter).tokens == 0 && final(limiter).last == now
            &&& rate > 0 ==> (allowed <==> bytes <= had)
            &&& rate > 0 && rate != old(limiter).last_rate ==> had == rate && final(limiter).last
                == now
            &&& rate > 0 && rate == old(limiter).last_rate ==> {
                &&& old(limiter).tokens <= had <= rate
                &&& had * unit <= old(limiter).tokens * unit + (elapsed * rate)
                    * 0x4_0000_0000_0001
                &&& had == rate || (had + 1) * unit > old(limiter).tokens * unit + (elapsed * rate)
                    * 0x3_ffff_ffff_ffff
                &&& final(limiter).last == old(limiter).last && had == old(limiter).tokens || final(
                    limiter).last == now && (had > old(limiter).tokens || had == rate)
                &&& (elapsed * rate) * 0x4_0000_0000_0001 < unit ==> final(limiter).last == old(
                    limiter).last
                &&& (elapsed * rate) * 0x3_ffff_ffff_ffff >= unit ==> final(limiter).last == now
            }
        }),
{
    law_buckets_fill_and_empty(*old(limiter), now, bytes, rate);
}

/// A new limiter has no tokens and no rate.
pub proof fn law_new_limiters_are_empty(now: u128, limiter: RateLimiter)
    requires
        call_ensures(RateLimiter::new, (now,), limiter),
    ensures
        limiter.tokens == 0,
        limiter.last == now,
        limiter.last_rate == 0,
{
}

/// The longest time that is measured is `2^64` seconds, less one nanosecond.
pub proof fn law_times_are_measured_in_nanoseconds()
    ensures
        MAX_NANOS + 1 == 0x1_0000_0000_0000_0000 * 1_000_000_000,
        NANOS_PER_SEC == 1_000_000_000,
{
}

} // verus!
