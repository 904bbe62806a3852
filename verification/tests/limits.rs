use udptoxy::lane::rate_admits;
use udptoxy::limiter::RateLimiter;
use udptoxy::double::Double;
use udptoxy::types::{LossPercent, ProxySettings};

const SECOND: u128 = 1_000_000_000;

fn settings(rate: u64, enabled: bool) -> ProxySettings {
    ProxySettings {
        latency_ms: 0,
        jitter_ms: 0,
        loss_percent: LossPercent::clamped(Double { bits: 0 }),
        rate_bytes_per_sec: rate,
        latency_enabled: false,
        jitter_enabled: false,
        loss_enabled: false,
        rate_enabled: enabled,
    }
}

#[test]
fn starts_empty() {
    let limiter = RateLimiter::new(7);
    assert_eq!((limiter.tokens, limiter.last, limiter.last_rate), (0, 7, 0));
}

#[test]
fn zero_disables_the_limit() {
    let mut limiter = RateLimiter::new(0);
    assert!(limiter.allow(0, 1_000, 1_000));
    assert!(limiter.allow(5, usize::MAX, 0));
    assert_eq!((limiter.tokens, limiter.last, limiter.last_rate), (0, 5, 0));
}

#[test]
fn a_new_rate_fills_the_bucket() {
    let mut limiter = RateLimiter::new(0);
    assert!(limiter.allow(10, 600, 1_000));
    assert_eq!(limiter.tokens, 400);
    assert!(!limiter.allow(10, 401, 1_000));
    assert_eq!(limiter.tokens, 400);
    assert!(limiter.allow(10, 400, 1_000));
    assert!(!limiter.allow(10, 1, 1_000));
    assert!(limiter.allow(10, 2_000, 2_000));
}

#[test]
fn time_fills_the_bucket_up_to_a_second() {
    let mut limiter = RateLimiter::new(0);
    assert!(limiter.allow(0, 1_000, 1_000));
    assert!(!limiter.allow(SECOND / 2, 501, 1_000));
    assert_eq!((limiter.tokens, limiter.last), (500, SECOND / 2));
    assert!(limiter.allow(SECOND / 2, 500, 1_000));
    assert!(limiter.allow(20 * SECOND, 1_000, 1_000));
    assert!(!limiter.allow(20 * SECOND, 1, 1_000));
}

#[test]
fn the_clock_waits_for_a_whole_token() {
    let mut limiter = RateLimiter::new(0);
    assert!(limiter.allow(0, 1_000, 1_000));
    assert!(!limiter.allow(999_999, 1, 1_000));
    assert_eq!(limiter.last, 0);
    assert!(limiter.allow(1_000_000, 1, 1_000));
    assert_eq!(limiter.last, 1_000_000);
}

#[test]
fn time_that_runs_backwards_earns_nothing() {
    let mut limiter = RateLimiter::new(0);
    assert!(limiter.allow(5 * SECOND, 1_000, 1_000));
    assert!(!limiter.allow(SECOND, 1, 1_000));
    assert_eq!(limiter.last, 5 * SECOND);
}

#[test]
fn a_great_rate_does_not_overflow() {
    let mut limiter = RateLimiter::new(0);
    assert!(limiter.allow(0, 10, u64::MAX));
    assert!(limiter.allow(100 * SECOND, 10, u64::MAX));
    assert_eq!(limiter.tokens, u64::MAX - 10);
}

#[test]
fn a_packet_beyond_the_rate_never_passes() {
    let mut limiter = RateLimiter::new(0);
    for i in 0..50u128 {
        assert!(!limiter.allow(i * SECOND, 1_001, 1_000));
    }
}

#[test]
fn the_rate_is_kept() {
    let mut limiter = RateLimiter::new(0);
    let rate = 10_000u64;
    let mut passed: u64 = 0;
    for i in 0..10_000u128 {
        if limiter.allow(i * 1_000_000, 137, rate) {
            passed += 137;
        }
    }
    assert!(passed <= rate + rate * 10);
    assert!(passed >= rate * 10);
}

#[test]
fn only_a_limit_that_is_on_is_asked() {
    let mut limiter = RateLimiter::new(0);
    assert!(rate_admits(&settings(10, false), 1_000, &mut limiter, 3));
    assert_eq!((limiter.tokens, limiter.last, limiter.last_rate), (0, 0, 0));
    assert!(!rate_admits(&settings(10, true), 1_000, &mut limiter, 3));
    assert_eq!((limiter.tokens, limiter.last, limiter.last_rate), (10, 3, 10));
    assert!(rate_admits(&settings(10, true), 10, &mut limiter, 3));
}
