use udptoxy::double::Double;
use udptoxy::limiter::{tokens_for, MAX_NANOS};
use udptoxy::loss::LossPercent;

fn of(x: f64) -> Double {
    Double { bits: x.to_bits() }
}

fn value(d: Double) -> f64 {
    f64::from_bits(d.bits)
}

/// A fixed, well mixed sequence of numbers.
fn mix(seed: u64) -> u64 {
    let mut x = seed.wrapping_mul(0x9e37_79b9_7f4a_7c15);
    x = (x ^ (x >> 30)).wrapping_mul(0xbf58_476d_1ce4_e5b9);
    x = (x ^ (x >> 27)).wrapping_mul(0x94d0_49bb_1331_11eb);
    x ^ (x >> 31)
}

/// Numbers of all sizes from zero to one hundred.
fn percentages() -> Vec<f64> {
    let mut all = vec![0.0, -0.0, 1.0, 0.5, 99.0, 99.5, 100.0, 0.1, 0.25, 33.35, 1e-300, 5e-324, f64::EPSILON];
    for seed in 0..5_000u64 {
        let unit = (mix(seed) >> 11) as f64 / (1u64 << 53) as f64;
        all.push(unit * 100.0);
        all.push(unit * f64::powi(2.0, -((seed % 80) as i32)));
    }
    all
}

#[test]
fn converts_integers() {
    for seed in 0..5_000u64 {
        let n = mix(seed) >> (seed % 64);
        assert_eq!(value(Double::from_u64(n)), n as f64);
    }
    assert_eq!(value(Double::from_u64(u64::MAX)), 18446744073709551616.0);
    assert_eq!(value(Double::from_u64(9_007_199_254_740_993)), 9007199254740992.0);
}

#[test]
fn divides_adds_and_takes() {
    for x in percentages() {
        assert_eq!(value(of(x).divided_by(100)), x.abs() / 100.0);
        assert_eq!(value(of(x).plus(of(1.0))), x.abs() + 1.0);
        assert_eq!(value(of(1.0).plus(of(x))), x.abs() + 1.0);
        if x >= 1.0 {
            assert_eq!(value(of(x).minus(of(1.0))), x - 1.0);
        }
        assert_eq!(of(x).truncated(), x.abs() as u64);
    }
}

#[test]
fn multiplies() {
    for seed in 1..5_000u64 {
        let x = (mix(seed) >> (seed % 60)) as f64 / 1e9;
        let y = (mix(seed + 7_000) >> (seed % 50)) as f64;
        assert_eq!(value(of(x).times(of(y))), x * y);
    }
}

#[test]
fn truncates_with_a_ceiling() {
    assert_eq!(of(1e30).truncated(), u64::MAX);
    assert_eq!(of(18446744073709551615.0).truncated(), u64::MAX);
    assert_eq!(of(18446744073709549568.0).truncated(), 18446744073709549568);
    assert_eq!(of(0.999).truncated(), 0);
}

#[test]
fn compares_and_clamps() {
    let samples = [
        0.0, -0.0, 1.0, -1.0, 100.0, 100.5, 1e300, -1e300, 5e-324, f64::INFINITY, f64::NEG_INFINITY, f64::NAN,
    ];
    for a in samples {
        for b in samples {
            assert_eq!(of(a).less_than(of(b)), a < b);
        }
        let clamped = value(of(a).clamp(of(0.0), of(100.0)));
        let expected = a.clamp(0.0, 100.0);
        assert_eq!(clamped.is_nan(), expected.is_nan());
        if !a.is_nan() {
            assert_eq!(clamped.to_bits(), expected.to_bits());
        }
    }
}

fn loss(x: f64) -> LossPercent {
    LossPercent::clamped(of(x))
}

fn written(x: f64) -> String {
    let mut text = String::new();
    loss(x).push_text(&mut text);
    text
}

#[test]
fn steps_the_loss() {
    for x in percentages() {
        let up = (x + 1.0).clamp(0.0, 100.0);
        let down = (x - 1.0).clamp(0.0, 100.0);
        assert_eq!(loss(x).step_up().get().bits, up.to_bits());
        assert_eq!(loss(x).step_down().get().bits, down.to_bits());
        assert_eq!(loss(x).is_positive(), x > 0.0);
        assert_eq!(loss(x).is_zero(), x <= 0.0);
    }
    assert!(value(loss(f64::NAN).step_up().get()).is_nan());
    assert!(value(loss(f64::NAN).step_down().get()).is_nan());
    assert!(!loss(f64::NAN).is_positive());
    assert!(!loss(f64::NAN).is_zero());
}

#[test]
fn whole_percentages_stay_whole() {
    let mut up = loss(0.0);
    for n in 1..=100 {
        up = up.step_up();
        assert_eq!(value(up.get()), n as f64);
    }
    assert_eq!(value(up.step_up().get()), 100.0);
    let mut down = up;
    for n in (0..100).rev() {
        down = down.step_down();
        assert_eq!(value(down.get()), n as f64);
    }
    assert_eq!(value(down.step_down().get()), 0.0);
}

#[test]
fn writes_the_loss() {
    for x in percentages() {
        assert_eq!(written(x), format!("{:.1}", x));
    }
    assert_eq!(written(-0.0), "-0.0");
    assert_eq!(written(f64::NAN), "NaN");
    assert_eq!(written(150.0), "100.0");
    assert_eq!(written(-3.0), "0.0");
    assert_eq!(written(0.25), "0.2");
    assert_eq!(written(0.35), "0.3");
    assert_eq!(written(12.75), "12.8");
}

#[test]
fn probability_is_a_hundredth() {
    for x in percentages() {
        let p = value(loss(x).probability());
        assert_eq!(p, x / 100.0);
        assert!((0.0..=1.0).contains(&p));
    }
    assert_eq!(value(loss(100.0).probability()), 1.0);
    assert_eq!(value(loss(0.0).probability()), 0.0);
    assert_eq!(value(loss(1.0).probability()), 0.01);
    assert!(value(loss(f64::NAN).probability()).is_nan());
}

#[test]
fn more_loss_is_more_probable() {
    assert!(value(loss(12.5).probability()) < value(loss(12.6).probability()));
}

#[test]
fn earns_what_floating_point_earns() {
    for seed in 0..20_000u64 {
        let nanos = mix(seed) >> (seed % 64);
        let rate = mix(seed + 90_000) >> ((seed / 64) % 64);
        let elapsed = std::time::Duration::from_nanos(nanos);
        let expected = (elapsed.as_secs_f64() * rate as f64) as u64;
        assert_eq!(tokens_for(nanos as u128, rate), expected);
    }
    let longest = std::time::Duration::MAX;
    assert_eq!(longest.as_nanos(), MAX_NANOS);
    for rate in [0u64, 1, 3, 1_000, u64::MAX] {
        let expected = (longest.as_secs_f64() * rate as f64) as u64;
        assert_eq!(tokens_for(MAX_NANOS, rate), expected);
    }
}

#[test]
fn a_second_earns_the_rate() {
    for rate in [1u64, 10_000, 25_000, 100_000_000, 9_007_199_254_740_991] {
        assert_eq!(tokens_for(1_000_000_000, rate), rate);
    }
    assert_eq!(tokens_for(0, 1_000_000), 0);
    assert_eq!(tokens_for(290_000_000, 100), 28);
}
