use udptoxy::types::{format_rate, next_rate, prev_rate, RATE_PRESETS};

fn by_floats(bytes_per_sec: u64) -> String {
    if bytes_per_sec >= 1_000_000_000 {
        format!("{:.1}GB/s", bytes_per_sec as f64 / 1_000_000_000.0)
    } else if bytes_per_sec >= 1_000_000 {
        format!("{:.1}MB/s", bytes_per_sec as f64 / 1_000_000.0)
    } else if bytes_per_sec >= 1_000 {
        format!("{:.0}KB/s", bytes_per_sec as f64 / 1_000.0)
    } else {
        format!("{bytes_per_sec}B/s")
    }
}

/// A fixed, well mixed sequence of numbers.
fn mixed(seed: u64) -> u64 {
    let mut x = seed.wrapping_add(0x9e37_79b9_7f4a_7c15);
    x = (x ^ (x >> 30)).wrapping_mul(0xbf58_476d_1ce4_e5b9);
    x = (x ^ (x >> 27)).wrapping_mul(0x94d0_49bb_1331_11eb);
    x ^ (x >> 31)
}

#[test]
fn formats_each_unit() {
    assert_eq!(format_rate(0), "0B/s");
    assert_eq!(format_rate(999), "999B/s");
    assert_eq!(format_rate(1_000), "1KB/s");
    assert_eq!(format_rate(10_000), "10KB/s");
    assert_eq!(format_rate(999_999), "1000KB/s");
    assert_eq!(format_rate(1_000_000), "1.0MB/s");
    assert_eq!(format_rate(100_000_000), "100.0MB/s");
    assert_eq!(format_rate(999_999_999), "1000.0MB/s");
    assert_eq!(format_rate(1_000_000_000), "1.0GB/s");
    assert_eq!(format_rate(u64::MAX), "18446744073.7GB/s");
}

#[test]
fn formats_ties_as_doubles_do() {
    assert_eq!(format_rate(1_500), "2KB/s");
    assert_eq!(format_rate(2_500), "2KB/s");
    assert_eq!(format_rate(1_050_000), "1.1MB/s");
    assert_eq!(format_rate(1_150_000), "1.1MB/s");
    assert_eq!(format_rate(1_250_000), "1.2MB/s");
    assert_eq!(format_rate(1_350_000), "1.4MB/s");
}

#[test]
fn formats_like_floating_point() {
    for rate in 0..20_000u64 {
        assert_eq!(format_rate(rate), by_floats(rate));
    }
    for step in 0..10_000u64 {
        let tie = 1_000_000 + step * 50_000;
        assert_eq!(format_rate(tie), by_floats(tie));
        let great_tie = 1_000_000_000 + step * 50_000_000;
        assert_eq!(format_rate(great_tie), by_floats(great_tie));
    }
    for seed in 0..20_000u64 {
        let rate = mixed(seed) >> (seed % 64);
        assert_eq!(format_rate(rate), by_floats(rate));
    }
}

#[test]
fn steps_through_the_presets() {
    assert_eq!(next_rate(0), 10_000);
    assert_eq!(next_rate(10_000), 25_000);
    assert_eq!(next_rate(30_000), 50_000);
    assert_eq!(next_rate(100_000_000), 100_000_000);
    assert_eq!(next_rate(u64::MAX), 100_000_000);
    assert_eq!(prev_rate(0), 0);
    assert_eq!(prev_rate(10_000), 0);
    assert_eq!(prev_rate(10_001), 10_000);
    assert_eq!(prev_rate(u64::MAX), 100_000_000);
    for i in 0..16 {
        assert_eq!(next_rate(RATE_PRESETS[i]), RATE_PRESETS[i + 1]);
        assert_eq!(prev_rate(next_rate(RATE_PRESETS[i])), RATE_PRESETS[i]);
        assert_eq!(next_rate(prev_rate(RATE_PRESETS[i])), RATE_PRESETS[i]);
    }
}
