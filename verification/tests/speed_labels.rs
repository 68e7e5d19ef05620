use netmonitor::speed::{compact_speed, format_speed};

fn reference_format(bps: u64) -> String {
    if bps >= 1_000_000_000 {
        format!("{:.1} Gbps", bps as f64 / 1_000_000_000.0)
    } else if bps >= 1_000_000 {
        format!("{:.1} Mbps", bps as f64 / 1_000_000.0)
    } else if bps >= 1_000 {
        format!("{:.1} Kbps", bps as f64 / 1_000.0)
    } else {
        format!("{bps} bps")
    }
}

fn reference_compact(bps: u64) -> String {
    if bps >= 1_000_000_000 {
        format!("{:.0}G", bps as f64 / 1_000_000_000.0)
    } else if bps >= 100_000_000 {
        format!("{:.0}M", bps as f64 / 1_000_000.0)
    } else if bps >= 1_000_000 {
        format!("{:.1}M", bps as f64 / 1_000_000.0)
    } else if bps >= 100_000 {
        format!("{:.0}K", bps as f64 / 1_000.0)
    } else if bps >= 1_000 {
        format!("{:.1}K", bps as f64 / 1_000.0)
    } else {
        format!("{bps}")
    }
}

fn interesting_rates() -> Vec<u64> {
    let mut rates = vec![
        0, 1, 9, 10, 999, 1_000, 1_049, 1_050, 1_150, 1_250, 1_350, 9_949, 9_950, 99_949, 99_950,
        99_999, 100_000, 100_499, 100_500, 101_500, 999_499, 999_500, 999_950, 999_999, 1_000_000,
        1_050_000, 1_150_000, 1_250_000, 12_500_000, 99_950_000, 99_999_999, 100_000_000,
        100_500_000, 101_500_000, 999_500_000, 999_999_999, 1_000_000_000, 1_050_000_000,
        1_150_000_000, 1_250_000_000, 2_500_000_000, 3_500_000_000, 9_007_199_254_740_992,
        9_007_199_254_740_993, 9_007_199_254_740_995, 18_014_398_509_481_985, u64::MAX,
        u64::MAX - 1, u64::MAX / 3, 1 << 63, (1 << 63) + 1024,
    ];
    let mut x: u64 = 0x9E37_79B9_7F4A_7C15;
    for _ in 0..20_000 {
        x ^= x << 13;
        x ^= x >> 7;
        x ^= x << 17;
        let width = x % 64;
        rates.push(x >> (63 - width));
        rates.push((x % 2_000) * 50_000 + 50_000_000 * (x % 3));
        rates.push((x % 100_000) * 500 + 50);
    }
    rates
}

#[test]
fn format_speed_matches_binary64_printing() {
    for bps in interesting_rates() {
        assert_eq!(format_speed(bps), reference_format(bps), "rate {bps}");
    }
}

#[test]
fn compact_speed_matches_binary64_printing() {
    for bps in interesting_rates() {
        assert_eq!(compact_speed(bps), reference_compact(bps), "rate {bps}");
    }
}

#[test]
fn format_speed_examples() {
    assert_eq!(format_speed(0), "0 bps");
    assert_eq!(format_speed(999), "999 bps");
    assert_eq!(format_speed(1_000), "1.0 Kbps");
    assert_eq!(format_speed(12_500_000), "12.5 Mbps");
    assert_eq!(format_speed(1_250_000_000), "1.2 Gbps");
    assert_eq!(format_speed(1_350_000_000), "1.4 Gbps");
}

#[test]
fn compact_speed_examples() {
    assert_eq!(compact_speed(640), "640");
    assert_eq!(compact_speed(1_500), "1.5K");
    assert_eq!(compact_speed(150_000), "150K");
    assert_eq!(compact_speed(12_000_000), "12.0M");
    assert_eq!(compact_speed(250_000_000), "250M");
    assert_eq!(compact_speed(2_500_000_000), "2G");
}
