use netmonitor::binary64::{f64_quotient_as_u64, half_or_more};
use netmonitor::summary::{InterfaceCounter, SummarySampler};
use std::collections::HashMap;

fn counter(alias: &str, in_octets: u64, out_octets: u64) -> InterfaceCounter {
    InterfaceCounter { alias: alias.to_string(), in_octets, out_octets }
}

fn secs(value: f64) -> u64 {
    value.max(0.5).to_bits()
}

#[test]
fn quotient_matches_binary64_division() {
    let mut x: u64 = 0xDEAD_BEEF_CAFE_F00D;
    let mut elapsed = vec![0.5f64, 0.500001, 0.75, 1.0, 1.5, 2.0, 3.0, 7.3, 1e3, 1e10, 1e300, 4503599627370496.0];
    let mut bytes = vec![0u64, 1, 2, 3, 1000, 9_007_199_254_740_993, u64::MAX, u64::MAX - 1, 1 << 63];
    for _ in 0..3_000 {
        x ^= x << 13;
        x ^= x >> 7;
        x ^= x << 17;
        bytes.push(x >> (x % 64));
        elapsed.push(0.5 + (x % 100_000) as f64 / 977.0);
    }
    for (i, b) in bytes.iter().enumerate() {
        for e in elapsed.iter().skip(i % 7).step_by(97) {
            let expected = (*b as f64 / *e) as u64;
            assert_eq!(f64_quotient_as_u64(*b, e.to_bits()), expected, "{b} / {e}");
        }
    }
}

#[test]
fn first_sample_has_no_rates() {
    let mut sampler: SummarySampler<u32> = SummarySampler::new();
    let mut counters = HashMap::new();
    counters.insert(3, counter("Ethernet", 1_000, 2_000));
    let s = sampler.sample(1, counters, 1_700_000_000_000, secs(0.0)).unwrap();
    assert_eq!((s.down_bps, s.up_bps, s.sampled_at), (0, 0, 1_700_000_000_000));
    assert_eq!(s.adapters, vec!["Ethernet".to_string()]);
    assert_eq!(sampler.last_at, Some(1));
}

#[test]
fn second_sample_divides_by_elapsed_seconds() {
    let mut sampler: SummarySampler<u32> = SummarySampler::new();
    let mut first = HashMap::new();
    first.insert(3, counter("Ethernet", 1_000, 2_000));
    sampler.sample(1, first, 10, secs(0.0)).unwrap();
    let mut second = HashMap::new();
    second.insert(3, counter("Ethernet", 126_000, 2_500));
    let s = sampler.sample(2, second, 20, secs(0.5)).unwrap();
    assert_eq!(s.down_bps, 250_000 * 8);
    assert_eq!(s.up_bps, 1_000 * 8);
    assert_eq!(s.sampled_at, 20);
}

#[test]
fn elapsed_time_below_half_a_second_counts_as_half() {
    let mut sampler: SummarySampler<u32> = SummarySampler::new();
    let mut first = HashMap::new();
    first.insert(1, counter("wlan", 0, 0));
    sampler.sample(1, first, 0, secs(0.0)).unwrap();
    let mut second = HashMap::new();
    second.insert(1, counter("wlan", 100, 0));
    let s = sampler.sample(2, second, 0, secs(0.01)).unwrap();
    assert_eq!(s.down_bps, 1_600);
}

#[test]
fn counters_going_back_count_nothing() {
    let mut sampler: SummarySampler<u32> = SummarySampler::new();
    let mut first = HashMap::new();
    first.insert(1, counter("a", 5_000, 5_000));
    sampler.sample(1, first, 0, secs(0.0)).unwrap();
    let mut second = HashMap::new();
    second.insert(1, counter("a", 10, 6_000));
    second.insert(2, counter("b", 9_999, 9_999));
    let s = sampler.sample(2, second, 0, secs(1.0)).unwrap();
    assert_eq!((s.down_bps, s.up_bps), (0, 8_000));
    let mut adapters = s.adapters.clone();
    adapters.sort();
    assert_eq!(adapters, vec!["a".to_string(), "b".to_string()]);
}

#[test]
fn rates_match_binary64_arithmetic() {
    let mut x: u64 = 0x0123_4567_89AB_CDEF;
    let mut sampler: SummarySampler<u32> = SummarySampler::new();
    let mut last: HashMap<u32, InterfaceCounter> = HashMap::new();
    let mut first = true;
    for step in 0..500u32 {
        let mut counters = HashMap::new();
        for index in 0..3u32 {
            x ^= x << 13;
            x ^= x >> 7;
            x ^= x << 17;
            counters.insert(index, counter("if", x % 1_000_000_000_000, (x >> 20) % 1_000_000_000));
        }
        let elapsed = (x % 5_000) as f64 / 1_000.0;
        let mut down = 0u64;
        let mut up = 0u64;
        if !first {
            let e = elapsed.max(0.5);
            for (index, c) in &counters {
                if let Some(p) = last.get(index) {
                    down += ((c.in_octets.saturating_sub(p.in_octets)) as f64 / e) as u64 * 8;
                    up += ((c.out_octets.saturating_sub(p.out_octets)) as f64 / e) as u64 * 8;
                }
            }
        }
        let s = sampler.sample(step, counters.clone(), step as u64, secs(elapsed)).unwrap();
        assert_eq!((s.down_bps, s.up_bps), (down, up), "step {step}");
        last = counters;
        first = false;
    }
}

#[test]
fn overflowing_total_is_refused_and_keeps_state() {
    let mut sampler: SummarySampler<u32> = SummarySampler::new();
    let mut first = HashMap::new();
    first.insert(1, counter("a", 0, 0));
    sampler.sample(1, first, 0, secs(0.0)).unwrap();
    let mut second = HashMap::new();
    second.insert(1, counter("a", u64::MAX, 0));
    assert!(sampler.sample(2, second, 0, secs(0.5)).is_none());
    assert_eq!(sampler.last_at, Some(1));
    assert_eq!(sampler.last_counters.get(&1).unwrap().in_octets, 0);
}

#[test]
fn half_or_more_accepts_finite_values_from_one_half() {
    assert!(half_or_more(0.5f64.to_bits()));
    assert!(half_or_more(1.0f64.to_bits()));
    assert!(half_or_more(f64::MAX.to_bits()));
    assert!(!half_or_more(0.4999f64.to_bits()));
    assert!(!half_or_more(f64::INFINITY.to_bits()));
    assert!(!half_or_more(f64::NAN.to_bits()));
    assert!(!half_or_more((-1.0f64).to_bits()));
    assert!(!half_or_more(0.0f64.to_bits()));
}
