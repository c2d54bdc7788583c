use bandix_plus::binary64::{bits_per_second, round_ratio, Binary64};
use bandix_plus::bucket::{
    bps_stats, cumulative_from_buckets, merge_buckets_within, points_to_bucket_until,
    zero_out_quad_for_traffic_type, AggregatedBucket, CurrentHourPointState, HistoryTrafficType,
};
use bandix_plus::counters::{add_quad, delta_bytes, fill_quad, CounterQuad};
use bandix_plus::sort::{sort_descending, sort_keyed, sort_values};

/// A deterministic stream of numbers of all sizes.
fn stream(n: usize) -> Vec<u64> {
    let mut x: u64 = 0x9e37_79b9_7f4a_7c15;
    let mut out = Vec::new();
    for i in 0..n {
        x ^= x << 13;
        x ^= x >> 7;
        x ^= x << 17;
        out.push(x >> (i % 64));
    }
    out
}

#[test]
fn rates_are_those_of_binary64() {
    let bytes = stream(3000);
    let mut times = stream(2999);
    times.reverse();
    for (b, t) in bytes.iter().zip(times.iter()) {
        let sec = (*t as f64) / 1000.0;
        let expected = ((*b as f64) * 8.0 / sec).round() as u64;
        assert_eq!(bits_per_second(*b, *t), expected, "{} bytes in {} ms", b, t);
    }
    for b in [0, 1, 7, 1500, u64::MAX] {
        for t in [0u64, 1, 2, 3, 999, 1000, 1001, 60_000, u64::MAX] {
            let sec = (t as f64) / 1000.0;
            let expected = ((b as f64) * 8.0 / sec).round() as u64;
            assert_eq!(bits_per_second(b, t), expected, "{} bytes in {} ms", b, t);
        }
    }
    assert_eq!(bits_per_second(1000, 1000), 8000);
    assert_eq!(bits_per_second(1, 3000), 3);
}

#[test]
fn ratios_are_those_of_binary64() {
    let sums = stream(3000);
    for (i, s) in sums.iter().enumerate() {
        let n = (i as u64 % 977) + 1;
        assert_eq!(round_ratio(*s, n), (*s as f64 / n as f64).round() as u64);
    }
    assert_eq!(round_ratio(5, 2), 3);
    assert_eq!(round_ratio(u64::MAX, 1), u64::MAX);
    for n in stream(2000) {
        assert_eq!(Binary64::from_u64(n).round_to_u64(), n as f64 as u64);
    }
}

fn stats_by_floats(v: &[u64]) -> (u64, u64, u64, u64) {
    let mut sorted = v.to_vec();
    sorted.sort();
    let sum = v.iter().fold(0u64, |a, b| a.wrapping_add(*b));
    let avg = (sum as f64 / v.len() as f64).round() as u64;
    let p95_idx = ((sorted.len() as f64) * 0.95).floor() as usize;
    let p95 = sorted[p95_idx.min(sorted.len() - 1)];
    (avg, sorted[0], sorted[sorted.len() - 1], p95)
}

#[test]
fn statistics_of_rates() {
    assert_eq!(bps_stats(&[]), (0, 0, 0, 0));
    assert_eq!(bps_stats(&[7]), (7, 7, 7, 7));
    assert_eq!(bps_stats(&[1, 2]), (2, 1, 2, 2));
    assert_eq!(bps_stats(&[10, 0, 5, 5]), (5, 0, 10, 10));
    let twenty: Vec<u64> = (1..=20).rev().collect();
    assert_eq!(bps_stats(&twenty), (11, 1, 20, 20));
    let forty: Vec<u64> = (1..=40).collect();
    assert_eq!(bps_stats(&forty), (21, 1, 40, 39));
    let all = stream(300);
    for n in 1..300 {
        assert_eq!(bps_stats(&all[..n]), stats_by_floats(&all[..n]), "{} values", n);
    }
}

#[test]
fn percentile_position_is_that_of_binary64() {
    for n in 1usize..20_000 {
        let by_floats = (((n as f64) * 0.95).floor() as usize).min(n - 1);
        assert_eq!(n - 1 - (n - 1) / 20, by_floats);
    }
}

#[test]
fn minimum_percentile_maximum_are_ordered() {
    let all = stream(500);
    for n in 1..500 {
        let (_, min, max, p95) = bps_stats(&all[..n]);
        assert!(min <= p95 && p95 <= max);
    }
}

#[test]
fn average_lies_between() {
    let small: Vec<u64> = stream(500).iter().map(|x| x % 1_000_000_007).collect();
    for n in 1..500 {
        let (avg, min, max, _) = bps_stats(&small[..n]);
        assert!(min <= avg && avg <= max);
        let sum: u64 = small[..n].iter().sum();
        assert_eq!(avg, (2 * sum + n as u64) / (2 * n as u64));
    }
    assert_eq!(bps_stats(&[(1 << 53) - 1]).0, (1 << 53) - 1);
    // A sum of more than 53 bits is rounded first.
    assert_eq!(bps_stats(&[(1 << 53) + 1]), (1 << 53, (1 << 53) + 1, (1 << 53) + 1, (1 << 53) + 1));
}

#[test]
fn sorting() {
    assert_eq!(sort_values(&[3, 1, 2, 1]), vec![1, 1, 2, 3]);
    let keyed = vec![(2u64, "a"), (1, "b"), (2, "c"), (0, "d"), (1, "e")];
    assert_eq!(
        sort_keyed(keyed.clone()),
        vec![(0, "d"), (1, "b"), (1, "e"), (2, "a"), (2, "c")]
    );
    assert_eq!(sort_descending(keyed), vec!["a", "c", "b", "e", "d"]);
}

fn quad(n: u64) -> CounterQuad {
    CounterQuad {
        up_v4_bps: n,
        down_v4_bps: n + 1,
        up_v6_bps: n + 2,
        down_v6_bps: n + 3,
        up_v4_bytes: n + 4,
        down_v4_bytes: n + 5,
        up_v6_bytes: n + 6,
        down_v6_bytes: n + 7,
    }
}

fn fields(q: &CounterQuad) -> [u64; 8] {
    [
        q.up_v4_bps,
        q.down_v4_bps,
        q.up_v6_bps,
        q.down_v6_bps,
        q.up_v4_bytes,
        q.down_v4_bytes,
        q.up_v6_bytes,
        q.down_v6_bytes,
    ]
}

#[test]
fn adding_counters() {
    let mut a = quad(10);
    add_quad(&mut a, &quad(100));
    assert_eq!(fields(&a), [110, 112, 114, 116, 118, 120, 122, 124]);
    let mut full = CounterQuad { up_v6_bytes: u64::MAX - 1, ..CounterQuad::default() };
    add_quad(&mut full, &quad(0));
    assert_eq!(full.up_v6_bytes, u64::MAX);

    let (mut ab, mut ba) = (quad(1), quad(u64::MAX - 20));
    add_quad(&mut ab, &quad(u64::MAX - 20));
    add_quad(&mut ba, &quad(1));
    assert_eq!(fields(&ab), fields(&ba));
    let mut left = quad(1);
    add_quad(&mut left, &quad(2));
    add_quad(&mut left, &quad(u64::MAX - 20));
    let mut rest = quad(2);
    add_quad(&mut rest, &quad(u64::MAX - 20));
    let mut right = quad(1);
    add_quad(&mut right, &rest);
    assert_eq!(fields(&left), fields(&right));
}

#[test]
fn counters_that_restart() {
    assert_eq!(delta_bytes(10, 4), 6);
    assert_eq!(delta_bytes(4, 4), 0);
    assert_eq!(delta_bytes(4, 10), 4);
    let readings = [5u64, 5, 9, 100];
    let mut last = 2;
    let mut sum = 0;
    for r in readings {
        sum += delta_bytes(r, last);
        last = r;
    }
    assert_eq!(sum, 98);
}

#[test]
fn filling_counters() {
    let mut q = CounterQuad::default();
    fill_quad(4, 1, &mut q, 100, 1000);
    fill_quad(4, 2, &mut q, 200, 1000);
    fill_quad(6, 1, &mut q, 300, 2000);
    fill_quad(6, 2, &mut q, 400, 500);
    fill_quad(5, 1, &mut q, 999, 1000);
    fill_quad(4, 3, &mut q, 999, 1000);
    assert_eq!(fields(&q), [800, 1600, 1200, 6400, 100, 200, 300, 400]);
    fill_quad(4, 1, &mut q, u64::MAX, 1000);
    assert_eq!(q.up_v4_bytes, u64::MAX);
    assert_eq!(q.up_v4_bps, u64::MAX);
}

#[test]
fn bucket_of_points() {
    let points = vec![
        CurrentHourPointState { ts_ms: 1, metrics: quad(10) },
        CurrentHourPointState { ts_ms: 2, metrics: quad(20) },
        CurrentHourPointState { ts_ms: 3, metrics: quad(60) },
    ];
    let b = points_to_bucket_until(5, 9, &points);
    assert_eq!((b.start_ts_ms, b.end_ts_ms), (5, 9));
    assert_eq!(b.up_v4_bytes, 14 + 24 + 64);
    assert_eq!(b.down_v6_bytes, 17 + 27 + 67);
    assert_eq!((b.up_v4_bps_avg, b.up_v4_bps_min), (30, 10));
    assert_eq!((b.up_v4_bps_max, b.up_v4_bps_p95), (60, 60));
    assert_eq!((b.down_v6_bps_avg, b.down_v6_bps_min, b.down_v6_bps_max), (33, 13, 63));

    let halves: Vec<AggregatedBucket> = vec![
        points_to_bucket_until(5, 9, &points[..1]),
        points_to_bucket_until(5, 9, &points[1..]),
    ];
    assert_eq!(fields(&cumulative_from_buckets(&halves)), fields(&cumulative_from_buckets(&[b])));
}

#[test]
fn bucket_of_a_day() {
    let hour = |start: u64, n: u64| {
        points_to_bucket_until(
            start,
            start + 3_599_999,
            &[CurrentHourPointState { ts_ms: start, metrics: quad(n) }],
        )
    };
    let b = merge_buckets_within((0, 86_399_999), &[hour(0, 100), hour(3_600_000, 300)]);
    assert_eq!((b.start_ts_ms, b.end_ts_ms), (0, 86_399_999));
    assert_eq!(b.up_v4_bytes, 408);
    assert_eq!((b.up_v4_bps_avg, b.up_v4_bps_min, b.up_v4_bps_max), (200, 100, 300));
    let none = merge_buckets_within((1, 2), &[]);
    assert_eq!((none.start_ts_ms, none.end_ts_ms, none.up_v4_bytes), (0, 0, 0));
}

#[test]
fn one_ip_version_alone() {
    let q = quad(1);
    assert_eq!(
        fields(&zero_out_quad_for_traffic_type(q, HistoryTrafficType::All)),
        [1, 2, 3, 4, 5, 6, 7, 8]
    );
    assert_eq!(
        fields(&zero_out_quad_for_traffic_type(q, HistoryTrafficType::Ipv4)),
        [1, 2, 0, 0, 5, 6, 0, 0]
    );
    assert_eq!(
        fields(&zero_out_quad_for_traffic_type(q, HistoryTrafficType::Ipv6)),
        [0, 0, 3, 4, 0, 0, 7, 8]
    );
    let b = points_to_bucket_until(5, 9, &[CurrentHourPointState { ts_ms: 1, metrics: q }]);
    let v4 = b.with_traffic_type(HistoryTrafficType::Ipv4);
    assert_eq!((v4.up_v4_bytes, v4.up_v6_bytes, v4.down_v6_bps_p95), (5, 0, 0));
    assert_eq!((v4.start_ts_ms, v4.end_ts_ms, v4.down_v4_bps_max), (5, 9, 2));
    let v6 = b.with_traffic_type(HistoryTrafficType::Ipv6);
    assert_eq!((v6.up_v4_bytes, v6.up_v6_bytes, v6.up_v4_bps_avg), (0, 7, 0));
    let kept = cumulative_from_buckets(&[v6, v6]);
    let all = cumulative_from_buckets(&[b, b]);
    assert_eq!(
        fields(&kept),
        fields(&zero_out_quad_for_traffic_type(all, HistoryTrafficType::Ipv6))
    );
    assert_eq!(AggregatedBucket::default().up_v4_bytes, 0);
}
