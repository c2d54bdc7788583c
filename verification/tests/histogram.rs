use bandix_plus::bucket::{AggregatedBucket, CurrentHourPointState, HistoryDirection, HistoryTrafficType};
use bandix_plus::calendar::{daily_bucket_local, hourly_bucket_local, LocalCalendar};
use bandix_plus::counters::CounterQuad;
use bandix_plus::daily::{merge_buckets_to_daily, AggregateBucket};
use bandix_plus::histogram::{update_histogram_state, update_histogram_state_in, HistogramHistory};
use bandix_plus::history::{
    normalize_current_hour_points, normalize_points_in, trim_histogram_completed, TrafficHistory,
};
use bandix_plus::items::{
    DeviceListItem, HistoryPoint, InterfaceOverviewItem, IpListItem, SnapshotData,
};
use bandix_plus::keys::{DeviceSeriesKey, IpSeriesKey};
use bandix_plus::table::Table;
use std::collections::VecDeque;

const HOUR: u64 = 3_600_000;

fn bytes(n: u64) -> CounterQuad {
    CounterQuad { up_v4_bps: n * 8, up_v4_bytes: n, ..CounterQuad::default() }
}

fn iface(ifindex: u32, n: u64) -> InterfaceOverviewItem {
    InterfaceOverviewItem {
        ifindex,
        ifname: "eth0".to_string(),
        zone: "lan".to_string(),
        metrics: bytes(n),
        cumulative: bytes(n + 1000),
    }
}

fn device(ifindex: u32, mac: &str, n: u64) -> DeviceListItem {
    DeviceListItem {
        ifindex,
        logical_iface: "eth0".to_string(),
        subnet: String::new(),
        ipv4: Vec::new(),
        ipv6: Vec::new(),
        mac: mac.to_string(),
        hostname: String::new(),
        metrics: bytes(n),
        cumulative: bytes(n + 1000),
        online: true,
        last_seen_ms: 0,
        neighbor_state: None,
    }
}

fn address(ifindex: u32, ip: &str, n: u64) -> IpListItem {
    IpListItem {
        ifindex,
        ifname: "eth0".to_string(),
        ip_addr: ip.to_string(),
        ip_version: 4,
        metrics: bytes(n),
        cumulative: bytes(n + 1000),
    }
}

fn snapshot(ts: u64, n: u64) -> SnapshotData {
    SnapshotData {
        timestamp_ms: ts,
        interfaces: vec![iface(1, n)],
        devices: vec![device(1, "aabbccddeeff", n + 1)],
        ips: vec![address(1, "10.0.0.1", n + 2)],
    }
}

fn bucket(start: u64, n: u64) -> AggregatedBucket {
    AggregatedBucket {
        start_ts_ms: start,
        end_ts_ms: start + HOUR - 1,
        up_v4_bytes: n,
        up_v4_bps_avg: n,
        ..AggregatedBucket::default()
    }
}

fn starts(v: &[AggregatedBucket]) -> Vec<u64> {
    v.iter().map(|b| b.start_ts_ms).collect()
}

#[test]
fn hours_are_completed() {
    let cal = LocalCalendar::new();
    let mut h = HistogramHistory::new();
    update_histogram_state_in(&mut h, &snapshot(10 * HOUR + 5, 10), &cal);
    update_histogram_state_in(&mut h, &snapshot(10 * HOUR + 9, 20), &cal);
    update_histogram_state_in(&mut h, &snapshot(11 * HOUR + 1, 40), &cal);

    let got = h.query_iface_hourly(1, 0, u64::MAX, &cal);
    assert_eq!(starts(&got), vec![10 * HOUR, 11 * HOUR]);
    assert_eq!((got[0].up_v4_bytes, got[1].up_v4_bytes), (30, 40));
    assert_eq!(got[0].end_ts_ms, 11 * HOUR - 1);
    assert_eq!((got[0].up_v4_bps_avg, got[0].up_v4_bps_min, got[0].up_v4_bps_max), (120, 80, 160));

    let key = DeviceSeriesKey { ifindex: 1, mac: "aabbccddeeff".to_string() };
    let got = h.query_device_hourly(&key, 0, u64::MAX, &cal);
    assert_eq!((got[0].up_v4_bytes, got[1].up_v4_bytes), (32, 41));
    let key = IpSeriesKey { ifindex: 1, ip: "10.0.0.1".to_string() };
    let got = h.query_ip_hourly(&key, 0, u64::MAX, &cal);
    assert_eq!((got[0].up_v4_bytes, got[1].up_v4_bytes), (34, 42));
    assert!(h.query_iface_hourly(2, 0, u64::MAX, &cal).is_empty());
}

#[test]
fn ranges_cut_at_overlap() {
    let cal = LocalCalendar::new();
    let mut h = HistogramHistory::new();
    for i in [3u64, 1, 2] {
        h.restore_iface_bucket(7, bucket(i * HOUR, i));
    }
    assert_eq!(
        starts(&h.query_iface_hourly(7, 0, u64::MAX, &cal)),
        vec![HOUR, 2 * HOUR, 3 * HOUR]
    );
    assert_eq!(
        starts(&h.query_iface_hourly(7, 2 * HOUR - 1, 2 * HOUR - 1, &cal)),
        vec![HOUR]
    );
    assert_eq!(
        starts(&h.query_iface_hourly(7, 2 * HOUR, 3 * HOUR, &cal)),
        vec![2 * HOUR, 3 * HOUR]
    );
    assert!(h.query_iface_hourly(7, 4 * HOUR, u64::MAX, &cal).is_empty());
}

#[test]
fn days_merge_their_hours() {
    let cal = LocalCalendar::new();
    let mut h = HistogramHistory::new();
    for i in 20u64..30 {
        h.restore_ip_bucket(7, "10.0.0.1".to_string(), bucket(i * HOUR, i));
    }
    let key = IpSeriesKey { ifindex: 7, ip: "10.0.0.1".to_string() };
    let days = h.query_ip_daily(&key, 0, u64::MAX, &cal);
    assert_eq!(starts(&days), vec![0, 24 * HOUR]);
    assert_eq!(days[0].end_ts_ms, 24 * HOUR - 1);
    assert_eq!(days[0].up_v4_bytes, 20 + 21 + 22 + 23);
    assert_eq!(days[1].up_v4_bytes, 24 + 25 + 26 + 27 + 28 + 29);
    assert_eq!((days[0].up_v4_bps_min, days[0].up_v4_bps_max), (20, 23));

    let hourly = h.query_ip_hourly(&key, 0, u64::MAX, &cal);
    let sum = |v: &[AggregatedBucket]| v.iter().map(|b| b.up_v4_bytes).sum::<u64>();
    assert_eq!(sum(&hourly), sum(&days));
    assert!(merge_buckets_to_daily(&Vec::new(), &cal).is_empty());
}

#[test]
fn queries_by_the_clock() {
    let ts = 1_700_000_000_123u64;
    let (start, end) = hourly_bucket_local(ts);
    let mut h = HistogramHistory::new();
    update_histogram_state(&mut h, &snapshot(ts, 10));
    let got = h.query_aggregate(1, None, ts, ts, AggregateBucket::Hourly);
    assert_eq!((got[0].start_ts_ms, got[0].end_ts_ms), (start, end));
    assert_eq!(got[0].up_v4_bytes, 10);
    let got = h.query_aggregate(1, None, ts, ts, AggregateBucket::Daily);
    assert_eq!((got[0].start_ts_ms, got[0].end_ts_ms), daily_bucket_local(start));
    let got = h.query_aggregate(1, Some("aabbccddeeff"), ts, ts, AggregateBucket::Hourly);
    assert_eq!(got[0].up_v4_bytes, 11);
    let got = h.query_aggregate(1, Some("10.0.0.1"), ts, ts, AggregateBucket::Hourly);
    assert_eq!(got[0].up_v4_bytes, 12);
    // A text with colons is taken for an address.
    assert!(h.query_aggregate(1, Some("aa:bb"), ts, ts, AggregateBucket::Hourly).is_empty());
    assert!(h.query_aggregate(1, None, end + 1, u64::MAX, AggregateBucket::Hourly).is_empty());
}

#[test]
fn totals_of_series() {
    let cal = LocalCalendar::new();
    let mut h = HistogramHistory::new();
    h.restore_iface_bucket(1, bucket(HOUR, 5));
    h.restore_iface_bucket(1, bucket(2 * HOUR, 6));
    h.restore_iface_bucket(2, bucket(2 * HOUR, 7));
    h.restore_device_bucket(1, "aa:bb:cc:dd:ee:ff".to_string(), bucket(HOUR, 8));
    h.restore_device_bucket(1, "nonsense".to_string(), bucket(HOUR, 9));
    h.restore_ip_bucket(1, "10.0.0.1".to_string(), bucket(HOUR, 10));
    let (iface, device, ip) = h.cumulative_from_completed();
    assert_eq!(iface.get(&1).unwrap().up_v4_bytes, 11);
    assert_eq!(iface.get(&2).unwrap().up_v4_bytes, 7);
    assert_eq!(iface.get(&1).unwrap().up_v4_bps, 0);
    let mac = [0xaa, 0xbb, 0xcc, 0xdd, 0xee, 0xff];
    assert_eq!(device.get(&(1, mac)).unwrap().up_v4_bytes, 8);
    assert_eq!(device.get(&(1, [0; 6])).unwrap().up_v4_bytes, 9);
    assert_eq!(ip.get(&(1, "10.0.0.1".to_string())).unwrap().up_v4_bytes, 10);

    // The running hour takes the place of the completed ones.
    update_histogram_state_in(&mut h, &snapshot(5 * HOUR, 100), &cal);
    update_histogram_state_in(&mut h, &snapshot(5 * HOUR + 1, 200), &cal);
    let (iface, device, ip) = h.cumulative_from_all();
    assert_eq!(iface.get(&1).unwrap().up_v4_bytes, 300);
    assert_eq!(iface.get(&1).unwrap().up_v4_bps, 2400);
    assert_eq!(iface.get(&2).unwrap().up_v4_bytes, 7);
    assert_eq!(device.get(&(1, mac)).unwrap().up_v4_bytes, 8);
    assert_eq!(device.get(&(1, [0; 6])).unwrap().up_v4_bytes, 302);
    assert_eq!(ip.get(&(1, "10.0.0.1".to_string())).unwrap().up_v4_bytes, 304);
}

#[test]
fn running_hours_are_saved_and_restored() {
    let now = 1_700_000_000_123u64;
    let (start, _) = hourly_bucket_local(now);
    let mut h = HistogramHistory::new();
    update_histogram_state(&mut h, &snapshot(now, 10));
    let saved = h.export_current_hour_state();
    assert_eq!((saved.iface.len(), saved.device.len(), saved.ip.len()), (1, 1, 1));
    assert_eq!(saved.iface[0].hour_start_ts_ms, start);
    assert_eq!(saved.device[0].mac, "aabbccddeeff");
    assert_eq!(saved.ip[0].ip, "10.0.0.1");

    let mut back = HistogramHistory::new();
    for s in saved.iface.clone() {
        back.restore_current_hour_iface_state(s.ifindex, s.hour_start_ts_ms, s.points, now + 1);
    }
    for s in saved.device.clone() {
        back.restore_current_hour_device_state(
            s.ifindex,
            s.mac,
            s.hour_start_ts_ms,
            s.points,
            now + 1,
        );
    }
    for s in saved.ip.clone() {
        back.restore_current_hour_ip_state(s.ifindex, s.ip, s.hour_start_ts_ms, s.points, now + 1);
    }
    let again = back.export_current_hour_state();
    assert_eq!(again.iface[0].points[0].metrics.up_v4_bytes, 10);
    assert_eq!(again.device[0].points[0].metrics.up_v4_bytes, 11);
    assert_eq!(again.ip[0].points[0].metrics.up_v4_bytes, 12);

    let mut late = HistogramHistory::new();
    for s in saved.iface {
        late.restore_current_hour_iface_state(s.ifindex, s.hour_start_ts_ms, s.points, now + HOUR);
    }
    assert!(late.export_current_hour_state().iface.is_empty());
}

fn point(ts: u64, n: u64) -> CurrentHourPointState {
    CurrentHourPointState { ts_ms: ts, metrics: bytes(n) }
}

#[test]
fn saved_points_are_put_in_order() {
    let points = vec![point(130, 1), point(110, 2), point(130, 3), point(99, 4), point(201, 5)];
    let (start, got) = normalize_points_in(100, &points, (100, 200)).unwrap();
    assert_eq!(start, 100);
    let seen: Vec<(u64, u64)> = got.iter().map(|p| (p.ts_ms, p.metrics.up_v4_bytes)).collect();
    assert_eq!(seen, vec![(110, 2), (130, 1)]);
    assert_eq!(got[0].cumulative.up_v4_bytes, 0);
    assert!(normalize_points_in(101, &points, (100, 200)).is_none());
    assert!(normalize_points_in(100, &vec![point(99, 4)], (100, 200)).is_none());

    let now = 1_700_000_000_123u64;
    let (hour, _) = hourly_bucket_local(now);
    let (_, got) = normalize_current_hour_points(hour, vec![point(now, 7)], now).unwrap();
    assert_eq!(got.len(), 1);
    assert!(normalize_current_hour_points(hour + 1, vec![point(now, 7)], now).is_none());
}

#[test]
fn history_keeps_recent_points() {
    let mut h = TrafficHistory::new(3);
    for i in 0..5u64 {
        h.ingest_snapshot(&snapshot(i, 10 * i));
    }
    let got = h.query_iface(1, HistoryTrafficType::All, HistoryDirection::Both);
    assert_eq!(got.iter().map(|s| s.ts_ms).collect::<Vec<_>>(), vec![2, 3, 4]);
    assert_eq!((got[2].up_v4_bytes, got[2].up_v4_bps), (40, 320));
    assert_eq!(got[2].up_v4_bytes_cumulative, 1040);
    assert!(h.query_iface(9, HistoryTrafficType::All, HistoryDirection::Both).is_empty());
    let got = h.query_ip(Some(1), "10.0.0.1", HistoryTrafficType::All, HistoryDirection::Both);
    assert_eq!(got.iter().map(|s| s.up_v4_bytes).collect::<Vec<_>>(), vec![22, 32, 42]);
    let mut none = TrafficHistory::default();
    none.ingest_snapshot(&snapshot(1, 1));
    assert!(none.query_iface(1, HistoryTrafficType::All, HistoryDirection::Both).is_empty());
}

#[test]
fn history_of_a_device_on_several_interfaces() {
    let mut h = TrafficHistory::new(10);
    let mut s = snapshot(5, 1);
    s.devices = vec![device(1, "aa:bb", 10), device(2, "AA:BB", 100), device(2, "cc:dd", 7)];
    h.ingest_snapshot(&s);
    let mut s = snapshot(3, 1);
    s.devices = vec![device(2, "AA:BB", 1)];
    h.ingest_snapshot(&s);
    let all = HistoryTrafficType::All;
    let got = h.query_device(None, "aA:bB", all, HistoryDirection::Both);
    let seen: Vec<(u64, u64, u64)> =
        got.iter().map(|s| (s.ts_ms, s.up_v4_bytes, s.up_v4_bytes_cumulative)).collect();
    assert_eq!(seen, vec![(3, 1, 1001), (5, 110, 2110)]);
    let got = h.query_device(Some(1), "aa:bb", all, HistoryDirection::Both);
    assert_eq!(got.len(), 1);
    assert_eq!(got[0].up_v4_bytes, 10);
    assert!(h.query_device(Some(3), "aa:bb", all, HistoryDirection::Both).is_empty());
    assert!(h.query_device(None, "aa:bc", all, HistoryDirection::Both).is_empty());
}

#[test]
fn queues_are_trimmed() {
    let mut q: VecDeque<u32> = (0..6).collect();
    trim_histogram_completed(&mut q, 4);
    assert_eq!(q, VecDeque::from(vec![2, 3, 4, 5]));
    trim_histogram_completed(&mut q, 9);
    assert_eq!(q.len(), 4);
    trim_histogram_completed(&mut q, 0);
    assert!(q.is_empty());
    let p = HistoryPoint { ts_ms: 1, metrics: bytes(1), cumulative: bytes(2) };
    let mut q: VecDeque<HistoryPoint> = VecDeque::from(vec![p, HistoryPoint { ts_ms: 2, ..p }]);
    bandix_plus::history::trim_history_queue(&mut q, 1);
    assert_eq!(q[0].ts_ms, 2);
}

#[test]
fn tables_hold_the_last_value() {
    let mut t: Table<u32, u64> = Table::new();
    t.put(5, 50);
    t.put(6, 60);
    t.put(5, 51);
    assert_eq!(t.get(&5), Some(&51));
    assert_eq!(t.get(&6), Some(&60));
    assert_eq!(t.get(&7), None);
    assert_eq!(t.find(&6), Some(1));
    *t.slot(7, 70) += 1;
    *t.slot(5, 0) += 1;
    assert_eq!(t.entries, vec![(5, 52), (6, 60), (7, 71)]);
}

#[test]
fn every_byte_is_answered_for() {
    let cal = LocalCalendar::new();
    let mut h = HistogramHistory::new();
    let mut sums = [0u64; 3];
    for i in 0..200u64 {
        let mut s = snapshot(i * 700_000, i);
        s.interfaces.push(iface(2, 1));
        update_histogram_state_in(&mut h, &s, &cal);
        sums[0] += i;
        sums[1] += i + 1;
        sums[2] += i + 2;
    }
    let total = |v: Vec<AggregatedBucket>| v.iter().map(|b| b.up_v4_bytes).sum::<u64>();
    let device = DeviceSeriesKey { ifindex: 1, mac: "aabbccddeeff".to_string() };
    let ip = IpSeriesKey { ifindex: 1, ip: "10.0.0.1".to_string() };
    assert_eq!(total(h.query_iface_hourly(1, 0, u64::MAX, &cal)), sums[0]);
    assert_eq!(total(h.query_iface_daily(1, 0, u64::MAX, &cal)), sums[0]);
    assert_eq!(total(h.query_iface_hourly(2, 0, u64::MAX, &cal)), 200);
    assert_eq!(total(h.query_device_hourly(&device, 0, u64::MAX, &cal)), sums[1]);
    assert_eq!(total(h.query_device_daily(&device, 0, u64::MAX, &cal)), sums[1]);
    assert_eq!(total(h.query_ip_hourly(&ip, 0, u64::MAX, &cal)), sums[2]);

    // The running hour of a series ends with its last point.
    let state = h.export_current_hour_state();
    assert_eq!(state.iface[0].points.last().unwrap().ts_ms, 199 * 700_000);
    assert_eq!(state.iface[0].hour_start_ts_ms, 199 * 700_000 / HOUR * HOUR);
}

#[test]
fn history_over_interfaces_adds_up() {
    let mut h = TrafficHistory::new(10);
    for (ts, list) in [
        (5, vec![address(1, "fe80::a", 10), address(2, "FE80::A", u64::MAX / 8 - 2000)]),
        (3, vec![address(2, "fe80::A", 1)]),
        (9, vec![address(3, "fe80::b", 7), address(1, "fe80::a", 2)]),
    ] {
        let mut s = snapshot(ts, 1);
        s.ips = list;
        h.ingest_snapshot(&s);
    }
    let query = |ifindex: Option<u32>, ip: &str| {
        h.query_ip(ifindex, ip, HistoryTrafficType::All, HistoryDirection::Both)
            .iter()
            .map(|s| (s.ts_ms, s.up_v4_bps, s.up_v4_bytes))
            .collect::<Vec<_>>()
    };
    let all = query(None, "fe80::a");
    assert_eq!(all.iter().map(|s| s.0).collect::<Vec<_>>(), vec![3, 5, 9]);
    for (ts, bps, n) in &all {
        let mut sum = (0u64, 0u64);
        for i in 1..=3 {
            for s in query(Some(i), "fe80::a").iter().filter(|s| s.0 == *ts) {
                sum = (sum.0.saturating_add(s.1), sum.1.saturating_add(s.2));
            }
        }
        assert_eq!((*bps, *n), sum);
    }
    assert_eq!(query(None, "FE80::A"), all);
    assert_eq!(query(Some(2), "Fe80::a"), query(Some(2), "fe80::A"));
}

#[test]
fn each_day_has_its_own_sums() {
    let cal = LocalCalendar::new();
    let mut h = HistogramHistory::new();
    for i in [50u64, 3, 26, 4, 100, 25] {
        h.restore_iface_bucket(7, bucket(i * HOUR, i));
    }
    let hourly = h.query_iface_hourly(7, 4 * HOUR, u64::MAX, &cal);
    let days = h.query_iface_daily(7, 4 * HOUR, u64::MAX, &cal);
    assert_eq!(starts(&days), vec![0, 24 * HOUR, 48 * HOUR, 96 * HOUR]);
    for d in &days {
        assert_eq!((d.start_ts_ms, d.end_ts_ms), cal.day(d.start_ts_ms));
        let of_day = hourly.iter().filter(|b| cal.day(b.start_ts_ms).0 == d.start_ts_ms);
        assert_eq!(d.up_v4_bytes, of_day.map(|b| b.up_v4_bytes).sum::<u64>());
    }
    assert_eq!(days[0].up_v4_bytes, 4);
}

#[test]
fn series_are_held_once() {
    let cal = LocalCalendar::new();
    let mut h = HistogramHistory::new();
    let mut points = TrafficHistory::new(3);
    for i in 0..6u64 {
        let mut s = snapshot(i * HOUR / 2, i);
        s.interfaces.push(iface(2, i));
        s.interfaces.push(iface(1, i));
        update_histogram_state_in(&mut h, &s, &cal);
        points.ingest_snapshot(&s);
        h.restore_iface_bucket(2, bucket(0, 1));
    }
    let keys: Vec<u32> = h.iface.completed.entries.iter().map(|e| e.0).collect();
    assert_eq!(keys, vec![2, 1]);
    let keys: Vec<u32> = h.iface.current.entries.iter().map(|e| e.0).collect();
    assert_eq!(keys, vec![1, 2]);
    assert_eq!((h.device.current.entries.len(), h.ip.completed.entries.len()), (1, 1));
    assert_eq!(points.iface_series.entries.len(), 2);
    assert_eq!((points.device_series.entries.len(), points.ip_series.entries.len()), (1, 1));
}
