use bandix_plus::api::{
    aggregate, aggregate_in, devices, health, history, ips, overview, parse_bucket,
    parse_direction, parse_period_scope, parse_traffic_type, snapshot, AggregateQuery,
    DevicesQuery, HistoryQuery, OverviewQuery, UsageRankingQuery,
};
use bandix_plus::bucket::{AggregatedBucket, HistoryDirection, HistoryTrafficType};
use bandix_plus::calendar::{hourly_bucket_local, LocalCalendar, PeriodScope};
use bandix_plus::counters::CounterQuad;
use bandix_plus::daily::AggregateBucket;
use bandix_plus::histogram::HistogramHistory;
use bandix_plus::history::TrafficHistory;
use bandix_plus::items::{DeviceListItem, InterfaceOverviewItem, IpListItem, SnapshotData};
use bandix_plus::ranking::{ip_usage_ranking, usage_ranking};
use bandix_plus::runtime::{DeviceRegistryEntry, MonitorRuntime};
use bandix_plus::topology::{InterfaceInfo, TopologySnapshot};

fn topology() -> TopologySnapshot {
    let info = |ifindex: u32, name: &str| InterfaceInfo {
        ifindex,
        name: name.to_string(),
        zone: "Lan".to_string(),
        ipv4_cidrs: Vec::new(),
    };
    TopologySnapshot { interfaces: vec![info(1, "eth0"), info(2, "eth1")] }
}

fn bytes(n: u64) -> CounterQuad {
    CounterQuad { up_v4_bytes: n, down_v6_bytes: 2 * n, ..CounterQuad::default() }
}

fn device(ifindex: u32, mac: &str) -> DeviceListItem {
    DeviceListItem {
        ifindex,
        logical_iface: "eth0".to_string(),
        subnet: String::new(),
        ipv4: Vec::new(),
        ipv6: Vec::new(),
        mac: mac.to_string(),
        hostname: String::new(),
        metrics: bytes(1),
        cumulative: bytes(1000),
        online: true,
        last_seen_ms: 0,
        neighbor_state: None,
    }
}

fn latest() -> SnapshotData {
    SnapshotData {
        timestamp_ms: 9,
        interfaces: vec![InterfaceOverviewItem {
            ifindex: 1,
            ifname: "eth0".to_string(),
            zone: "lan".to_string(),
            metrics: bytes(1),
            cumulative: bytes(1000),
        }],
        devices: vec![device(1, "aabbccddeeff"), device(2, "112233445566")],
        ips: vec![IpListItem {
            ifindex: 1,
            ifname: "eth0".to_string(),
            ip_addr: "10.0.0.1".to_string(),
            ip_version: 4,
            metrics: bytes(1),
            cumulative: bytes(2),
        }],
    }
}

fn bucket(start: u64, n: u64) -> AggregatedBucket {
    AggregatedBucket {
        start_ts_ms: start,
        end_ts_ms: start + 3_599_999,
        up_v4_bytes: n,
        down_v6_bytes: 2 * n,
        ..AggregatedBucket::default()
    }
}

fn text(s: &str) -> Option<String> {
    Some(s.to_string())
}

#[test]
fn words_of_requests() {
    assert_eq!(parse_traffic_type(&None), HistoryTrafficType::All);
    assert_eq!(parse_traffic_type(&text("all")), HistoryTrafficType::All);
    assert_eq!(parse_traffic_type(&text("ipv4")), HistoryTrafficType::Ipv4);
    assert_eq!(parse_traffic_type(&text("ipv6")), HistoryTrafficType::Ipv6);
    assert_eq!(parse_traffic_type(&text("IPV6")), HistoryTrafficType::All);
    assert_eq!(parse_direction(&None), HistoryDirection::Both);
    assert_eq!(parse_direction(&text("both")), HistoryDirection::Both);
    assert_eq!(parse_direction(&text("up")), HistoryDirection::Up);
    assert_eq!(parse_direction(&text("down")), HistoryDirection::Down);
    assert_eq!(parse_direction(&text("left")), HistoryDirection::Both);
    assert_eq!(parse_bucket(&None), Some(AggregateBucket::Hourly));
    assert_eq!(parse_bucket(&text("hourly")), Some(AggregateBucket::Hourly));
    assert_eq!(parse_bucket(&text("daily")), Some(AggregateBucket::Daily));
    assert_eq!(parse_bucket(&text("weekly")), None);
    assert_eq!(parse_period_scope(None), Ok(None));
    assert_eq!(parse_period_scope(Some("")), Ok(None));
    assert_eq!(parse_period_scope(Some("today")), Ok(Some(PeriodScope::Today)));
    assert_eq!(parse_period_scope(Some("yesterday")), Ok(Some(PeriodScope::Yesterday)));
    assert_eq!(parse_period_scope(Some("this_week")), Ok(Some(PeriodScope::ThisWeek)));
    assert_eq!(parse_period_scope(Some("last_week")), Ok(Some(PeriodScope::LastWeek)));
    assert_eq!(parse_period_scope(Some("this_month")), Ok(Some(PeriodScope::ThisMonth)));
    assert_eq!(parse_period_scope(Some("last_month")), Ok(Some(PeriodScope::LastMonth)));
    assert_eq!(parse_period_scope(Some("ever")), Err("unknown period: ever".to_string()));
}

#[test]
fn plain_answers() {
    let e = health();
    assert!(e.ok && e.data == "ok" && e.error.is_none());
    let e = snapshot(&latest());
    assert!(e.ok && e.data.timestamp_ms == 9 && e.data.devices.len() == 2);
    assert_eq!(e.data.interfaces[0].cumulative.up_v4_bytes, 1000);
    let e = ips(&latest());
    assert!(e.ok && e.data[0].ip_addr == "10.0.0.1");
}

#[test]
fn answers_with_history() {
    let t = topology();
    let mut kept = TrafficHistory::new(5);
    kept.ingest_snapshot(&latest());
    let q = |iface: Option<String>, mac: Option<String>| HistoryQuery {
        iface,
        mac,
        traffic_type: None,
        direction: None,
    };
    let e = history(&t, &kept, &q(None, text("aabbccddeeff")));
    assert!(!e.ok && e.data.is_empty());
    assert_eq!(e.error.as_deref(), Some("missing iface param"));
    let e = history(&t, &kept, &q(text("eth7"), None));
    assert_eq!(e.error.as_deref(), Some("unknown iface: eth7"));
    let e = history(&t, &kept, &q(text("eth0"), None));
    assert!(e.ok && e.data[0].up_v4_bytes_cumulative == 1000);
    let e = history(&t, &kept, &q(text("eth0"), text("AABBCCDDEEFF")));
    assert!(e.ok && e.data.len() == 1);
    let e = history(&t, &kept, &q(text("eth1"), text("AABBCCDDEEFF")));
    assert!(e.ok && e.data.is_empty());
}

#[test]
fn answers_with_buckets() {
    let t = topology();
    let cal = LocalCalendar::new();
    let mut h = HistogramHistory::new();
    h.restore_iface_bucket(1, bucket(0, 5));
    h.restore_iface_bucket(1, bucket(3_600_000, 6));
    h.restore_device_bucket(1, "aabbccddeeff".to_string(), bucket(0, 7));
    let q = AggregateQuery {
        iface: text("eth0"),
        mac: None,
        traffic_type: None,
        start_ms: None,
        end_ms: None,
        bucket: None,
    };
    let e = aggregate_in(&t, &h, &q, &cal);
    assert!(e.ok && e.data.len() == 2);
    let e = aggregate(&t, &h, &q);
    assert!(e.ok && e.data.len() == 2);
    assert_eq!((e.data[1].up_v4_bytes, e.data[1].down_v6_bytes), (6, 12));
    let e = aggregate(&t, &h, &AggregateQuery { traffic_type: text("ipv6"), ..q.clone() });
    assert_eq!((e.data[1].up_v4_bytes, e.data[1].down_v6_bytes), (0, 12));
    let e = aggregate(&t, &h, &AggregateQuery { start_ms: Some(3_600_000), ..q.clone() });
    assert_eq!(e.data.len(), 1);
    let e = aggregate(&t, &h, &AggregateQuery { end_ms: Some(3_599_999), ..q.clone() });
    assert_eq!(e.data.len(), 1);
    let e = aggregate(&t, &h, &AggregateQuery { mac: text("aabbccddeeff"), ..q.clone() });
    assert_eq!(e.data[0].up_v4_bytes, 7);
    let e = aggregate_in(&t, &h, &AggregateQuery { bucket: text("daily"), ..q.clone() }, &cal);
    assert_eq!((e.data.len(), e.data[0].up_v4_bytes), (1, 11));

    let e = aggregate(&t, &h, &AggregateQuery { iface: None, ..q.clone() });
    assert_eq!(e.error.as_deref(), Some("missing iface param"));
    let e = aggregate(&t, &h, &AggregateQuery { iface: text("x"), ..q.clone() });
    assert_eq!(e.error.as_deref(), Some("unknown iface: x"));
    let e = aggregate(&t, &h, &AggregateQuery { bucket: text("x"), ..q });
    assert!(!e.ok);
    assert_eq!(e.error.as_deref(), Some("invalid bucket param, expect 'hourly' or 'daily'"));
}

#[test]
fn answers_for_a_period() {
    let t = topology();
    let now = 1_700_000_000_123u64;
    let (start, _) = hourly_bucket_local(now);
    let mut h = HistogramHistory::new();
    h.restore_iface_bucket(1, bucket(start, 5));
    h.restore_iface_bucket(1, bucket(start - 40 * 86_400_000, 50));
    h.restore_device_bucket(1, "aabbccddeeff".to_string(), bucket(start, 7));

    let e = overview(&latest(), &h, &OverviewQuery { period: None }, now).unwrap();
    assert_eq!(e.data[0].cumulative.up_v4_bytes, 1000);
    let e = overview(&latest(), &h, &OverviewQuery { period: text("today") }, now).unwrap();
    assert!(e.ok);
    assert_eq!(e.data[0].cumulative.up_v4_bytes, 5);
    assert_eq!(e.data[0].metrics.up_v4_bytes, 1);
    let e = overview(&latest(), &h, &OverviewQuery { period: text("never") }, now).unwrap();
    assert!(!e.ok && e.data.is_empty());
    assert_eq!(e.error.as_deref(), Some("unknown period: never"));
    let far = i64::MAX as u64;
    assert!(overview(&latest(), &h, &OverviewQuery { period: text("today") }, far).is_none());

    let q = |iface: Option<String>, period: Option<String>| DevicesQuery { iface, period };
    let e = devices(&t, &latest(), &h, &q(None, None), now).unwrap();
    assert_eq!(e.data.len(), 2);
    let e = devices(&t, &latest(), &h, &q(text("eth1"), None), now).unwrap();
    assert_eq!(e.data.len(), 1);
    assert_eq!(e.data[0].mac, "112233445566");
    let e = devices(&t, &latest(), &h, &q(text("eth0"), text("today")), now).unwrap();
    assert_eq!(e.data[0].cumulative.up_v4_bytes, 7);
    let e = devices(&t, &latest(), &h, &q(text("eth9"), text("never")), now).unwrap();
    assert_eq!(e.error.as_deref(), Some("unknown iface: eth9"));
    let e = devices(&t, &latest(), &h, &q(text("eth0"), text("never")), now).unwrap();
    assert_eq!(e.error.as_deref(), Some("unknown period: never"));
}

const RANKING: UsageRankingQuery = UsageRankingQuery {
    iface: None,
    traffic_type: None,
    start_ms: None,
    end_ms: None,
    limit: None,
};

#[test]
fn rankings_of_devices() {
    let t = topology();
    let mut h = HistogramHistory::new();
    h.restore_device_bucket(1, "aa:bb:cc:dd:ee:01".to_string(), bucket(0, 5));
    h.restore_device_bucket(2, "aa:bb:cc:dd:ee:02".to_string(), bucket(0, 9));
    h.restore_device_bucket(7, "aa:bb:cc:dd:ee:03".to_string(), bucket(0, 99));
    let mut runtime = MonitorRuntime::new();
    let carried = &mut runtime.last_snapshot_histogram_state;
    carried.restore_device_bucket(1, "aa:bb:cc:dd:ee:01".to_string(), bucket(0, 1000));
    carried.restore_device_bucket(1, "aa:bb:cc:dd:ee:04".to_string(), bucket(0, 7));
    runtime.device_registry.entries.put(
        (1, [0xaa, 0xbb, 0xcc, 0xdd, 0xee, 1]),
        DeviceRegistryEntry {
            logical_iface: String::new(),
            subnet: String::new(),
            ipv4: vec!["10.0.0.1".to_string()],
            ipv6: Vec::new(),
            hostname: "tv".to_string(),
            last_seen_ms: 0,
        },
    );
    let e = usage_ranking(&t, &h, &runtime, &RANKING);
    let seen: Vec<(&str, u64)> = e.data.iter().map(|i| (i.mac.as_str(), i.total_bytes)).collect();
    assert_eq!(
        seen,
        vec![("aa:bb:cc:dd:ee:02", 27), ("aa:bb:cc:dd:ee:04", 21), ("aa:bb:cc:dd:ee:01", 15)]
    );
    assert_eq!((e.data[2].up_bytes, e.data[2].down_bytes), (5, 10));
    assert_eq!((e.data[2].hostname.as_str(), e.data[2].iface.as_str()), ("tv", "eth0"));
    assert_eq!(e.data[2].ipv4, vec!["10.0.0.1".to_string()]);

    let e = usage_ranking(&t, &h, &runtime, &UsageRankingQuery { iface: text("eth0"), ..RANKING });
    assert_eq!(e.data.len(), 2);
    let q = UsageRankingQuery { traffic_type: text("ipv4"), limit: Some(2), ..RANKING };
    let e = usage_ranking(&t, &h, &runtime, &q);
    assert_eq!(e.data.iter().map(|i| i.total_bytes).collect::<Vec<_>>(), vec![9, 7]);
    let e = usage_ranking(&t, &h, &runtime, &UsageRankingQuery { limit: Some(0), ..RANKING });
    assert_eq!(e.data.len(), 3);
}

#[test]
fn rankings_of_addresses() {
    let t = topology();
    let mut h = HistogramHistory::new();
    h.restore_ip_bucket(1, "10.0.0.1".to_string(), bucket(0, 5));
    h.restore_ip_bucket(2, "fe80::1".to_string(), bucket(0, 9));
    let mut runtime = MonitorRuntime::new();
    let carried = &mut runtime.last_snapshot_histogram_state;
    carried.restore_ip_bucket(1, "10.0.0.1".to_string(), bucket(0, 1000));
    carried.restore_ip_bucket(1, "10.0.0.2".to_string(), bucket(0, 7));
    let e = ip_usage_ranking(&t, &h, &runtime, &RANKING);
    assert!(e.ok);
    let seen: Vec<(&str, u8, u64)> =
        e.data.iter().map(|i| (i.ip.as_str(), i.ip_version, i.total_bytes)).collect();
    assert_eq!(seen, vec![("fe80::1", 6, 27), ("10.0.0.2", 4, 21), ("10.0.0.1", 4, 15)]);
    let q = UsageRankingQuery { iface: text("eth1"), limit: Some(5), ..RANKING };
    let e = ip_usage_ranking(&t, &h, &runtime, &q);
    assert_eq!(e.data.len(), 1);
}

#[test]
fn rankings_keep_what_they_promise() {
    let t = topology();
    let mut h = HistogramHistory::new();
    let mut runtime = MonitorRuntime::new();
    for i in 0..30u64 {
        let mac = format!("aa:bb:cc:dd:ee:{:02x}", i % 10);
        let ifindex = (i % 3) as u32;
        h.restore_device_bucket(ifindex, mac.clone(), bucket(i, i * 37 % 11));
        h.restore_ip_bucket(ifindex, format!("10.0.0.{}", i % 7), bucket(i, i * 17 % 13));
        runtime.last_snapshot_histogram_state.restore_device_bucket(ifindex + 1, mac, bucket(i, i));
    }
    for iface in [None, text("eth0")] {
        let q = UsageRankingQuery { iface: iface.clone(), ..RANKING };
        let all = usage_ranking(&t, &h, &runtime, &q).data;
        assert!(all.windows(2).all(|w| w[0].total_bytes >= w[1].total_bytes));
        let mut names: Vec<_> = all.iter().map(|d| (d.iface.clone(), d.mac.clone())).collect();
        names.sort();
        names.dedup();
        assert_eq!(names.len(), all.len());
        for d in &all {
            assert_eq!(d.total_bytes, d.up_bytes + d.down_bytes);
            assert!(iface.as_ref().map_or(true, |name| *name == d.iface));
        }
        for n in [1usize, 5, all.len(), all.len() + 1] {
            let few = usage_ranking(
                &t,
                &h,
                &runtime,
                &UsageRankingQuery { limit: Some(n), iface: iface.clone(), ..RANKING },
            )
            .data;
            assert_eq!(few.len(), n.min(all.len()));
            assert!(few.iter().zip(&all).all(|(a, b)| a.mac == b.mac && a.iface == b.iface));
        }
        let ips = ip_usage_ranking(&t, &h, &runtime, &q).data;
        assert!(ips.windows(2).all(|w| w[0].total_bytes >= w[1].total_bytes));
        assert!(ips.iter().all(|i| i.total_bytes == i.up_bytes + i.down_bytes));
    }
}
