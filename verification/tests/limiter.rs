use bandix_plus::common::{IpVersion, RateBucketValue, RateLimitValue, TrafficDirection, TrafficValue};
use bandix_plus::limiter::{
    consume_device_bucket, consume_iface_bucket, effective_budget, project_budget, refill_bucket,
    sat_mul_u64, should_drop_by_rate_limit, stricter_field, stricter_limit_value,
    tokens_for_window, LimitsFound,
};
use bandix_plus::packet::{
    bump_counter, packet_keys, resolve_ip_version_from_eth, resolve_ip_version_from_l3,
    resolve_ip_version_from_ppp, resolve_packet_meta, synth_mac_from_ipv4, synth_mac_from_ipv6,
    PacketMeta,
};
use bandix_plus::path::{try_bandix_plus, TablesFound};

const NOTHING: LimitsFound = LimitsFound {
    iface_limit: None,
    iface_bucket: None,
    device_global: None,
    device_iface: None,
    device_bucket: None,
};

fn limit(up_v4: u64) -> RateLimitValue {
    RateLimitValue { down_v4_bps: 0, down_v6_bps: 0, up_v4_bps: up_v4, up_v6_bps: 0 }
}

#[test]
fn codes_of_versions_and_directions() {
    assert_eq!((IpVersion::V4.code(), IpVersion::V6.code()), (4, 6));
    assert_eq!((TrafficDirection::Ingress.code(), TrafficDirection::Egress.code()), (1, 2));
}

#[test]
fn budgets_and_tokens() {
    assert_eq!(sat_mul_u64(3, 4), 12);
    assert_eq!(sat_mul_u64(0, u64::MAX), 0);
    assert_eq!(sat_mul_u64(u64::MAX, 2), u64::MAX);
    assert_eq!(sat_mul_u64(1 << 32, 1 << 32), u64::MAX);
    assert_eq!(effective_budget(0), 0);
    assert_eq!(effective_budget(1), 1);
    assert_eq!(effective_budget(100), 95);
    assert_eq!(effective_budget(u64::MAX), u64::MAX / 100);
    assert_eq!(tokens_for_window(0, 5), 0);
    assert_eq!(tokens_for_window(5, 0), 0);
    assert_eq!(tokens_for_window(1_000_000, 100_000_000), 100_000);
    assert_eq!(tokens_for_window(3_500_000_000, 500_000_000), 1_750_000_000);
    assert_eq!(tokens_for_window(u64::MAX, u64::MAX), u64::MAX);
    for (budget, window) in [(999_999_999u64, 999_999_999u64), (7, 1_000_000_000), (u64::MAX, 1)] {
        let share = (budget as u128 * window as u128 / 1_000_000_000) as u64;
        assert_eq!(tokens_for_window(budget, window), share);
    }
}

#[test]
fn refills() {
    let refill = |tokens: u64, last: u64, budget: u64, now: u64, len: u64| {
        let (mut t, mut l) = (tokens, last);
        refill_bucket(&mut t, &mut l, budget, now, len);
        (t, l)
    };
    assert_eq!(refill(5, 100, 1_000_000, 100, 10), (5, 100));
    assert_eq!(refill(5, 100, 1_000_000, 50, 10), (5, 100));
    // Too little time for a token: the time is kept for the next refill.
    assert_eq!(refill(5, 100, 1_000_000, 1_000, 10), (5, 100));
    assert_eq!(refill(5, 100, 1_000_000, 10_000_100, 10), (10_005, 10_000_100));
    assert_eq!(refill(5, 0, 1_000_000, 5_000_000_000, 10), (100_000, 5_000_000_000));
    // A packet that is larger than the burst raises the cap.
    assert_eq!(refill(0, 0, 1_000, 1_000_000_000, 1500), (1_000, 1_000_000_000));
    assert_eq!(refill(900, 0, 1_000, 1_000_000_000, 1500), (1_500, 1_000_000_000));
}

#[test]
fn limits_for_a_direction() {
    let l = RateLimitValue { down_v4_bps: 1, down_v6_bps: 2, up_v4_bps: 3, up_v6_bps: 4 };
    assert_eq!(project_budget(&l, 4, 1), 3);
    assert_eq!(project_budget(&l, 6, 1), 4);
    assert_eq!(project_budget(&l, 4, 2), 1);
    assert_eq!(project_budget(&l, 6, 2), 2);
    assert_eq!(project_budget(&l, 5, 2), 0);
    assert_eq!(project_budget(&l, 4, 3), 0);
}

#[test]
fn stricter_limits_win() {
    assert_eq!(stricter_field(0, 0), 0);
    assert_eq!(stricter_field(0, 7), 7);
    assert_eq!(stricter_field(7, 0), 7);
    assert_eq!(stricter_field(7, 5), 5);
    assert_eq!(stricter_field(5, 7), 5);
    let a = RateLimitValue { down_v4_bps: 0, down_v6_bps: 9, up_v4_bps: 3, up_v6_bps: 0 };
    let b = RateLimitValue { down_v4_bps: 4, down_v6_bps: 8, up_v4_bps: 0, up_v6_bps: 0 };
    let c = RateLimitValue { down_v4_bps: 4, down_v6_bps: 8, up_v4_bps: 3, up_v6_bps: 0 };
    assert_eq!(stricter_limit_value(a, b), c);
    assert_eq!(stricter_limit_value(b, a), c);
}

#[test]
fn buckets_of_an_interface() {
    let (drop, b) = consume_iface_bucket(None, 4, 1, 1_000_000, 1500, 77);
    assert!(!drop);
    assert_eq!(b.up_v4_tokens, 47_500 - 1500);
    assert_eq!((b.up_v6_tokens, b.down_v4_tokens, b.down_v6_tokens), (0, 0, 0));
    assert_eq!((b.up_v4_last_refill_ns, b.down_v6_last_refill_ns), (77, 77));

    let (drop, b) = consume_iface_bucket(None, 6, 2, 1_000, 1500, 77);
    assert!(drop);
    assert_eq!(b.down_v6_tokens, 47);

    let old = RateBucketValue { up_v4_tokens: 100, ..RateBucketValue::default() };
    let (drop, b) = consume_iface_bucket(Some(old), 4, 1, 1_000_000, 100, 0);
    assert_eq!((drop, b.up_v4_tokens), (false, 0));
    let (drop, b) = consume_iface_bucket(Some(old), 4, 1, 1_000_000, 101, 0);
    assert_eq!((drop, b.up_v4_tokens), (true, 100));
}

#[test]
fn buckets_of_a_device() {
    let l = RateLimitValue {
        down_v4_bps: 2_000_000,
        down_v6_bps: 0,
        up_v4_bps: 1_000_000,
        up_v6_bps: 4_000_000,
    };
    let (drop, b) = consume_device_bucket(None, &l, 4, 2, 2_000_000, 500, 9);
    assert!(!drop);
    assert_eq!(b.down_v4_tokens, 95_000 - 500);
    assert_eq!((b.down_v6_tokens, b.up_v4_tokens, b.up_v6_tokens), (0, 47_500, 190_000));
    assert_eq!(b.up_v6_last_refill_ns, 9);
    let (drop, again) = consume_device_bucket(Some(b), &l, 4, 2, 2_000_000, 94_501, 9);
    assert!(drop);
    assert_eq!(again, b);
}

#[test]
fn no_limit_lets_everything_through() {
    let v = should_drop_by_rate_limit(&NOTHING, true, 4, 1, u64::MAX, 1, 2);
    assert!(!v.drop && v.iface_bucket.is_none() && v.device_bucket.is_none());
    let other = LimitsFound {
        iface_limit: Some(limit(0)),
        device_global: Some(limit(0)),
        ..NOTHING
    };
    let v = should_drop_by_rate_limit(&other, true, 4, 1, u64::MAX, 1, 2);
    assert!(!v.drop && v.iface_bucket.is_none() && v.device_bucket.is_none());
}

#[test]
fn limits_of_interface_and_device() {
    let found = LimitsFound {
        iface_limit: Some(limit(1_000)),
        device_global: Some(limit(1_000_000)),
        ..NOTHING
    };
    let v = should_drop_by_rate_limit(&found, true, 4, 1, 1500, 1, 2);
    assert!(v.drop && v.iface_bucket.is_some() && v.device_bucket.is_none());

    let found = LimitsFound {
        iface_limit: Some(limit(1_000_000)),
        device_global: Some(limit(1_000_000)),
        device_iface: Some(limit(1_000)),
        ..NOTHING
    };
    let v = should_drop_by_rate_limit(&found, true, 4, 1, 1500, 1, 2);
    assert!(v.drop);
    assert_eq!(v.iface_bucket.unwrap().up_v4_tokens, 46_000);
    assert_eq!(v.device_bucket.unwrap().up_v4_tokens, 47);
    assert_eq!(v.device_bucket.unwrap().up_v4_last_refill_ns, 2);
    let v = should_drop_by_rate_limit(&found, false, 4, 1, 1500, 1, 2);
    assert!(!v.drop && v.device_bucket.is_none());
}

#[test]
fn a_limit_holds_over_time() {
    let budget = 1_000_000u64;
    let (mut tokens, mut last) = (50_000u64, 0u64);
    let mut through: u128 = 0;
    for i in 0..20_000u64 {
        let now = i * 311_111;
        let len = 64 + (i * 37) % 1437;
        refill_bucket(&mut tokens, &mut last, budget, now, len);
        if tokens >= len {
            tokens -= len;
            through += len as u128;
        }
        let given = 50_000u128 + budget as u128 * last as u128 / 1_000_000_000;
        assert!(through + tokens as u128 <= given);
    }
    assert!(through > 5_000_000);
}

fn ethernet(proto: u16, rest: &[u8]) -> Vec<u8> {
    let mut p = vec![1, 2, 3, 4, 5, 6, 7, 8, 9, 10, 11, 12];
    p.extend_from_slice(&proto.to_be_bytes());
    p.extend_from_slice(rest);
    p
}

#[test]
fn ethernet_frames() {
    let p = ethernet(0x0800, &[]);
    let meta = resolve_packet_meta(&p, 1).unwrap();
    assert_eq!((meta.ip_version, meta.mac), (4, Some([7, 8, 9, 10, 11, 12])));
    let meta = resolve_packet_meta(&p, 2).unwrap();
    assert_eq!((meta.ip_version, meta.mac), (4, Some([1, 2, 3, 4, 5, 6])));
    let meta = resolve_packet_meta(&ethernet(0x86dd, &[]), 1).unwrap();
    assert_eq!(meta.ip_version, 6);
    let meta = resolve_packet_meta(&ethernet(0x8864, &[0x11, 0, 0, 1, 0, 2, 0x00, 0x21]), 1).unwrap();
    assert_eq!((meta.ip_version, meta.mac), (4, Some([7, 8, 9, 10, 11, 12])));
    let meta = resolve_packet_meta(&ethernet(0x8864, &[0x11, 0, 0, 1, 0, 2, 0x00, 0x57]), 1).unwrap();
    assert_eq!(meta.ip_version, 6);
    assert!(resolve_packet_meta(&ethernet(0x8864, &[0x11, 0, 0, 1, 0, 2, 0xc0, 0x21]), 1).is_none());
    assert!(resolve_packet_meta(&ethernet(0x8864, &[0x11, 0, 0, 1, 0, 2, 0x00]), 1).is_none());
    assert!(resolve_packet_meta(&ethernet(0x0806, &[]), 1).is_none());
    assert_eq!(resolve_ip_version_from_eth(&[], 0x0800), Some(4));
    assert_eq!(resolve_ip_version_from_eth(&[], 0x8864), None);
}

#[test]
fn bare_ip_packets() {
    let mut v4 = vec![0x45u8, 0, 0, 0];
    v4.resize(12, 0);
    v4.extend_from_slice(&[10, 0, 0, 9, 8, 8, 8, 8]);
    let meta = resolve_packet_meta(&v4, 1).unwrap();
    assert_eq!((meta.ip_version, meta.mac), (4, Some([2, 0, 10, 0, 0, 9])));
    let meta = resolve_packet_meta(&v4[..15], 1).unwrap();
    assert_eq!((meta.ip_version, meta.mac), (4, None));
    let mut v6 = vec![0x60u8, 0, 0, 0];
    v6.resize(20, 0);
    v6.extend_from_slice(&[1, 2, 3, 4]);
    let meta = resolve_packet_meta(&v6, 2).unwrap();
    assert_eq!((meta.ip_version, meta.mac), (6, Some([2, 1, 1, 2, 3, 4])));
    assert_eq!(synth_mac_from_ipv4(&v4, 0), Some([2, 0, 10, 0, 0, 9]));
    assert_eq!(synth_mac_from_ipv4(&v4, 5), None);
    assert_eq!(synth_mac_from_ipv4(&v4, usize::MAX), None);
    assert_eq!(synth_mac_from_ipv6(&v6, 0), Some([2, 1, 1, 2, 3, 4]));
    assert_eq!(synth_mac_from_ipv6(&v6, 1), None);
    assert_eq!(resolve_ip_version_from_l3(&[0x4f], 0), None);
    assert_eq!(resolve_ip_version_from_l3(&[0x50, 0], 0), None);
    assert!(resolve_packet_meta(&[], 1).is_none());
}

#[test]
fn ppp_packets() {
    let mut p = vec![0x00u8, 0x21, 0x99];
    p.resize(14, 0);
    p.extend_from_slice(&[192, 168, 0, 7]);
    let meta = resolve_packet_meta(&p, 1).unwrap();
    assert_eq!((meta.ip_version, meta.mac), (4, Some([2, 0, 192, 168, 0, 7])));
    assert_eq!(resolve_ip_version_from_ppp(&[0x00, 0x57]), Some(6));
    assert_eq!(resolve_ip_version_from_ppp(&[0xff, 0x03, 0x60, 0x00]), Some(6));
    assert_eq!(resolve_ip_version_from_ppp(&[0xff, 0x03, 0x10, 0x00]), None);
    assert_eq!(resolve_ip_version_from_ppp(&[0xff]), None);
}

#[test]
fn packets_are_counted() {
    assert_eq!(bump_counter(None, 60), TrafficValue { packets: 1, bytes: 60 });
    let old = TrafficValue { packets: 4, bytes: u64::MAX - 1 };
    assert_eq!(bump_counter(Some(old), 60), TrafficValue { packets: 5, bytes: u64::MAX });

    let meta = PacketMeta { ip_version: 4, mac: Some([1, 2, 3, 4, 5, 6]) };
    let found = TablesFound { iface_traffic: None, device_traffic: Some(old), limits: NOTHING };
    let free = try_bandix_plus(&found, &meta, 1, 1500, 5, 6);
    assert!(!free.rate.drop);
    assert_eq!(free.iface_traffic, TrafficValue { packets: 1, bytes: 1500 });
    assert_eq!(free.device_traffic, Some(TrafficValue { packets: 5, bytes: u64::MAX }));
    let strict = TablesFound {
        limits: LimitsFound { iface_limit: Some(limit(1)), ..NOTHING },
        ..found
    };
    let dropped = try_bandix_plus(&strict, &meta, 1, 1500, 5, 6);
    assert!(dropped.rate.drop);
    assert_eq!(dropped.iface_traffic, free.iface_traffic);
    assert_eq!(dropped.device_traffic, free.device_traffic);
    let unknown = PacketMeta { ip_version: 4, mac: None };
    assert!(try_bandix_plus(&found, &unknown, 1, 1500, 5, 6).device_traffic.is_none());
}

#[test]
fn keys_of_a_packet() {
    let meta = PacketMeta { ip_version: 6, mac: Some([1, 2, 3, 4, 5, 6]) };
    let keys = packet_keys(9, &meta, 2);
    assert_eq!((keys.iface.ifindex, keys.iface.ip_version, keys.iface.direction), (9, 6, 2));
    assert_eq!(keys.iface_limit.ifindex, 9);
    let d = keys.device.unwrap();
    assert_eq!((d.traffic.ifindex, d.traffic.mac), (9, [1, 2, 3, 4, 5, 6]));
    assert_eq!((d.traffic.ip_version, d.traffic.direction), (6, 2));
    assert_eq!((d.global_limit.mac, d.global_limit._pad), ([1, 2, 3, 4, 5, 6], [0, 0]));
    assert_eq!((d.iface_limit.ifindex, d.iface_limit.mac), (9, [1, 2, 3, 4, 5, 6]));
    assert!(packet_keys(9, &PacketMeta { mac: None, ..meta }, 2).device.is_none());
}
