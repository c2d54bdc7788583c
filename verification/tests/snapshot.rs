use bandix_plus::common::{DeviceTrafficKey, InterfaceTrafficKey, IpTrafficKey, TrafficValue};
use bandix_plus::runtime::{DeviceRegistryEntry, MonitorRuntime};
use bandix_plus::recovery::build_recovered_snapshot;
use bandix_plus::snapshot::{
    build_ip_list, build_snapshot, Neighbor, SnapshotInput, TrafficReadings,
};
use bandix_plus::table::Table;
use bandix_plus::topology::{
    index_names, pick_best_neighbor_state, subnet_of, InterfaceInfo, TopologySnapshot,
};

const MAC: [u8; 6] = [0xaa, 0xbb, 0xcc, 0xdd, 0xee, 0xff];
const OTHER: [u8; 6] = [1, 2, 3, 4, 5, 6];

fn info(ifindex: u32, name: &str, zone: &str, cidr: &str) -> InterfaceInfo {
    InterfaceInfo {
        ifindex,
        name: name.to_string(),
        zone: zone.to_string(),
        ipv4_cidrs: vec!["10.9.0.0/16".to_string(), cidr.to_string()],
    }
}

fn topology() -> TopologySnapshot {
    TopologySnapshot {
        interfaces: vec![
            info(1, "br-lan", "Lan", "192.168.1.1/24"),
            info(2, "wan", "Wan", "100.64.0.1/10"),
        ],
    }
}

fn value(bytes: u64) -> TrafficValue {
    TrafficValue { packets: 1, bytes }
}

fn iface_key(ifindex: u32, ip_version: u8, direction: u8) -> InterfaceTrafficKey {
    InterfaceTrafficKey { ifindex, ip_version, direction, _pad: [0; 2] }
}

fn device_key(ifindex: u32, mac: [u8; 6], ip_version: u8, direction: u8) -> DeviceTrafficKey {
    DeviceTrafficKey { ifindex, mac, ip_version, direction }
}

fn ip_key(ifindex: u32, last: u8, direction: u8) -> IpTrafficKey {
    let mut ip_addr = [0u8; 16];
    ip_addr[..4].copy_from_slice(&[192, 168, 1, last]);
    IpTrafficKey { ifindex, ip_version: 4, direction, ip_addr }
}

fn neighbor(dev: &str, mac: [u8; 6], ip: &str, state: &str) -> Neighbor {
    Neighbor { dev: dev.to_string(), mac, ip: ip.to_string(), state: state.to_string() }
}

fn readings(n: u64) -> TrafficReadings {
    TrafficReadings {
        iface: vec![
            (iface_key(1, 4, 1), value(1000 + n)),
            (iface_key(1, 4, 2), value(2000 + n)),
            (iface_key(2, 6, 2), value(3000 + n)),
        ],
        device: vec![
            (device_key(1, MAC, 4, 1), value(100 + n)),
            (device_key(1, OTHER, 4, 1), value(5000 + n)),
            (device_key(2, MAC, 4, 1), value(7)),
        ],
        ip: vec![(ip_key(1, 20, 1), value(10 + n)), (ip_key(1, 20, 2), value(20 + n))],
    }
}

fn neighbors() -> Vec<Neighbor> {
    vec![
        neighbor("br-lan", MAC, "192.168.1.20", "STALE"),
        neighbor("br-lan", MAC, "fe80::1", "REACHABLE"),
        neighbor("br-lan", MAC, "192.168.1.20", "DELAY"),
        neighbor("br-lan", OTHER, "192.168.1.21", ""),
        neighbor("br-lan", [9; 6], "fe80::9", "REACHABLE"),
        neighbor("unknown", [8; 6], "192.168.1.8", "REACHABLE"),
    ]
}

#[test]
fn a_snapshot_and_the_next() {
    let topology = topology();
    let monitored: Vec<String> = Vec::new();
    let neighbors = neighbors();
    let mut names: Table<[u8; 6], String> = Table::new();
    names.put(MAC, "laptop".to_string());
    let mut runtime = MonitorRuntime::new();
    let first = readings(0);
    let input = SnapshotInput {
        readings: &first,
        topology: &topology,
        monitor_ifaces: &monitored,
        neighbors: &neighbors,
        hostname_by_mac: &names,
    };
    let s = build_snapshot(&mut runtime, &input, 1_700_000_000_000);
    assert_eq!(s.timestamp_ms, 1_700_000_000_000);
    assert_eq!(s.interfaces.len(), 2);
    assert_eq!((s.interfaces[0].ifname.as_str(), s.interfaces[0].zone.as_str()), ("br-lan", "lan"));
    assert_eq!(s.interfaces[0].metrics.up_v4_bytes, 1000);
    assert_eq!(s.interfaces[0].metrics.up_v4_bps, 8000);
    assert_eq!(s.interfaces[0].metrics.down_v4_bytes, 2000);
    assert_eq!(s.interfaces[1].metrics.down_v6_bytes, 3000);

    // The device that has sent most comes first; a device needs a version 4 address.
    assert_eq!(s.devices.len(), 2);
    assert_eq!(s.devices[0].mac, "01:02:03:04:05:06");
    assert_eq!((s.devices[0].hostname.as_str(), &s.devices[0].neighbor_state), ("", &None));
    let d = &s.devices[1];
    assert_eq!((d.mac.as_str(), d.hostname.as_str()), ("aa:bb:cc:dd:ee:ff", "laptop"));
    assert_eq!(d.ipv4, vec!["192.168.1.20".to_string()]);
    assert_eq!(d.ipv6, vec!["fe80::1".to_string()]);
    assert_eq!(d.subnet, "192.168.1.1/24");
    assert_eq!(d.neighbor_state.as_deref(), Some("REACHABLE"));
    assert_eq!((d.metrics.up_v4_bytes, d.online, d.last_seen_ms), (100, true, 1_700_000_000_000));

    // Of the counters of an address the last is shown, the total is of all.
    assert_eq!(s.ips.len(), 1);
    assert_eq!((s.ips[0].ip_addr.as_str(), s.ips[0].ifname.as_str()), ("192.168.1.20", "br-lan"));
    assert_eq!((s.ips[0].metrics.up_v4_bytes, s.ips[0].metrics.down_v4_bytes), (0, 20));
    assert_eq!((s.ips[0].cumulative.up_v4_bytes, s.ips[0].cumulative.down_v4_bytes), (10, 20));

    let second = readings(50);
    let input = SnapshotInput { readings: &second, ..input };
    let s = build_snapshot(&mut runtime, &input, 1_700_000_002_000);
    assert_eq!(s.interfaces[0].metrics.up_v4_bytes, 50);
    assert_eq!(s.interfaces[0].metrics.up_v4_bps, 200);
    assert_eq!(s.interfaces[0].cumulative.up_v4_bytes, 1050);
    assert_eq!(s.devices[1].metrics.up_v4_bytes, 50);
    assert_eq!(s.devices[1].cumulative.up_v4_bytes, 150);
    assert_eq!(runtime.last_snapshot_ms, Some(1_700_000_002_000));
    assert_eq!(runtime.cumulative_iface.get(&1).unwrap().up_v4_bytes, 1050);
    assert_eq!(runtime.cumulative_device.get(&(1, MAC)).unwrap().up_v4_bytes, 150);
    let ip = (1, "192.168.1.20".to_string());
    assert_eq!(
        runtime.cumulative_ip.get(&ip).unwrap().down_v4_bytes,
        s.ips[0].cumulative.down_v4_bytes
    );

    // The same readings again add nothing; counters that start again count from zero.
    let s = build_snapshot(&mut runtime, &input, 1_700_000_003_000);
    assert_eq!(s.interfaces[0].metrics.up_v4_bytes, 0);
    assert_eq!(s.interfaces[0].metrics.up_v4_bps, 0);
    let restarted = TrafficReadings {
        iface: vec![(iface_key(1, 4, 1), value(5))],
        device: Vec::new(),
        ip: Vec::new(),
    };
    let input = SnapshotInput { readings: &restarted, ..input };
    let s = build_snapshot(&mut runtime, &input, 1_700_000_003_000);
    assert_eq!(s.interfaces[0].metrics.up_v4_bytes, 5);
    assert_eq!(s.interfaces[0].metrics.up_v4_bps, u64::MAX);
    assert_eq!(s.interfaces[0].cumulative.up_v4_bytes, 1055);
}

#[test]
fn only_watched_interfaces_are_shown() {
    let topology = topology();
    let monitored = vec!["wan".to_string()];
    let neighbors = neighbors();
    let names: Table<[u8; 6], String> = Table::new();
    let mut runtime = MonitorRuntime::new();
    let first = readings(0);
    let input = SnapshotInput {
        readings: &first,
        topology: &topology,
        monitor_ifaces: &monitored,
        neighbors: &neighbors,
        hostname_by_mac: &names,
    };
    let s = build_snapshot(&mut runtime, &input, 5);
    assert_eq!(s.interfaces.len(), 1);
    assert_eq!(s.interfaces[0].ifname, "wan");
    assert!(s.devices.is_empty());
    assert!(s.ips.is_empty());
    assert!(runtime.cumulative_iface.get(&1).is_none());
}

fn entry(hostname: &str) -> DeviceRegistryEntry {
    DeviceRegistryEntry {
        logical_iface: "br-lan".to_string(),
        subnet: "192.168.1.1/24".to_string(),
        ipv4: vec!["192.168.1.20".to_string()],
        ipv6: Vec::new(),
        hostname: hostname.to_string(),
        last_seen_ms: 77,
    }
}

#[test]
fn remembered_names_are_used() {
    let topology = topology();
    let monitored: Vec<String> = Vec::new();
    let neighbors = neighbors();
    let mut names: Table<[u8; 6], String> = Table::new();
    names.put(MAC, String::new());
    let mut runtime = MonitorRuntime::new();
    runtime.device_registry.entries.put((1, MAC), entry("remembered"));
    let first = readings(0);
    let input = SnapshotInput {
        readings: &first,
        topology: &topology,
        monitor_ifaces: &monitored,
        neighbors: &neighbors,
        hostname_by_mac: &names,
    };
    let s = build_snapshot(&mut runtime, &input, 5);
    assert_eq!(s.devices[1].hostname, "remembered");
}

#[test]
fn totals_are_shown_after_a_restart() {
    let topology = topology();
    let monitored: Vec<String> = Vec::new();
    let neighbors = neighbors();
    let names: Table<[u8; 6], String> = Table::new();
    let mut runtime = MonitorRuntime::new();
    runtime.device_registry.entries.put((1, MAC), entry("laptop"));
    let first = readings(0);
    let input = SnapshotInput {
        readings: &first,
        topology: &topology,
        monitor_ifaces: &monitored,
        neighbors: &neighbors,
        hostname_by_mac: &names,
    };
    build_snapshot(&mut runtime, &input, 1_700_000_000_000);
    let s = build_recovered_snapshot(&runtime, &topology);
    assert_eq!(s.timestamp_ms, 1_700_000_000_000);
    assert_eq!(s.interfaces.len(), 2);
    assert_eq!(s.interfaces[0].metrics.up_v4_bytes, 0);
    assert_eq!(s.interfaces[0].cumulative.up_v4_bytes, 1000);
    // Only the device that is remembered is shown, as offline.
    assert_eq!(s.devices.len(), 1);
    let d = &s.devices[0];
    assert_eq!((d.mac.as_str(), d.hostname.as_str()), ("aa:bb:cc:dd:ee:ff", "laptop"));
    assert_eq!((d.online, d.last_seen_ms, d.cumulative.up_v4_bytes), (false, 77, 100));
    assert_eq!((s.ips[0].ip_addr.as_str(), s.ips[0].ip_version), ("192.168.1.20", 4));
    assert_eq!(build_recovered_snapshot(&MonitorRuntime::new(), &topology).timestamp_ms, 0);
}

#[test]
fn addresses_of_both_versions() {
    let topology = topology();
    let mut runtime = MonitorRuntime::new();
    let mut ip_addr = [0u8; 16];
    ip_addr[0] = 0xfe;
    ip_addr[1] = 0x80;
    let v6 = IpTrafficKey { ifindex: 9, ip_version: 6, direction: 1, ip_addr };
    let readings = vec![(v6, value(80)), (ip_key(2, 5, 2), value(9))];
    let items = build_ip_list(&readings, &mut runtime, &Vec::new(), &topology, 1000);
    assert_eq!(items.len(), 2);
    assert_eq!(items[0].ip_addr, "fe80:0000:0000:0000:0000:0000:0000:0000");
    assert_eq!((items[0].ifname.as_str(), items[0].ip_version), ("", 6));
    assert_eq!((items[0].metrics.up_v6_bytes, items[0].metrics.up_v6_bps), (80, 640));
    assert_eq!((items[1].ifname.as_str(), items[1].metrics.down_v4_bytes), ("wan", 9));
    let monitored = vec!["wan".to_string()];
    let items = build_ip_list(&readings, &mut runtime, &monitored, &topology, 1000);
    assert_eq!(items.len(), 1);
}

#[test]
fn interfaces_are_looked_up() {
    let mut t = topology();
    assert_eq!(t.by_ifindex(2).unwrap().name, "wan");
    assert!(t.by_ifindex(3).is_none());
    assert_eq!(t.ifindex_by_name("br-lan"), Some(1));
    assert_eq!(t.ifindex_by_name("br-lan2"), None);
    t.interfaces.push(info(7, "wan", "Wan", ""));
    assert_eq!(t.ifindex_by_name("wan"), Some(2));
    assert_eq!(index_names(&t).get(&"wan".to_string()), Some(&7));
    assert_eq!(subnet_of(&t.interfaces[0].ipv4_cidrs, "10.9.1.1"), "10.9.0.0/16");
    assert_eq!(subnet_of(&t.interfaces[0].ipv4_cidrs, "10.8.1.1"), "");
}

#[test]
fn neighbor_states_are_ranked() {
    assert_eq!(pick_best_neighbor_state("", "STALE"), "STALE");
    assert_eq!(pick_best_neighbor_state("STALE", "REACHABLE"), "REACHABLE");
    assert_eq!(pick_best_neighbor_state("REACHABLE", "STALE"), "REACHABLE");
    assert_eq!(pick_best_neighbor_state("DELAY", "PROBE"), "DELAY");
    assert_eq!(pick_best_neighbor_state("FAILED", "NOARP"), "FAILED");
    assert_eq!(pick_best_neighbor_state("FAILED", ""), "FAILED");
}
