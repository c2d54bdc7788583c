use bandix_plus::bucket::{AggregatedBucket, CurrentHourPointState};
use bandix_plus::calendar::{hourly_bucket_local, LocalCalendar};
use bandix_plus::counters::CounterQuad;
use bandix_plus::histogram::HistogramHistory;
use bandix_plus::keys::DeviceSeriesKey;
use bandix_plus::persistence::{
    join_path, quarantine_name, AppendPlan, PersistedDevicesFile, PersistedPolicyFile,
    PersistenceManager, StateFile,
};
use bandix_plus::ring_files::{
    is_device_name_ok, is_iface_name_ok, use_device_file, use_iface_file, FileUse, RingFile,
};
use bandix_plus::topology::{InterfaceInfo, TopologySnapshot};

fn topology() -> TopologySnapshot {
    let info = |ifindex: u32, name: &str| InterfaceInfo {
        ifindex,
        name: name.to_string(),
        zone: "Lan".to_string(),
        ipv4_cidrs: Vec::new(),
    };
    TopologySnapshot { interfaces: vec![info(3, "eth0"), info(4, "br-lan")] }
}

fn manager() -> PersistenceManager {
    PersistenceManager::new("/var/lib/bandix".to_string())
}

fn bucket(start: u64) -> AggregatedBucket {
    AggregatedBucket { start_ts_ms: start, end_ts_ms: start + 9, ..AggregatedBucket::default() }
}

fn grow(file: &mut Option<Vec<u8>>, plan: AppendPlan) {
    match plan {
        AppendPlan::Fail(e) => panic!("{:?}", e),
        AppendPlan::Write { quarantine: _, create, append } => {
            if let Some(block) = create {
                *file = Some(block);
            }
            let f = file.as_mut().unwrap();
            let at = append.offset as usize;
            if f.len() < at + append.record.len() {
                f.resize(at + append.record.len(), 0);
            }
            f[at..at + append.record.len()].copy_from_slice(&append.record);
            f[..append.header.len()].copy_from_slice(&append.header);
        }
    }
}

#[test]
fn places() {
    let m = manager();
    assert_eq!(m.data_dir(), "/var/lib/bandix");
    assert_eq!(m.policy_path, "/var/lib/bandix/policy_state.json");
    assert_eq!(m.devices_path, "/var/lib/bandix/devices_state.json");
    assert_eq!(m.current_hour_path, "/var/lib/bandix/current_hour_state.json");
    assert_eq!(m.iface_traffic_dir, "/var/lib/bandix/traffic/iface");
    assert_eq!(m.device_traffic_dir, "/var/lib/bandix/traffic/device");
    assert_eq!(join_path("a/", "b"), "a/b");
    assert_eq!(join_path("", "b"), "b");
    assert_eq!(quarantine_name("x.ring", 17), "x.ring.bad.17");
    assert_eq!(m.iface_ring_path("eth0"), "/var/lib/bandix/traffic/iface/65746830.ring");
    assert_eq!(
        m.device_ring_path("eth0", "AA:bb:cc:dd:ee:ff").unwrap(),
        "/var/lib/bandix/traffic/device/65746830-aabbccddeeff.ring"
    );
    assert_eq!(
        m.remove_device_history_file("eth0", "AA:bb:cc:dd:ee:ff").unwrap(),
        "/var/lib/bandix/traffic/device/65746830-aabbccddeeff.ring"
    );
    let e = m.device_ring_path("eth0", "nonsense").unwrap_err();
    assert_eq!(e.message(), "invalid mac for ring path: nonsense");
    assert!(m.append_device_bucket("eth0", "zz", &bucket(1), None, 0).is_err());
}

#[test]
fn schema_versions() {
    let m = manager();
    let (path, file) = m.save_policy_runtime("limits".to_string());
    assert_eq!(path, m.policy_path);
    assert_eq!((file.schema_version, file.state.as_str()), (1, "limits"));
    assert_eq!(m.load_policy_runtime(Some(file)).unwrap().as_deref(), Some("limits"));
    assert!(m.load_policy_runtime::<String>(None).unwrap().is_none());
    let e = m
        .load_policy_runtime(Some(PersistedPolicyFile { schema_version: 2, state: 5u8 }))
        .unwrap_err();
    assert_eq!((e.file, e.version), (StateFile::Policy, 2));
    assert_eq!(
        e.message(),
        "unsupported policy schema version 2 in /var/lib/bandix/policy_state.json"
    );

    let (path, file) = m.save_monitor_runtime(7u8);
    assert_eq!(path, m.devices_path);
    assert_eq!(m.load_monitor_runtime(Some(file)).unwrap(), Some(7));
    assert_eq!(m.load_monitor_runtime::<u8>(None).unwrap(), None);
    let e = m
        .load_monitor_runtime(Some(PersistedDevicesFile { schema_version: 0, state: 5u8 }))
        .unwrap_err();
    assert_eq!(
        e.message(),
        "unsupported devices schema version 0 in /var/lib/bandix/devices_state.json"
    );
}

#[test]
fn running_hour_on_disk() {
    let m = manager();
    let t = topology();
    let now = 1_700_000_000_123u64;
    let (start, _) = hourly_bucket_local(now);
    let points = |n: u64| {
        vec![CurrentHourPointState {
            ts_ms: now,
            metrics: CounterQuad { up_v4_bytes: n, ..CounterQuad::default() },
        }]
    };
    let mut h = HistogramHistory::new();
    h.restore_current_hour_iface_state(3, start, points(5), now);
    h.restore_current_hour_iface_state(99, start, points(6), now);
    h.restore_current_hour_device_state(4, "aa:bb".to_string(), start, points(7), now);
    let (path, file) = m.save_current_hour_histogram(&h, &t);
    assert_eq!(path, m.current_hour_path);
    assert_eq!((file.state.iface.len(), file.state.device.len()), (1, 1));
    assert_eq!(file.state.iface[0].logical_iface, "eth0");
    assert_eq!(file.state.device[0].logical_iface, "br-lan");

    let mut back = HistogramHistory::new();
    m.load_current_hour_histogram(&t, &mut back, now + 1, &Some(file.clone())).unwrap();
    let state = back.export_current_hour_state();
    assert_eq!((state.iface[0].ifindex, state.iface[0].points[0].metrics.up_v4_bytes), (3, 5));
    assert_eq!((state.device[0].ifindex, state.device[0].mac.as_str()), (4, "aa:bb"));

    let mut late = HistogramHistory::new();
    m.load_current_hour_histogram(&t, &mut late, now + 3_600_000, &Some(file.clone())).unwrap();
    assert!(late.export_current_hour_state().iface.is_empty());
    m.load_current_hour_histogram(&t, &mut late, now, &None).unwrap();
    assert!(late.export_current_hour_state().iface.is_empty());

    let mut other = file;
    other.schema_version = 9;
    let e = m.load_current_hour_histogram(&t, &mut late, now, &Some(other)).unwrap_err();
    assert_eq!(
        e.message(),
        "unsupported current-hour schema version 9 in /var/lib/bandix/current_hour_state.json"
    );
}

#[test]
fn history_survives_on_disk() {
    let m = manager();
    let t = topology();
    let mut iface_file: Option<Vec<u8>> = None;
    let mut device_file: Option<Vec<u8>> = None;
    for i in 0..4u64 {
        let len = iface_file.as_ref().map(|f| f.len() as u64).unwrap_or(0);
        let (path, plan) =
            m.append_iface_bucket("eth0", &bucket(i), iface_file.as_deref(), len);
        assert!(path.ends_with("65746830.ring"));
        grow(&mut iface_file, plan);
        let len = device_file.as_ref().map(|f| f.len() as u64).unwrap_or(0);
        let (_, plan) = m
            .append_device_bucket("br-lan", "AA:BB:cc:dd:ee:ff", &bucket(10 + i), device_file.as_deref(), len)
            .unwrap();
        grow(&mut device_file, plan);
    }
    let file = |name: &str, content: &Option<Vec<u8>>| RingFile {
        name: name.to_string(),
        content: content.clone().unwrap(),
    };
    let broken = Some(vec![1u8, 2, 3]);
    let ifaces = vec![
        file("65746830.ring", &iface_file),
        file("65746839.ring", &broken),
        file("zz.ring", &broken),
        file("readme.txt", &broken),
    ];
    let devices = vec![
        file("62722d6c616e-aabbccddeeff.ring", &device_file),
        file("62722d6c616e-aabbccddee.ring", &device_file),
        file("62722d6c616e.ring", &device_file),
        file("62722d6c616e-ffffffffffff.ring", &broken),
        file("61-ffffffffffff.ring", &broken),
    ];
    let mut h = HistogramHistory::new();
    let (bad_ifaces, bad_devices) = m.load_histogram(&t, &mut h, &ifaces, &devices);
    assert_eq!(bad_ifaces, vec!["zz.ring".to_string()]);
    assert_eq!(
        bad_devices,
        vec![
            "62722d6c616e-aabbccddee.ring".to_string(),
            "62722d6c616e.ring".to_string(),
            "62722d6c616e-ffffffffffff.ring".to_string(),
        ]
    );
    let cal = LocalCalendar::new();
    let got = h.query_iface_hourly(3, 0, u64::MAX, &cal);
    assert_eq!(got.iter().map(|b| b.start_ts_ms).collect::<Vec<_>>(), vec![0, 1, 2, 3]);
    let key = DeviceSeriesKey { ifindex: 4, mac: "aa:bb:cc:dd:ee:ff".to_string() };
    let got = h.query_device_hourly(&key, 0, u64::MAX, &cal);
    assert_eq!(got.iter().map(|b| b.start_ts_ms).collect::<Vec<_>>(), vec![10, 11, 12, 13]);
}

#[test]
fn uses_of_files() {
    let t = topology();
    assert!(matches!(use_iface_file("65746830.ring", &t), FileUse::Read(3)));
    assert!(matches!(use_iface_file("65746839.ring", &t), FileUse::Skip));
    assert!(matches!(use_iface_file("6574683.ring", &t), FileUse::Quarantine));
    assert!(matches!(use_iface_file("65746830.tmp", &t), FileUse::Skip));
    match use_device_file("65746830-AABBCCDDEEFF.ring", &t) {
        FileUse::Read(key) => {
            assert_eq!((key.ifindex, key.mac.as_str()), (3, "aa:bb:cc:dd:ee:ff"))
        }
        _ => panic!("not read"),
    }
    assert!(matches!(use_device_file("65746830.ring", &t), FileUse::Quarantine));
    assert!(matches!(use_device_file("zz-aabbccddeeff.ring", &t), FileUse::Quarantine));
    assert!(matches!(use_device_file("61-aabbccddeeff.ring", &t), FileUse::Skip));
    assert!(matches!(use_device_file("65746830-aabb.ring", &t), FileUse::Quarantine));
    assert!(matches!(use_device_file("65746830-aabb.bad", &t), FileUse::Skip));
    assert!(is_iface_name_ok("65746830.ring"));
    assert!(!is_iface_name_ok("ä.ring"));
    assert!(is_iface_name_ok("ä.txt"));
    assert!(!is_device_name_ok("ä-aabbccddeeff.ring"));
    assert!(is_device_name_ok("ä.ring"));
}

#[test]
fn histories_of_several_interfaces_survive() {
    let m = manager();
    let t = topology();
    let file = |iface: &str, mac: Option<&str>, starts: &[u64]| {
        let mut content: Option<Vec<u8>> = None;
        let mut name = String::new();
        for start in starts {
            let len = content.as_ref().map(|f| f.len() as u64).unwrap_or(0);
            let (path, plan) = match mac {
                None => m.append_iface_bucket(iface, &bucket(*start), content.as_deref(), len),
                Some(mac) => m
                    .append_device_bucket(iface, mac, &bucket(*start), content.as_deref(), len)
                    .unwrap(),
            };
            name = path.rsplit('/').next().unwrap().to_string();
            grow(&mut content, plan);
        }
        RingFile { name, content: content.unwrap() }
    };
    let ifaces = vec![
        file("gone", None, &[1, 2]),
        file("br-lan", None, &[3, 4]),
        file("eth0", None, &[5]),
    ];
    let devices = vec![
        file("br-lan", Some("AA:BB:CC:DD:EE:FF"), &[6]),
        file("gone", Some("AA:BB:CC:DD:EE:FF"), &[7]),
        file("eth0", Some("aa:bb:cc:dd:ee:ff"), &[8, 9]),
    ];
    let mut h = HistogramHistory::new();
    let (bad_ifaces, bad_devices) = m.load_histogram(&t, &mut h, &ifaces, &devices);
    assert!(bad_ifaces.is_empty() && bad_devices.is_empty());
    let starts = |v: &Vec<AggregatedBucket>| v.iter().map(|b| b.start_ts_ms).collect::<Vec<_>>();
    let held: Vec<_> = h.iface.completed.entries.iter().map(|e| (e.0, starts(&e.1))).collect();
    assert_eq!(held, vec![(4, vec![3, 4]), (3, vec![5])]);
    let held: Vec<_> = h
        .device
        .completed
        .entries
        .iter()
        .map(|e| (e.0.ifindex, e.0.mac.as_str(), starts(&e.1)))
        .collect();
    assert_eq!(
        held,
        vec![(4, "aa:bb:cc:dd:ee:ff", vec![6]), (3, "aa:bb:cc:dd:ee:ff", vec![8, 9])]
    );
    assert!(h.iface.current.entries.is_empty() && h.device.current.entries.is_empty());
    assert!(h.ip.completed.entries.is_empty() && h.ip.current.entries.is_empty());
}

#[test]
fn running_hours_of_unknown_interfaces_are_left_out() {
    let m = manager();
    let t = topology();
    let point = |ts_ms| CurrentHourPointState { ts_ms, metrics: CounterQuad::default() };
    let now = 1_700_000_000_000u64;
    let hour = hourly_bucket_local(now).0;
    let mut h = HistogramHistory::new();
    for ifindex in [4, 9, 3] {
        h.restore_current_hour_iface_state(ifindex, hour, vec![point(hour)], now);
        let mac = "aa:bb:cc:dd:ee:ff".to_string();
        h.restore_current_hour_device_state(ifindex, mac, hour, vec![point(hour + 1)], now);
        h.restore_current_hour_ip_state(ifindex, "10.0.0.1".to_string(), hour, vec![], now);
    }
    let (_, file) = m.save_current_hour_histogram(&h, &t);
    let mut back = HistogramHistory::new();
    back.restore_iface_bucket(3, bucket(5));
    m.load_current_hour_histogram(&t, &mut back, now, &Some(file)).unwrap();
    let held: Vec<_> = back.iface.current.entries.iter().map(|e| (e.0, e.1 .0)).collect();
    assert_eq!(held, vec![(4, hour), (3, hour)]);
    let held: Vec<_> =
        back.device.current.entries.iter().map(|e| (e.0.ifindex, e.1 .1[0].ts_ms)).collect();
    assert_eq!(held, vec![(4, hour + 1), (3, hour + 1)]);
    assert!(back.ip.current.entries.is_empty());
    assert_eq!(back.iface.completed.entries.len(), 1);
}
