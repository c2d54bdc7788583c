//! The snapshot that is shown after a restart, before counters are read again.
use vstd::prelude::*;

use crate::bucket::{bucket_bytes_total, metrics_of, AggregatedBucket, CurrentHourPointState};
use crate::counters::{bytes_in, quad_total, rate_in, zero_quad, CounterQuad};
use crate::histogram::HistogramModel;
use crate::items::{
    lemma_views_push, text_copies, views, DeviceListItem, DeviceShown, InterfaceOverviewItem,
    InterfaceShown, IpListItem, IpShown, SnapshotData, SnapshotShown,
};
use crate::keys::{DeviceSeriesKey, IpSeriesKey};
use crate::names::{mac_text, mac_to_string};
use crate::runtime::{DeviceMemory, DeviceRegistryEntry, MonitorRuntime, RuntimeModel};
use crate::series::{completed_totals, lemma_totals_of_series, mac_or_zero, running_totals};
use crate::snapshot::{by_upload, law_devices_by_upload, most_upload_first, sort_devices};
use crate::sort::{items_of, law_descending_permutes};
use crate::table::{get, Table};
use crate::text::{has_char, lower, lower_text};
use crate::topology::{interface_at, InterfaceFacts, TopologySnapshot};

verus! {

/// The interfaces that have a total, with that total.
pub open spec fn recovered_interfaces(
    topology: Seq<InterfaceFacts>,
    totals: Seq<(u32, CounterQuad)>,
) -> Seq<InterfaceShown>
    decreases topology.len(),
{
    if topology.len() == 0 {
        Seq::empty()
    } else {
        let before = recovered_interfaces(topology.drop_last(), totals);
        let iface = topology.last();
        match get(totals, iface.ifindex) {
            Some(total) => before.push(
                InterfaceShown {
                    ifindex: iface.ifindex,
                    ifname: iface.name,
                    zone: lower(iface.zone),
                    metrics: zero_quad(),
                    cumulative: total,
                },
            ),
            None => before,
        }
    }
}

/// The devices that are remembered, of those that have a total, with that total.
pub open spec fn recovered_devices(
    totals: Seq<((u32, Seq<u8>), CounterQuad)>,
    devices: Seq<((u32, Seq<u8>), DeviceMemory)>,
) -> Seq<DeviceShown>
    decreases totals.len(),
{
    if totals.len() == 0 {
        Seq::empty()
    } else {
        let before = recovered_devices(totals.drop_last(), devices);
        let ((ifindex, mac), total) = totals.last();
        match get(devices, (ifindex, mac)) {
            Some(known) => before.push(
                DeviceShown {
                    ifindex,
                    logical_iface: known.logical_iface,
                    subnet: known.subnet,
                    ipv4: known.ipv4,
                    ipv6: known.ipv6,
                    mac: mac_text(mac),
                    hostname: known.hostname,
                    metrics: zero_quad(),
                    cumulative: total,
                    online: false,
                    last_seen_ms: known.last_seen_ms,
                    neighbor_state: None,
                },
            ),
            None => before,
        }
    }
}

/// The addresses behind known interfaces, of those that have a total, with that total.
pub open spec fn recovered_ips(
    totals: Seq<((u32, Seq<char>), CounterQuad)>,
    topology: Seq<InterfaceFacts>,
) -> Seq<IpShown>
    decreases totals.len(),
{
    if totals.len() == 0 {
        Seq::empty()
    } else {
        let before = recovered_ips(totals.drop_last(), topology);
        let ((ifindex, ip), total) = totals.last();
        match interface_at(topology, ifindex) {
            Some(info) => before.push(
                IpShown {
                    ifindex,
                    ifname: info.name,
                    ip_addr: ip,
                    ip_version: ip_version_of(ip),
                    metrics: zero_quad(),
                    cumulative: total,
                },
            ),
            None => before,
        }
    }
}

/// The IP version of an address, by its text.
pub open spec fn ip_version_of(text: Seq<char>) -> u8 {
    if text.contains(':') {
        6
    } else {
        4
    }
}

/// The totals of all interfaces.
pub open spec fn iface_totals(h: HistogramModel) -> Seq<(u32, CounterQuad)> {
    running_totals::<u32>(completed_totals::<u32>(h.iface.completed), h.iface.current)
}

/// The totals of all devices.
pub open spec fn device_totals(h: HistogramModel) -> Seq<((u32, Seq<u8>), CounterQuad)> {
    running_totals::<DeviceSeriesKey>(
        completed_totals::<DeviceSeriesKey>(h.device.completed),
        h.device.current,
    )
}

/// The totals of all addresses.
pub open spec fn ip_totals(h: HistogramModel) -> Seq<((u32, Seq<char>), CounterQuad)> {
    running_totals::<IpSeriesKey>(completed_totals::<IpSeriesKey>(h.ip.completed), h.ip.current)
}

/// The snapshot that is shown after a restart: totals from the hourly history, and nothing that
/// was added.
pub open spec fn recovered(m: RuntimeModel, topology: Seq<InterfaceFacts>) -> SnapshotShown {
    SnapshotShown {
        timestamp_ms: match m.last_snapshot_ms {
            Some(ts) => ts,
            None => 0,
        },
        interfaces: recovered_interfaces(topology, iface_totals(m.histogram)),
        devices: most_upload_first(recovered_devices(device_totals(m.histogram), m.devices)),
        ips: recovered_ips(ip_totals(m.histogram), topology),
    }
}

fn recover_interfaces(
    topology: &TopologySnapshot,
    totals: &Table<u32, CounterQuad>,
) -> (r: Vec<InterfaceOverviewItem>)
    ensures
        views(r@) == recovered_interfaces(topology@, totals.model()),
{
    let mut r: Vec<InterfaceOverviewItem> = Vec::new();
    let n = topology.interfaces.len();
    let mut i: usize = 0;
    assert(views(r@) =~= Seq::empty());
    while i < n
        invariant
            i <= n,
            n == topology.interfaces@.len(),
            views(r@) == recovered_interfaces(topology@.take(i as int), totals.model()),
        decreases n - i,
    {
        let iface = &topology.interfaces[i];
        assert(topology@.take(i + 1).drop_last() =~= topology@.take(i as int));
        assert(topology@[i as int] == iface@);
        if let Some(total) = totals.get(&iface.ifindex) {
            let item = InterfaceOverviewItem {
                ifindex: iface.ifindex,
                ifname: iface.name.clone(),
                zone: lower_text(iface.zone.as_str()),
                metrics: CounterQuad::default(),
                cumulative: *total,
            };
            proof {
                lemma_views_push(r@, item);
            }
            r.push(item);
        }
        i += 1;
    }
    assert(topology@.take(i as int) =~= topology@);
    r
}

fn recover_devices(
    totals: &Table<(u32, [u8; 6]), CounterQuad>,
    devices: &Table<(u32, [u8; 6]), DeviceRegistryEntry>,
) -> (r: Vec<DeviceListItem>)
    ensures
        views(r@) == recovered_devices(totals.model(), devices.model()),
{
    let mut r: Vec<DeviceListItem> = Vec::new();
    let n = totals.entries.len();
    let mut i: usize = 0;
    let ghost all = totals.model();
    assert(views(r@) =~= Seq::empty());
    while i < n
        invariant
            i <= n,
            n == totals.entries@.len(),
            all == totals.model(),
            views(r@) == recovered_devices(all.take(i as int), devices.model()),
        decreases n - i,
    {
        let entry = &totals.entries[i];
        assert(all.take(i + 1).drop_last() =~= all.take(i as int));
        assert(all[i as int] == (entry.0@, entry.1));
        if let Some(known) = devices.get(&entry.0) {
            let item = DeviceListItem {
                ifindex: entry.0.0,
                logical_iface: known.logical_iface.clone(),
                subnet: known.subnet.clone(),
                ipv4: text_copies(&known.ipv4),
                ipv6: text_copies(&known.ipv6),
                mac: mac_to_string(&entry.0.1),
                hostname: known.hostname.clone(),
                metrics: CounterQuad::default(),
                cumulative: entry.1,
                online: false,
                last_seen_ms: known.last_seen_ms,
                neighbor_state: None,
            };
            proof {
                lemma_views_push(r@, item);
            }
            r.push(item);
        }
        i += 1;
    }
    assert(all.take(i as int) =~= all);
    r
}

fn recover_ips(
    totals: &Table<(u32, String), CounterQuad>,
    topology: &TopologySnapshot,
) -> (r: Vec<IpListItem>)
    ensures
        views(r@) == recovered_ips(totals.model(), topology@),
{
    let mut r: Vec<IpListItem> = Vec::new();
    let n = totals.entries.len();
    let mut i: usize = 0;
    let ghost all = totals.model();
    assert(views(r@) =~= Seq::empty());
    while i < n
        invariant
            i <= n,
            n == totals.entries@.len(),
            all == totals.model(),
            views(r@) == recovered_ips(all.take(i as int), topology@),
        decreases n - i,
    {
        let entry = &totals.entries[i];
        assert(all.take(i + 1).drop_last() =~= all.take(i as int));
        assert(all[i as int] == (entry.0@, entry.1));
        if let Some(info) = topology.by_ifindex(entry.0.0) {
            let item = IpListItem {
                ifindex: entry.0.0,
                ifname: info.name.clone(),
                ip_addr: entry.0.1.clone(),
                ip_version: if has_char(entry.0.1.as_str(), ':') {
                    6
                } else {
                    4
                },
                metrics: CounterQuad::default(),
                cumulative: entry.1,
            };
            proof {
                lemma_views_push(r@, item);
            }
            r.push(item);
        }
        i += 1;
    }
    assert(all.take(i as int) =~= all);
    r
}

/// The snapshot that is shown after a restart.
pub fn build_recovered_snapshot(
    runtime: &MonitorRuntime,
    topology: &TopologySnapshot,
) -> (snapshot: SnapshotData)
    ensures
        snapshot@ == recovered(runtime@, topology@),
{
    let (iface, device, ip) = runtime.last_snapshot_histogram_state.cumulative_from_all();
    let interfaces = recover_interfaces(topology, &iface);
    let devices = sort_devices(recover_devices(&device, &runtime.device_registry.entries));
    let ips = recover_ips(&ip, topology);
    SnapshotData {
        timestamp_ms: match runtime.last_snapshot_ms {
            Some(ts) => ts,
            None => 0,
        },
        interfaces,
        devices,
        ips,
    }
}

/// Nothing was added.
pub open spec fn adds_nothing(q: CounterQuad) -> bool {
    forall|ip_version: u8, direction: u8|
        #![trigger bytes_in(q, ip_version, direction)]
        bytes_in(q, ip_version, direction) == 0 && rate_in(q, ip_version, direction) == 0
}

/// After a restart an interface is shown where it has a total, in the order of the interfaces,
/// with that total and nothing added.
pub proof fn law_interfaces_are_recovered(
    topology: Seq<InterfaceFacts>,
    totals: Seq<(u32, CounterQuad)>,
)
    ensures
        ({
            let shown = recovered_interfaces(topology, totals);
            let kept = topology.filter(|i: InterfaceFacts| get(totals, i.ifindex) is Some);
            &&& shown.len() == kept.len()
            &&& forall|i: int|
                #![trigger shown[i]]
                0 <= i < shown.len() ==> {
                    &&& shown[i].ifindex == kept[i].ifindex
                    &&& shown[i].ifname == kept[i].name
                    &&& shown[i].zone == lower(kept[i].zone)
                    &&& adds_nothing(shown[i].metrics)
                    &&& get(totals, kept[i].ifindex) == Some(shown[i].cumulative)
                }
        }),
    decreases topology.len(),
{
    reveal(Seq::filter);
    let shown = recovered_interfaces(topology, totals);
    if topology.len() > 0 {
        let init = topology.drop_last();
        law_interfaces_are_recovered(init, totals);
        let before = recovered_interfaces(init, totals);
        assert forall|i: int| 0 <= i < before.len() implies (#[trigger] shown[i]) == before[i] by {}
    }
}

/// After a restart a device is shown where it is remembered and has a total, with what is
/// remembered of it, with that total and nothing added, and as not there.
pub proof fn law_devices_are_recovered(
    totals: Seq<((u32, Seq<u8>), CounterQuad)>,
    devices: Seq<((u32, Seq<u8>), DeviceMemory)>,
)
    ensures
        ({
            let shown = recovered_devices(totals, devices);
            let kept = totals.filter(
                |t: ((u32, Seq<u8>), CounterQuad)| get(devices, t.0) is Some,
            );
            &&& shown.len() == kept.len()
            &&& forall|i: int|
                #![trigger shown[i]]
                0 <= i < shown.len() ==> {
                    let known = get(devices, kept[i].0)->0;
                    &&& shown[i].ifindex == kept[i].0.0
                    &&& shown[i].mac == mac_text(kept[i].0.1)
                    &&& shown[i].logical_iface == known.logical_iface
                    &&& shown[i].subnet == known.subnet
                    &&& shown[i].ipv4 == known.ipv4
                    &&& shown[i].ipv6 == known.ipv6
                    &&& shown[i].hostname == known.hostname
                    &&& shown[i].last_seen_ms == known.last_seen_ms
                    &&& !shown[i].online
                    &&& shown[i].neighbor_state is None
                    &&& adds_nothing(shown[i].metrics)
                    &&& shown[i].cumulative == kept[i].1
                }
        }),
    decreases totals.len(),
{
    reveal(Seq::filter);
    let shown = recovered_devices(totals, devices);
    if totals.len() > 0 {
        let init = totals.drop_last();
        law_devices_are_recovered(init, devices);
        let before = recovered_devices(init, devices);
        assert forall|i: int| 0 <= i < before.len() implies (#[trigger] shown[i]) == before[i] by {}
    }
}

/// After a restart an address is shown where its interface is known and it has a total, under the
/// name of the interface, with that total and nothing added. It is of version 6 where there is a
/// colon in it.
pub proof fn law_addresses_are_recovered(
    totals: Seq<((u32, Seq<char>), CounterQuad)>,
    topology: Seq<InterfaceFacts>,
)
    ensures
        ({
            let shown = recovered_ips(totals, topology);
            let kept = totals.filter(
                |t: ((u32, Seq<char>), CounterQuad)| interface_at(topology, t.0.0) is Some,
            );
            &&& shown.len() == kept.len()
            &&& forall|i: int|
                #![trigger shown[i]]
                0 <= i < shown.len() ==> {
                    &&& shown[i].ifindex == kept[i].0.0
                    &&& shown[i].ip_addr == kept[i].0.1
                    &&& shown[i].ifname == interface_at(topology, kept[i].0.0)->0.name
                    &&& shown[i].ip_version == 6 <==> kept[i].0.1.contains(':')
                    &&& shown[i].ip_version == 4 <==> !kept[i].0.1.contains(':')
                    &&& adds_nothing(shown[i].metrics)
                    &&& shown[i].cumulative == kept[i].1
                }
        }),
    decreases totals.len(),
{
    reveal(Seq::filter);
    let shown = recovered_ips(totals, topology);
    if totals.len() > 0 {
        let init = totals.drop_last();
        law_addresses_are_recovered(init, topology);
        let before = recovered_ips(init, topology);
        assert forall|i: int| 0 <= i < before.len() implies (#[trigger] shown[i]) == before[i] by {}
    }
}

/// The snapshot after a restart has the time of the last one, or none, and shows interfaces by the
/// history of interfaces, devices by that of devices and addresses by that of addresses: the
/// totals of the series that have a running hour are those of its points, the others those of the
/// completed hours.
pub proof fn law_recovered_totals(
    m: RuntimeModel,
    topology: Seq<InterfaceFacts>,
    ifindex: u32,
    address: Seq<char>,
)
    requires
        m.histogram.distinct(),
    ensures
        ({
            let r = recovered(m, topology);
            let h = m.histogram;
            &&& m.last_snapshot_ms matches Some(last) ==> r.timestamp_ms == last
            &&& m.last_snapshot_ms is None ==> r.timestamp_ms == 0
            &&& r.interfaces == recovered_interfaces(topology, iface_totals(h))
            &&& r.ips == recovered_ips(ip_totals(h), topology)
            &&& r.devices.to_multiset() == recovered_devices(
                device_totals(h),
                m.devices,
            ).to_multiset()
            &&& forall|i: int, j: int|
                0 <= i < j < r.devices.len() ==> (
                #[trigger] r.devices[i]).cumulative.up_v4_bytes >= (
                #[trigger] r.devices[j]).cumulative.up_v4_bytes
            &&& get(iface_totals(h), ifindex) == total_in(
                h.iface.completed,
                h.iface.current,
                ifindex,
            )
            &&& get(ip_totals(h), (ifindex, address)) == total_in(
                h.ip.completed,
                h.ip.current,
                (ifindex, address),
            )
        }),
{
    let h = m.histogram;
    lemma_totals_of_series::<u32>(h.iface.completed, h.iface.current, ifindex);
    lemma_totals_of_series::<IpSeriesKey>(h.ip.completed, h.ip.current, (ifindex, address));
    let plain = recovered_devices(device_totals(h), m.devices);
    law_descending_permutes(by_upload(plain));
    assert(items_of(by_upload(plain)) =~= plain);
    law_devices_by_upload(plain);
}

/// The bytes that a series has: those of the points of its running hour, or else those of its
/// completed hours.
pub open spec fn total_in<K>(
    completed: Seq<(K, Seq<AggregatedBucket>)>,
    current: Seq<(K, (u64, Seq<CurrentHourPointState>))>,
    key: K,
) -> Option<CounterQuad> {
    match get(current, key) {
        Some((_, points)) => Some(quad_total(metrics_of(points))),
        None => match get(completed, key) {
            Some(hours) => Some(bucket_bytes_total(hours)),
            None => None,
        },
    }
}


/// The total of a device after a restart is that of its series, where no other series is of a
/// device with the same interface and MAC address.
pub proof fn law_recovered_device_total(h: HistogramModel, key: (u32, Seq<char>))
    requires
        h.distinct(),
        forall|i: int|
            0 <= i < h.device.completed.len() && (#[trigger] h.device.completed[i]).0.0 == key.0
                && mac_or_zero(h.device.completed[i].0.1) == mac_or_zero(key.1)
                ==> h.device.completed[i].0 == key,
        forall|i: int|
            0 <= i < h.device.current.len() && (#[trigger] h.device.current[i]).0.0 == key.0
                && mac_or_zero(h.device.current[i].0.1) == mac_or_zero(key.1)
                ==> h.device.current[i].0 == key,
    ensures
        get(device_totals(h), (key.0, mac_or_zero(key.1))) == total_in(
            h.device.completed,
            h.device.current,
            key,
        ),
{
    lemma_totals_of_series::<DeviceSeriesKey>(h.device.completed, h.device.current, key);
}


} // verus!
