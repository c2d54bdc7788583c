//! Making a snapshot of the traffic from counters, interfaces and neighbours.
use vstd::prelude::*;

use crate::addr::{key_ip_text, key_ip_to_string};
use crate::binary64::rate_of;
use crate::calendar::LocalCalendar;
use crate::common::{
    DeviceTrafficKey, InterfaceTrafficKey, IpTrafficKey, IpVersion, TrafficDirection, TrafficValue,
};
use crate::counters::{
    bytes_in, capped, is_lane, law_lanes_add, quad_add, rate_in, zero_quad, CounterQuad,
};
use crate::histogram::{calendar_for_points, law_update_stays_distinct, update_histogram_state_in};
use crate::items::{
    text_copies, texts, views, DeviceListItem, DeviceShown, InterfaceOverviewItem, InterfaceShown,
    IpListItem, IpShown, SnapshotData, SnapshotShown,
};
use crate::keys::same_bytes;
use crate::names::{mac_text, mac_to_string};
use crate::runtime::{
    add_to_total, count_reading, counted, gone_up, lane_bytes, lane_rates,
    law_counted_stays_distinct, law_readings_are_counted, DeviceCounter, DeviceMemory,
    DeviceRegistryEntry, IfaceCounter, IpCounter, Ledger, MonitorRuntime, Reading, RuntimeModel,
};
use crate::sort::{
    descending, items_of, keyed_views, law_descending_order, law_descending_permutes,
    lemma_descending_views, sort_descending,
};
use crate::table::{
    get, get_or, is_first, law_put_get, law_put_get_other, law_put_keeps_unique, lemma_absent,
    lemma_occurs, occurs, position, put, unique_keys, Table, TableKey,
};
use crate::text::{has_char, lower, lower_text, same_text};
use crate::topology::{
    better_state, by_index, index_names, interface_at, name_index, pick_best_neighbor_state,
    state_rank, subnet_among, subnet_of, InterfaceFacts, TopologySnapshot,
};

verus! {

/// The counters as they were read, in the order in which they were read.
pub struct TrafficReadings {
    pub iface: Vec<(InterfaceTrafficKey, TrafficValue)>,
    pub device: Vec<(DeviceTrafficKey, TrafficValue)>,
    pub ip: Vec<(IpTrafficKey, TrafficValue)>,
}

/// A neighbour as the kernel lists it.
#[derive(Debug, Clone)]
pub struct Neighbor {
    pub dev: String,
    pub mac: [u8; 6],
    pub ip: String,
    pub state: String,
}

/// Interface, MAC address, IP address and state of a neighbour.
pub type NeighborFacts = (Seq<char>, Seq<u8>, Seq<char>, Seq<char>);

impl View for Neighbor {
    type V = NeighborFacts;

    open spec fn view(&self) -> NeighborFacts {
        (self.dev@, self.mac@, self.ip@, self.state@)
    }
}

/// An interface counter as it was read.
pub open spec fn iface_reading(r: (InterfaceTrafficKey, TrafficValue)) -> Reading<IfaceCounter> {
    (r.0@, (r.0.ip_version, r.0.direction, r.1.bytes))
}

/// A device counter as it was read.
pub open spec fn device_reading(r: (DeviceTrafficKey, TrafficValue)) -> Reading<DeviceCounter> {
    (r.0@, (r.0.ip_version, r.0.direction, r.1.bytes))
}

/// The readings of one interface, in order.
pub open spec fn of_interface(
    s: Seq<(InterfaceTrafficKey, TrafficValue)>,
    ifindex: u32,
) -> Seq<Reading<IfaceCounter>>
    decreases s.len(),
{
    if s.len() == 0 {
        Seq::empty()
    } else {
        let before = of_interface(s.drop_last(), ifindex);
        if s.last().0.ifindex == ifindex {
            before.push(iface_reading(s.last()))
        } else {
            before
        }
    }
}

/// The readings of one device, in order.
pub open spec fn of_device(
    s: Seq<(DeviceTrafficKey, TrafficValue)>,
    ifindex: u32,
    mac: Seq<u8>,
) -> Seq<Reading<DeviceCounter>>
    decreases s.len(),
{
    if s.len() == 0 {
        Seq::empty()
    } else {
        let before = of_device(s.drop_last(), ifindex, mac);
        if s.last().0.ifindex == ifindex && s.last().0.mac@ == mac {
            before.push(device_reading(s.last()))
        } else {
            before
        }
    }
}

/// The interface is to be watched: it is in the list, or the list is empty.
pub open spec fn watched(monitored: Seq<Seq<char>>, name: Seq<char>) -> bool {
    monitored.len() == 0 || monitored.contains(name)
}

/// Whether a text is among some.
fn has_text(v: &Vec<String>, text: &str) -> (r: bool)
    ensures
        r == texts(v@).contains(text@),
{
    let n = v.len();
    let mut i: usize = 0;
    while i < n
        invariant
            i <= n,
            n == v@.len(),
            forall|j: int| 0 <= j < i ==> #[trigger] texts(v@)[j] != text@,
        decreases n - i,
    {
        if same_text(v[i].as_str(), text) {
            assert(texts(v@)[i as int] == text@);
            return true;
        }
        i += 1;
    }
    false
}

/// Whether an interface is to be watched.
fn is_watched(monitored: &Vec<String>, name: &str) -> (r: bool)
    ensures
        r == watched(texts(monitored@), name@),
{
    monitored.len() == 0 || has_text(monitored, name)
}

/// Traffic of the interfaces: what was added since they were last read, and the totals.
pub open spec fn interface_pass(
    topology: Seq<InterfaceFacts>,
    monitored: Seq<Seq<char>>,
    readings: Seq<(InterfaceTrafficKey, TrafficValue)>,
    elapsed_ms: u64,
    ledger: Ledger<IfaceCounter, u32>,
) -> (Ledger<IfaceCounter, u32>, Seq<InterfaceShown>)
    decreases topology.len(),
{
    if topology.len() == 0 {
        (ledger, Seq::empty())
    } else {
        let (before, items) = interface_pass(
            topology.drop_last(),
            monitored,
            readings,
            elapsed_ms,
            ledger,
        );
        let iface = topology.last();
        if !watched(monitored, iface.name) {
            (before, items)
        } else {
            let (prev, metrics) = counted(
                before.prev,
                of_interface(readings, iface.ifindex),
                elapsed_ms,
            );
            let total = quad_add(get_or(before.totals, iface.ifindex, zero_quad()), metrics);
            (
                Ledger { prev, totals: put(before.totals, iface.ifindex, total) },
                items.push(
                    InterfaceShown {
                        ifindex: iface.ifindex,
                        ifname: iface.name,
                        zone: lower(iface.zone),
                        metrics,
                        cumulative: total,
                    },
                ),
            )
        }
    }
}

/// Takes in the counters of the interfaces.
fn watch_interfaces(
    topology: &TopologySnapshot,
    monitored: &Vec<String>,
    readings: &Vec<(InterfaceTrafficKey, TrafficValue)>,
    elapsed_ms: u64,
    prev: &mut Table<InterfaceTrafficKey, u64>,
    totals: &mut Table<u32, CounterQuad>,
) -> (items: Vec<InterfaceOverviewItem>)
    ensures
        (
            Ledger { prev: final(prev).model(), totals: final(totals).model() },
            views(items@),
        ) == interface_pass(
            topology@,
            texts(monitored@),
            readings@,
            elapsed_ms,
            Ledger { prev: old(prev).model(), totals: old(totals).model() },
        ),
{
    let ghost ledger = Ledger { prev: prev.model(), totals: totals.model() };
    let mut items: Vec<InterfaceOverviewItem> = Vec::new();
    let n = topology.interfaces.len();
    let mut i: usize = 0;
    assert(views(items@) =~= Seq::empty());
    while i < n
        invariant
            i <= n,
            n == topology.interfaces@.len(),
            (Ledger { prev: prev.model(), totals: totals.model() }, views(items@))
                == interface_pass(
                topology@.take(i as int),
                texts(monitored@),
                readings@,
                elapsed_ms,
                ledger,
            ),
        decreases n - i,
    {
        let iface = &topology.interfaces[i];
        assert(topology@.take(i + 1).drop_last() =~= topology@.take(i as int));
        assert(topology@[i as int] == iface@);
        if is_watched(monitored, iface.name.as_str()) {
            let ghost before = prev.model();
            let mut metrics = CounterQuad::default();
            let m = readings.len();
            let mut j: usize = 0;
            while j < m
                invariant
                    j <= m,
                    m == readings@.len(),
                    (prev.model(), metrics) == counted(
                        before,
                        of_interface(readings@.take(j as int), iface.ifindex),
                        elapsed_ms,
                    ),
                decreases m - j,
            {
                let (k, v) = readings[j];
                let ghost done = of_interface(readings@.take(j as int), iface.ifindex);
                assert(readings@.take(j + 1).drop_last() =~= readings@.take(j as int));
                if k.ifindex == iface.ifindex {
                    count_reading(
                        prev,
                        k,
                        k.ip_version,
                        k.direction,
                        v.bytes,
                        elapsed_ms,
                        &mut metrics,
                    );
                    assert(done.push(iface_reading((k, v))).drop_last() =~= done);
                }
                j += 1;
            }
            assert(readings@.take(j as int) =~= readings@);
            let cumulative = add_to_total(totals, iface.ifindex, &metrics);
            let item = InterfaceOverviewItem {
                ifindex: iface.ifindex,
                ifname: iface.name.clone(),
                zone: lower_text(iface.zone.as_str()),
                metrics,
                cumulative,
            };
            proof {
                crate::items::lemma_views_push(items@, item);
            }
            items.push(item);
        }
        i += 1;
    }
    assert(topology@.take(i as int) =~= topology@);
    items
}

/// The addresses of a neighbour, version 4 and version 6, and the state that says most of it.
pub struct NeighborGroup {
    pub ipv4: Vec<String>,
    pub ipv6: Vec<String>,
    pub state: String,
}

/// The addresses of a neighbour, version 4 and version 6, and the state that says most of it.
pub type GroupFacts = (Seq<Seq<char>>, Seq<Seq<char>>, Seq<char>);

impl View for NeighborGroup {
    type V = GroupFacts;

    open spec fn view(&self) -> GroupFacts {
        (texts(self.ipv4@), texts(self.ipv6@), self.state@)
    }
}

/// `s` with a text that it does not have yet.
pub open spec fn with_text(s: Seq<Seq<char>>, text: Seq<char>) -> Seq<Seq<char>> {
    if s.contains(text) {
        s
    } else {
        s.push(text)
    }
}

/// A group with one more neighbour.
pub open spec fn joined(g: GroupFacts, n: NeighborFacts) -> GroupFacts {
    if n.2.contains(':') {
        (g.0, with_text(g.1, n.2), better_state(g.2, n.3))
    } else {
        (with_text(g.0, n.2), g.1, better_state(g.2, n.3))
    }
}

/// A group without neighbours.
pub open spec fn empty_group() -> GroupFacts {
    (Seq::empty(), Seq::empty(), Seq::empty())
}

/// Neighbours by interface and MAC address.
pub open spec fn grouped(s: Seq<NeighborFacts>) -> Seq<((Seq<char>, Seq<u8>), GroupFacts)>
    decreases s.len(),
{
    if s.len() == 0 {
        Seq::empty()
    } else {
        let before = grouped(s.drop_last());
        let n = s.last();
        put(before, (n.0, n.1), joined(get_or(before, (n.0, n.1), empty_group()), n))
    }
}

/// Adds a text to some, unless it is among them.
fn add_text(v: &mut Vec<String>, text: &String)
    ensures
        texts(final(v)@) == with_text(texts(old(v)@), text@),
{
    if !has_text(v, text.as_str()) {
        v.push(text.clone());
        assert(texts(v@) =~= texts(old(v)@).push(text@));
    }
}

/// Puts neighbours together by interface and MAC address.
fn group_neighbors(neighbors: &Vec<Neighbor>) -> (r: Table<(String, [u8; 6]), NeighborGroup>)
    ensures
        r.model() == grouped(views(neighbors@)),
{
    let mut r: Table<(String, [u8; 6]), NeighborGroup> = Table::new();
    let n = neighbors.len();
    let mut i: usize = 0;
    let ghost all = views(neighbors@);
    while i < n
        invariant
            i <= n,
            n == neighbors@.len(),
            all == views(neighbors@),
            r.model() == grouped(all.take(i as int)),
        decreases n - i,
    {
        let nb = &neighbors[i];
        assert(all.take(i + 1).drop_last() =~= all.take(i as int));
        assert(all[i as int] == nb@);
        let none = NeighborGroup { ipv4: Vec::new(), ipv6: Vec::new(), state: String::new() };
        assert(none@.0 =~= Seq::empty());
        assert(none@.1 =~= Seq::empty());
        assert(none@.2 =~= Seq::empty());
        let group = r.slot((nb.dev.clone(), nb.mac), none);
        if has_char(nb.ip.as_str(), ':') {
            add_text(&mut group.ipv6, &nb.ip);
        } else {
            add_text(&mut group.ipv4, &nb.ip);
        }
        group.state = pick_best_neighbor_state(group.state.as_str(), nb.state.as_str());
        i += 1;
    }
    assert(all.take(i as int) =~= all);
    r
}

/// The state of a neighbour, where there is one.
pub open spec fn known_state(state: Seq<char>) -> Option<Seq<char>> {
    if state.len() == 0 {
        None
    } else {
        Some(state)
    }
}

/// The name of a device: the one that is given out now, or the one that is remembered.
pub open spec fn device_hostname(
    hostnames: Seq<(Seq<u8>, Seq<char>)>,
    devices: Seq<((u32, Seq<u8>), DeviceMemory)>,
    ifindex: u32,
    mac: Seq<u8>,
) -> Seq<char> {
    let given = get_or(hostnames, mac, Seq::empty());
    if given.len() > 0 {
        given
    } else {
        match get(devices, (ifindex, mac)) {
            Some(d) => d.hostname,
            None => Seq::empty(),
        }
    }
}

/// The interface of a group of neighbours, where it is known and watched.
pub open spec fn group_interface(
    topology: Seq<InterfaceFacts>,
    monitored: Seq<Seq<char>>,
    dev: Seq<char>,
) -> Option<InterfaceFacts> {
    match get(name_index(topology), dev) {
        Some(ifindex) => match interface_at(topology, ifindex) {
            Some(info) => if watched(monitored, info.name) {
                Some(info)
            } else {
                None
            },
            None => None,
        },
        None => None,
    }
}

/// Traffic of the devices that are neighbours, by interface and MAC address: what was added
/// since they were last read, and the totals.
pub open spec fn device_pass(
    groups: Seq<((Seq<char>, Seq<u8>), GroupFacts)>,
    topology: Seq<InterfaceFacts>,
    monitored: Seq<Seq<char>>,
    readings: Seq<(DeviceTrafficKey, TrafficValue)>,
    hostnames: Seq<(Seq<u8>, Seq<char>)>,
    devices: Seq<((u32, Seq<u8>), DeviceMemory)>,
    elapsed_ms: u64,
    now_ms: u64,
    ledger: Ledger<DeviceCounter, (u32, Seq<u8>)>,
) -> (Ledger<DeviceCounter, (u32, Seq<u8>)>, Seq<((u32, Seq<u8>), DeviceShown)>)
    decreases groups.len(),
{
    if groups.len() == 0 {
        (ledger, Seq::empty())
    } else {
        let (before, items) = device_pass(
            groups.drop_last(),
            topology,
            monitored,
            readings,
            hostnames,
            devices,
            elapsed_ms,
            now_ms,
            ledger,
        );
        let ((dev, mac), (ipv4, ipv6, state)) = groups.last();
        match group_interface(topology, monitored, dev) {
            None => (before, items),
            Some(info) => if ipv4.len() == 0 {
                (before, items)
            } else {
                let ifindex = info.ifindex;
                let (prev, metrics) = counted(
                    before.prev,
                    of_device(readings, ifindex, mac),
                    elapsed_ms,
                );
                let total = quad_add(get_or(before.totals, (ifindex, mac), zero_quad()), metrics);
                (
                    Ledger { prev, totals: put(before.totals, (ifindex, mac), total) },
                    put(
                        items,
                        (ifindex, mac),
                        DeviceShown {
                            ifindex,
                            logical_iface: info.name,
                            subnet: subnet_among(info.ipv4_cidrs, ipv4[0]),
                            ipv4,
                            ipv6,
                            mac: mac_text(mac),
                            hostname: device_hostname(hostnames, devices, ifindex, mac),
                            metrics,
                            cumulative: total,
                            online: true,
                            last_seen_ms: now_ms,
                            neighbor_state: known_state(state),
                        },
                    ),
                )
            },
        }
    }
}

/// The name of a device: the one that is given out now, or the one that is remembered.
fn name_device(
    hostnames: &Table<[u8; 6], String>,
    devices: &Table<(u32, [u8; 6]), DeviceRegistryEntry>,
    ifindex: u32,
    mac: &[u8; 6],
) -> (r: String)
    ensures
        r@ == device_hostname(hostnames.model(), devices.model(), ifindex, mac@),
{
    if let Some(given) = hostnames.get(mac) {
        if !same_text(given.as_str(), "") {
            proof {
                reveal_strlit("");
                if given@.len() == 0 {
                    assert(given@ =~= ""@);
                }
            }
            return given.clone();
        }
        proof {
            reveal_strlit("");
        }
    }
    match devices.get(&(ifindex, *mac)) {
        Some(known) => known.hostname.clone(),
        None => {
            let none = String::new();
            assert(none@ =~= Seq::empty());
            none
        },
    }
}

/// Takes in the counters of a device.
fn count_device(
    readings: &Vec<(DeviceTrafficKey, TrafficValue)>,
    ifindex: u32,
    mac: &[u8; 6],
    elapsed_ms: u64,
    prev: &mut Table<DeviceTrafficKey, u64>,
) -> (metrics: CounterQuad)
    ensures
        (final(prev).model(), metrics) == counted(
            old(prev).model(),
            of_device(readings@, ifindex, mac@),
            elapsed_ms,
        ),
{
    let ghost before = prev.model();
    let mut metrics = CounterQuad::default();
    let m = readings.len();
    let mut j: usize = 0;
    while j < m
        invariant
            j <= m,
            m == readings@.len(),
            (prev.model(), metrics) == counted(
                before,
                of_device(readings@.take(j as int), ifindex, mac@),
                elapsed_ms,
            ),
        decreases m - j,
    {
        let (k, v) = readings[j];
        let ghost done = of_device(readings@.take(j as int), ifindex, mac@);
        assert(readings@.take(j + 1).drop_last() =~= readings@.take(j as int));
        if k.ifindex == ifindex && same_bytes(&k.mac, mac) {
            count_reading(prev, k, k.ip_version, k.direction, v.bytes, elapsed_ms, &mut metrics);
            assert(done.push(device_reading((k, v))).drop_last() =~= done);
        }
        j += 1;
    }
    assert(readings@.take(j as int) =~= readings@);
    metrics
}

/// Takes in the counters of the devices that are neighbours.
fn watch_devices(
    groups: &Table<(String, [u8; 6]), NeighborGroup>,
    topology: &TopologySnapshot,
    monitored: &Vec<String>,
    readings: &Vec<(DeviceTrafficKey, TrafficValue)>,
    hostnames: &Table<[u8; 6], String>,
    devices: &Table<(u32, [u8; 6]), DeviceRegistryEntry>,
    elapsed_ms: u64,
    now_ms: u64,
    prev: &mut Table<DeviceTrafficKey, u64>,
    totals: &mut Table<(u32, [u8; 6]), CounterQuad>,
) -> (items: Table<(u32, [u8; 6]), DeviceListItem>)
    ensures
        (
            Ledger { prev: final(prev).model(), totals: final(totals).model() },
            items.model(),
        ) == device_pass(
            groups.model(),
            topology@,
            texts(monitored@),
            readings@,
            hostnames.model(),
            devices.model(),
            elapsed_ms,
            now_ms,
            Ledger { prev: old(prev).model(), totals: old(totals).model() },
        ),
{
    let ghost ledger = Ledger { prev: prev.model(), totals: totals.model() };
    let names = index_names(topology);
    let mut items: Table<(u32, [u8; 6]), DeviceListItem> = Table::new();
    let n = groups.entries.len();
    let mut i: usize = 0;
    let ghost all = groups.model();
    while i < n
        invariant
            i <= n,
            n == groups.entries@.len(),
            all == groups.model(),
            names.model() == name_index(topology@),
            (Ledger { prev: prev.model(), totals: totals.model() }, items.model())
                == device_pass(
                all.take(i as int),
                topology@,
                texts(monitored@),
                readings@,
                hostnames.model(),
                devices.model(),
                elapsed_ms,
                now_ms,
                ledger,
            ),
        decreases n - i,
    {
        let entry = &groups.entries[i];
        let mac = entry.0.1;
        let group = &entry.1;
        assert(all.take(i + 1).drop_last() =~= all.take(i as int));
        assert(all[i as int] == (entry.0@, entry.1@));
        if let Some(ifindex) = names.get(&entry.0.0) {
            if let Some(info) = topology.by_ifindex(*ifindex) {
                if is_watched(monitored, info.name.as_str()) && group.ipv4.len() > 0 {
                    let ifindex = info.ifindex;
                    let metrics = count_device(readings, ifindex, &mac, elapsed_ms, prev);
                    let cumulative = add_to_total(totals, (ifindex, mac), &metrics);
                    let subnet = subnet_of(&info.ipv4_cidrs, group.ipv4[0].as_str());
                    assert(texts(group.ipv4@)[0] == group.ipv4@[0]@);
                    let neighbor_state = if same_text(group.state.as_str(), "") {
                        proof {
                            reveal_strlit("");
                        }
                        None
                    } else {
                        proof {
                            reveal_strlit("");
                            if group.state@.len() == 0 {
                                assert(group.state@ =~= ""@);
                            }
                        }
                        Some(group.state.clone())
                    };
                    let item = DeviceListItem {
                        ifindex,
                        logical_iface: info.name.clone(),
                        subnet,
                        ipv4: text_copies(&group.ipv4),
                        ipv6: text_copies(&group.ipv6),
                        mac: mac_to_string(&mac),
                        hostname: name_device(hostnames, devices, ifindex, &mac),
                        metrics,
                        cumulative,
                        online: true,
                        last_seen_ms: now_ms,
                        neighbor_state,
                    };
                    items.put((ifindex, mac), item);
                }
            }
        }
        i += 1;
    }
    assert(all.take(i as int) =~= all);
    items
}

/// Traffic of the addresses: what was added since they were last read, and the totals. Of the
/// counters of one address the last is shown.
pub open spec fn ip_pass(
    readings: Seq<(IpTrafficKey, TrafficValue)>,
    topology: Seq<InterfaceFacts>,
    monitored: Seq<Seq<char>>,
    elapsed_ms: u64,
    ledger: Ledger<IpCounter, (u32, Seq<char>)>,
) -> (Ledger<IpCounter, (u32, Seq<char>)>, Seq<((u32, Seq<char>), IpShown)>)
    decreases readings.len(),
{
    if readings.len() == 0 {
        (ledger, Seq::empty())
    } else {
        let (before, items) = ip_pass(
            readings.drop_last(),
            topology,
            monitored,
            elapsed_ms,
            ledger,
        );
        let (k, v) = readings.last();
        let name = match interface_at(topology, k.ifindex) {
            Some(info) => info.name,
            None => Seq::empty(),
        };
        if !watched(monitored, name) {
            (before, items)
        } else {
            let ip = key_ip_text(k.ip_version, k.ip_addr@);
            let reading = (
                k@,
                (
                    if k.ip_version == 4 {
                        4u8
                    } else {
                        6u8
                    },
                    if k.direction == 1 {
                        1u8
                    } else {
                        2u8
                    },
                    v.bytes,
                ),
            );
            let (prev, metrics) = counted(before.prev, seq![reading], elapsed_ms);
            let total = quad_add(get_or(before.totals, (k.ifindex, ip), zero_quad()), metrics);
            (
                Ledger { prev, totals: put(before.totals, (k.ifindex, ip), total) },
                put(
                    items,
                    (k.ifindex, ip),
                    IpShown {
                        ifindex: k.ifindex,
                        ifname: name,
                        ip_addr: ip,
                        ip_version: k.ip_version,
                        metrics,
                        cumulative: total,
                    },
                ),
            )
        }
    }
}

/// The values of a table, in order.
pub open spec fn values<K, V>(s: Seq<(K, V)>) -> Seq<V> {
    s.map_values(|e: (K, V)| e.1)
}

/// Takes in the counters of the addresses.
fn watch_ips(
    readings: &Vec<(IpTrafficKey, TrafficValue)>,
    topology: &TopologySnapshot,
    monitored: &Vec<String>,
    elapsed_ms: u64,
    prev: &mut Table<IpTrafficKey, u64>,
    totals: &mut Table<(u32, String), CounterQuad>,
) -> (items: Table<(u32, String), IpListItem>)
    ensures
        (
            Ledger { prev: final(prev).model(), totals: final(totals).model() },
            items.model(),
        ) == ip_pass(
            readings@,
            topology@,
            texts(monitored@),
            elapsed_ms,
            Ledger { prev: old(prev).model(), totals: old(totals).model() },
        ),
{
    let ghost ledger = Ledger { prev: prev.model(), totals: totals.model() };
    let mut items: Table<(u32, String), IpListItem> = Table::new();
    let n = readings.len();
    let mut i: usize = 0;
    while i < n
        invariant
            i <= n,
            n == readings@.len(),
            (Ledger { prev: prev.model(), totals: totals.model() }, items.model()) == ip_pass(
                readings@.take(i as int),
                topology@,
                texts(monitored@),
                elapsed_ms,
                ledger,
            ),
        decreases n - i,
    {
        let (k, v) = readings[i];
        assert(readings@.take(i + 1).drop_last() =~= readings@.take(i as int));
        let name = match topology.by_ifindex(k.ifindex) {
            Some(info) => info.name.clone(),
            None => {
                let none = String::new();
                assert(none@ =~= Seq::empty());
                none
            },
        };
        if is_watched(monitored, name.as_str()) {
            let ip = key_ip_to_string(k.ip_version, &k.ip_addr);
            let ip_version = if k.ip_version == 4 {
                IpVersion::V4.code()
            } else {
                IpVersion::V6.code()
            };
            let direction = if k.direction == 1 {
                TrafficDirection::Ingress.code()
            } else {
                TrafficDirection::Egress.code()
            };
            let mut metrics = CounterQuad::default();
            let ghost before = prev.model();
            count_reading(prev, k, ip_version, direction, v.bytes, elapsed_ms, &mut metrics);
            proof {
                reveal_with_fuel(counted, 2);
                let reading = (k@, (ip_version, direction, v.bytes));
                assert(seq![reading].drop_last() =~= Seq::<Reading<IpCounter>>::empty());
                assert((prev.model(), metrics) == counted(before, seq![reading], elapsed_ms));
            }
            let cumulative = add_to_total(totals, (k.ifindex, ip.clone()), &metrics);
            let item = IpListItem {
                ifindex: k.ifindex,
                ifname: name,
                ip_addr: ip.clone(),
                ip_version: k.ip_version,
                metrics,
                cumulative,
            };
            items.put((k.ifindex, ip), item);
        }
        i += 1;
    }
    assert(readings@.take(i as int) =~= readings@);
    items
}

/// The values of a table, in order.
fn values_of<K: TableKey, V: View>(table: Table<K, V>) -> (r: Vec<V>)
    ensures
        views(r@) == values(table.model()),
{
    let ghost all = table.entries@;
    let mut rest = table.entries;
    let mut r: Vec<V> = Vec::new();
    let ghost mut done: int = 0;
    while rest.len() > 0
        invariant
            0 <= done <= all.len(),
            rest@ == all.subrange(done, all.len() as int),
            r@.len() == done,
            forall|j: int| 0 <= j < done ==> (#[trigger] r@[j]) == all[j].1,
        decreases rest@.len(),
    {
        let (_, v) = rest.remove(0);
        r.push(v);
        proof {
            done = done + 1;
        }
        assert(rest@ =~= all.subrange(done, all.len() as int));
    }
    assert(views(r@) =~= values(table.model()));
    r
}

/// Traffic of the addresses, from their counters.
pub fn build_ip_list(
    readings: &Vec<(IpTrafficKey, TrafficValue)>,
    runtime: &mut MonitorRuntime,
    monitored: &Vec<String>,
    topology: &TopologySnapshot,
    elapsed_ms: u64,
) -> (items: Vec<IpListItem>)
    ensures
        ({
            let (ledger, shown) = ip_pass(
                readings@,
                topology@,
                texts(monitored@),
                elapsed_ms,
                old(runtime)@.ip,
            );
            &&& views(items@) == values(shown)
            &&& final(runtime)@ == (RuntimeModel { ip: ledger, ..old(runtime)@ })
        }),
        old(runtime)@.distinct() ==> final(runtime)@.distinct(),
{
    proof {
        if runtime@.distinct() {
            lemma_ip_pass_distinct(
                readings@,
                topology@,
                texts(monitored@),
                elapsed_ms,
                runtime@.ip,
            );
        }
    }
    let table = watch_ips(
        readings,
        topology,
        monitored,
        elapsed_ms,
        &mut runtime.prev_ip_bytes,
        &mut runtime.cumulative_ip,
    );
    values_of(table)
}

/// Devices with the bytes by which they are ordered.
pub open spec fn by_upload(s: Seq<DeviceShown>) -> Seq<(u64, DeviceShown)> {
    s.map_values(|d: DeviceShown| (d.cumulative.up_v4_bytes, d))
}

/// Devices in descending order of the version 4 bytes that they have sent.
pub open spec fn most_upload_first(s: Seq<DeviceShown>) -> Seq<DeviceShown> {
    descending(by_upload(s))
}

/// Orders devices by the version 4 bytes that they have sent, the most first.
pub fn sort_devices(devices: Vec<DeviceListItem>) -> (r: Vec<DeviceListItem>)
    ensures
        views(r@) == most_upload_first(views(devices@)),
{
    let ghost all = devices@;
    let mut devices = devices;
    let mut keyed: Vec<(u64, DeviceListItem)> = Vec::new();
    let ghost mut done: int = 0;
    while devices.len() > 0
        invariant
            0 <= done <= all.len(),
            devices@ == all.subrange(done, all.len() as int),
            keyed@.len() == done,
            forall|j: int|
                0 <= j < done ==> (#[trigger] keyed@[j]) == (
                    all[j].cumulative.up_v4_bytes,
                    all[j],
                ),
        decreases devices@.len(),
    {
        let d = devices.remove(0);
        keyed.push((d.cumulative.up_v4_bytes, d));
        proof {
            done = done + 1;
        }
        assert(devices@ =~= all.subrange(done, all.len() as int));
    }
    proof {
        lemma_descending_views(keyed@);
        assert(keyed_views(keyed@) =~= by_upload(views(all)));
    }
    sort_descending(keyed)
}

/// What a snapshot is made from: the counters, the interfaces, the names of those to be watched
/// (all where there is none), the neighbours and the names that devices were given.
pub struct SnapshotInput<'a> {
    pub readings: &'a TrafficReadings,
    pub topology: &'a TopologySnapshot,
    pub monitor_ifaces: &'a Vec<String>,
    pub neighbors: &'a Vec<Neighbor>,
    pub hostname_by_mac: &'a Table<[u8; 6], String>,
}

/// Milliseconds since the last snapshot; a second where there was none.
pub open spec fn elapsed_since(last_snapshot_ms: Option<u64>, now_ms: u64) -> u64 {
    match last_snapshot_ms {
        Some(prev) => (now_ms - prev) as u64,
        None => 1000,
    }
}

/// The snapshot, and what the monitor carries on but for the hourly history.
pub open spec fn snapshot_pass(
    m: RuntimeModel,
    input: SnapshotInput,
    now_ms: u64,
) -> (RuntimeModel, SnapshotShown) {
    let elapsed_ms = elapsed_since(m.last_snapshot_ms, now_ms);
    let monitored = texts(input.monitor_ifaces@);
    let (iface, interfaces) = interface_pass(
        input.topology@,
        monitored,
        input.readings.iface@,
        elapsed_ms,
        m.iface,
    );
    let (device, devices) = device_pass(
        grouped(views(input.neighbors@)),
        input.topology@,
        monitored,
        input.readings.device@,
        input.hostname_by_mac.model(),
        m.devices,
        elapsed_ms,
        now_ms,
        m.device,
    );
    let (ip, ips) = ip_pass(
        input.readings.ip@,
        input.topology@,
        monitored,
        elapsed_ms,
        m.ip,
    );
    (
        RuntimeModel { iface, device, ip, last_snapshot_ms: Some(now_ms), ..m },
        SnapshotShown {
            timestamp_ms: now_ms,
            interfaces,
            devices: most_upload_first(values(devices)),
            ips: values(ips),
        },
    )
}

/// The snapshot, and what the monitor carries on.
pub open spec fn snapshot_taken(
    m: RuntimeModel,
    input: SnapshotInput,
    now_ms: u64,
    cal: LocalCalendar,
) -> (RuntimeModel, SnapshotShown) {
    let (after, shown) = snapshot_pass(m, input, now_ms);
    (RuntimeModel { histogram: m.histogram.updated(shown, cal), ..after }, shown)
}

/// Makes a snapshot, by the given local hours.
pub fn build_snapshot_in(
    runtime: &mut MonitorRuntime,
    input: &SnapshotInput,
    now_ms: u64,
    cal: &LocalCalendar,
) -> (snapshot: SnapshotData)
    requires
        old(runtime).last_snapshot_ms matches Some(prev) ==> prev <= now_ms,
    ensures
        (final(runtime)@, snapshot@) == snapshot_taken(old(runtime)@, *input, now_ms, *cal),
        old(runtime)@.distinct() ==> final(runtime)@.distinct(),
{
    let elapsed_ms = match runtime.last_snapshot_ms {
        Some(prev) => now_ms - prev,
        None => 1000,
    };
    let interfaces = watch_interfaces(
        input.topology,
        input.monitor_ifaces,
        &input.readings.iface,
        elapsed_ms,
        &mut runtime.prev_iface_bytes,
        &mut runtime.cumulative_iface,
    );
    let groups = group_neighbors(input.neighbors);
    let devices_group = watch_devices(
        &groups,
        input.topology,
        input.monitor_ifaces,
        &input.readings.device,
        input.hostname_by_mac,
        &runtime.device_registry.entries,
        elapsed_ms,
        now_ms,
        &mut runtime.prev_device_bytes,
        &mut runtime.cumulative_device,
    );
    let devices = sort_devices(values_of(devices_group));
    let ips = build_ip_list(
        &input.readings.ip,
        runtime,
        input.monitor_ifaces,
        input.topology,
        elapsed_ms,
    );
    let snapshot = SnapshotData { timestamp_ms: now_ms, interfaces, devices, ips };
    update_histogram_state_in(&mut runtime.last_snapshot_histogram_state, &snapshot, cal);
    runtime.last_snapshot_ms = Some(now_ms);
    proof {
        if old(runtime)@.distinct() {
            law_snapshot_stays_distinct(old(runtime)@, *input, now_ms, *cal);
        }
    }
    snapshot
}

/// Makes a snapshot, by the local time of the machine.
pub fn build_snapshot(
    runtime: &mut MonitorRuntime,
    input: &SnapshotInput,
    now_ms: u64,
) -> (snapshot: SnapshotData)
    requires
        old(runtime).last_snapshot_ms matches Some(prev) ==> prev <= now_ms,
    ensures
        exists|cal: LocalCalendar| #[trigger]
            old(runtime)@.histogram.covered_points(now_ms, cal) && (final(runtime)@, snapshot@)
                == snapshot_taken(old(runtime)@, *input, now_ms, cal),
        old(runtime)@.distinct() ==> final(runtime)@.distinct(),
{
    let cal = calendar_for_points(&runtime.last_snapshot_histogram_state, now_ms);
    build_snapshot_in(runtime, input, now_ms, &cal)
}

proof fn lemma_interface_pass_distinct(
    topology: Seq<InterfaceFacts>,
    monitored: Seq<Seq<char>>,
    readings: Seq<(InterfaceTrafficKey, TrafficValue)>,
    elapsed_ms: u64,
    ledger: Ledger<IfaceCounter, u32>,
)
    requires
        ledger.distinct(),
    ensures
        interface_pass(topology, monitored, readings, elapsed_ms, ledger).0.distinct(),
    decreases topology.len(),
{
    if topology.len() > 0 {
        let init = topology.drop_last();
        lemma_interface_pass_distinct(init, monitored, readings, elapsed_ms, ledger);
        let before = interface_pass(init, monitored, readings, elapsed_ms, ledger).0;
        let ifindex = topology.last().ifindex;
        let read = of_interface(readings, ifindex);
        law_counted_stays_distinct(before.prev, read, elapsed_ms);
        let metrics = counted(before.prev, read, elapsed_ms).1;
        law_put_keeps_unique(
            before.totals,
            ifindex,
            quad_add(get_or(before.totals, ifindex, zero_quad()), metrics),
        );
    }
}

proof fn lemma_device_pass_distinct(
    groups: Seq<((Seq<char>, Seq<u8>), GroupFacts)>,
    topology: Seq<InterfaceFacts>,
    monitored: Seq<Seq<char>>,
    readings: Seq<(DeviceTrafficKey, TrafficValue)>,
    hostnames: Seq<(Seq<u8>, Seq<char>)>,
    devices: Seq<((u32, Seq<u8>), DeviceMemory)>,
    elapsed_ms: u64,
    now_ms: u64,
    ledger: Ledger<DeviceCounter, (u32, Seq<u8>)>,
)
    requires
        ledger.distinct(),
    ensures
        device_pass(
            groups,
            topology,
            monitored,
            readings,
            hostnames,
            devices,
            elapsed_ms,
            now_ms,
            ledger,
        ).0.distinct(),
    decreases groups.len(),
{
    if groups.len() > 0 {
        let init = groups.drop_last();
        lemma_device_pass_distinct(
            init,
            topology,
            monitored,
            readings,
            hostnames,
            devices,
            elapsed_ms,
            now_ms,
            ledger,
        );
        let before = device_pass(
            init,
            topology,
            monitored,
            readings,
            hostnames,
            devices,
            elapsed_ms,
            now_ms,
            ledger,
        ).0;
        let ((dev, mac), _) = groups.last();
        if let Some(info) = group_interface(topology, monitored, dev) {
            let key = (info.ifindex, mac);
            let read = of_device(readings, info.ifindex, mac);
            law_counted_stays_distinct(before.prev, read, elapsed_ms);
            let metrics = counted(before.prev, read, elapsed_ms).1;
            law_put_keeps_unique(
                before.totals,
                key,
                quad_add(get_or(before.totals, key, zero_quad()), metrics),
            );
        }
    }
}

proof fn lemma_ip_pass_distinct(
    readings: Seq<(IpTrafficKey, TrafficValue)>,
    topology: Seq<InterfaceFacts>,
    monitored: Seq<Seq<char>>,
    elapsed_ms: u64,
    ledger: Ledger<IpCounter, (u32, Seq<char>)>,
)
    requires
        ledger.distinct(),
    ensures
        ip_pass(readings, topology, monitored, elapsed_ms, ledger).0.distinct(),
    decreases readings.len(),
{
    if readings.len() > 0 {
        let init = readings.drop_last();
        lemma_ip_pass_distinct(init, topology, monitored, elapsed_ms, ledger);
        let before = ip_pass(init, topology, monitored, elapsed_ms, ledger).0;
        let (k, v) = readings.last();
        let ip_version = if k.ip_version == 4 {
            4u8
        } else {
            6u8
        };
        let direction = if k.direction == 1 {
            1u8
        } else {
            2u8
        };
        let read = seq![(k@, (ip_version, direction, v.bytes))];
        law_counted_stays_distinct(before.prev, read, elapsed_ms);
        let key = (k.ifindex, key_ip_text(k.ip_version, k.ip_addr@));
        let metrics = counted(before.prev, read, elapsed_ms).1;
        law_put_keeps_unique(
            before.totals,
            key,
            quad_add(get_or(before.totals, key, zero_quad()), metrics),
        );
    }
}

/// Making a snapshot keeps counters, totals, devices and series distinct.
pub proof fn law_snapshot_stays_distinct(
    m: RuntimeModel,
    input: SnapshotInput,
    now_ms: u64,
    cal: LocalCalendar,
)
    requires
        m.distinct(),
    ensures
        snapshot_taken(m, input, now_ms, cal).0.distinct(),
{
    let elapsed_ms = elapsed_since(m.last_snapshot_ms, now_ms);
    let monitored = texts(input.monitor_ifaces@);
    lemma_interface_pass_distinct(
        input.topology@,
        monitored,
        input.readings.iface@,
        elapsed_ms,
        m.iface,
    );
    lemma_device_pass_distinct(
        grouped(views(input.neighbors@)),
        input.topology@,
        monitored,
        input.readings.device@,
        input.hostname_by_mac.model(),
        m.devices,
        elapsed_ms,
        now_ms,
        m.device,
    );
    lemma_ip_pass_distinct(
        input.readings.ip@,
        input.topology@,
        monitored,
        elapsed_ms,
        m.ip,
    );
    law_update_stays_distinct(m.histogram, snapshot_pass(m, input, now_ms).1, cal);
}

/// The total of an interface grows by what is shown to be added, and each interface is shown with
/// its new total.
pub proof fn law_interface_totals_grow(
    topology: Seq<InterfaceFacts>,
    monitored: Seq<Seq<char>>,
    readings: Seq<(InterfaceTrafficKey, TrafficValue)>,
    elapsed_ms: u64,
    ledger: Ledger<IfaceCounter, u32>,
)
    requires
        unique_keys(by_index(topology)),
    ensures
        ({
            let (after, items) = interface_pass(
                topology,
                monitored,
                readings,
                elapsed_ms,
                ledger,
            );
            forall|i: int|
                0 <= i < items.len() ==> (#[trigger] items[i]).cumulative == quad_add(
                    get_or(ledger.totals, items[i].ifindex, zero_quad()),
                    items[i].metrics,
                ) && get(after.totals, items[i].ifindex) == Some(items[i].cumulative)
        }),
    decreases topology.len(),
{
    lemma_interface_pass(topology, monitored, readings, elapsed_ms, ledger);
}

proof fn lemma_interface_pass(
    topology: Seq<InterfaceFacts>,
    monitored: Seq<Seq<char>>,
    readings: Seq<(InterfaceTrafficKey, TrafficValue)>,
    elapsed_ms: u64,
    ledger: Ledger<IfaceCounter, u32>,
)
    requires
        unique_keys(by_index(topology)),
    ensures
        ({
            let (after, items) = interface_pass(
                topology,
                monitored,
                readings,
                elapsed_ms,
                ledger,
            );
            &&& forall|k: u32|
                #![trigger get(after.totals, k)]
                !occurs(by_index(topology), k) ==> get(after.totals, k) == get(ledger.totals, k)
            &&& forall|i: int|
                0 <= i < items.len() ==> occurs(
                    by_index(topology),
                    (#[trigger] items[i]).ifindex,
                ) && items[i].cumulative == quad_add(
                    get_or(ledger.totals, items[i].ifindex, zero_quad()),
                    items[i].metrics,
                ) && get(after.totals, items[i].ifindex) == Some(items[i].cumulative)
        }),
    decreases topology.len(),
{
    if topology.len() > 0 {
        let init = topology.drop_last();
        let all = by_index(topology);
        let some = by_index(init);
        assert forall|i: int| 0 <= i < some.len() implies (#[trigger] some[i]) == all[i] by {}
        assert(unique_keys(some));
        lemma_interface_pass(init, monitored, readings, elapsed_ms, ledger);
        let (before, items) = interface_pass(init, monitored, readings, elapsed_ms, ledger);
        let (after, shown) = interface_pass(topology, monitored, readings, elapsed_ms, ledger);
        let iface = topology.last();
        let last = topology.len() - 1;
        assert(all[last] == (iface.ifindex, iface));
        lemma_occurs(all, last);
        if occurs(some, iface.ifindex) {
            let p = position(some, iface.ifindex);
            assert(is_first(some, iface.ifindex, p));
            assert(all[p].0 == all[last].0);
        }
        assert forall|k: u32| occurs(some, k) implies #[trigger] occurs(all, k) by {
            let p = position(some, k);
            assert(is_first(some, k, p));
            assert(all[p].0 == k);
            lemma_occurs(all, p);
        }
        if watched(monitored, iface.name) {
            let total = shown.last().cumulative;
            law_put_get(before.totals, iface.ifindex, total);
            assert forall|k: u32|
                #![trigger get(after.totals, k)]
                k != iface.ifindex implies get(after.totals, k) == get(before.totals, k) by {
                law_put_get_other(before.totals, iface.ifindex, total, k);
            }
            assert(get(before.totals, iface.ifindex) == get(ledger.totals, iface.ifindex));
            assert forall|i: int| 0 <= i < shown.len() implies occurs(
                all,
                (#[trigger] shown[i]).ifindex,
            ) && shown[i].cumulative == quad_add(
                get_or(ledger.totals, shown[i].ifindex, zero_quad()),
                shown[i].metrics,
            ) && get(after.totals, shown[i].ifindex) == Some(shown[i].cumulative) by {
                if i < items.len() {
                    assert(shown[i] == items[i]);
                    assert(occurs(some, items[i].ifindex));
                }
            }
        }
    }
}

/// Devices are shown in the order of the version 4 bytes that they have sent, the most first.
pub proof fn law_devices_by_upload(s: Seq<DeviceShown>)
    ensures
        most_upload_first(s).len() == s.len(),
        forall|i: int, j: int|
            0 <= i <= j < s.len() ==> (#[trigger] most_upload_first(s)[i]).cumulative.up_v4_bytes
                >= (#[trigger] most_upload_first(s)[j]).cumulative.up_v4_bytes,
{
    let size = |d: DeviceShown| d.cumulative.up_v4_bytes;
    law_descending_order(by_upload(s), size);
    assert forall|i: int, j: int| 0 <= i <= j < s.len() implies (#[trigger] most_upload_first(
        s,
    )[i]).cumulative.up_v4_bytes >= (#[trigger] most_upload_first(
        s,
    )[j]).cumulative.up_v4_bytes by {
        assert(size(most_upload_first(s)[i]) >= size(most_upload_first(s)[j]));
    }
}

/// The total of a device that is shown is the one that is carried on.
pub proof fn law_device_totals_carry_on(
    groups: Seq<((Seq<char>, Seq<u8>), GroupFacts)>,
    topology: Seq<InterfaceFacts>,
    monitored: Seq<Seq<char>>,
    readings: Seq<(DeviceTrafficKey, TrafficValue)>,
    hostnames: Seq<(Seq<u8>, Seq<char>)>,
    devices: Seq<((u32, Seq<u8>), DeviceMemory)>,
    elapsed_ms: u64,
    now_ms: u64,
    ledger: Ledger<DeviceCounter, (u32, Seq<u8>)>,
    key: (u32, Seq<u8>),
)
    ensures
        ({
            let (after, items) = device_pass(
                groups,
                topology,
                monitored,
                readings,
                hostnames,
                devices,
                elapsed_ms,
                now_ms,
                ledger,
            );
            match get(items, key) {
                Some(d) => get(after.totals, key) == Some(d.cumulative),
                None => get(after.totals, key) == get(ledger.totals, key),
            }
        }),
    decreases groups.len(),
{
    let (after, items) = device_pass(
        groups,
        topology,
        monitored,
        readings,
        hostnames,
        devices,
        elapsed_ms,
        now_ms,
        ledger,
    );
    if groups.len() == 0 {
        lemma_absent(items, key);
    } else {
        let init = groups.drop_last();
        law_device_totals_carry_on(
            init,
            topology,
            monitored,
            readings,
            hostnames,
            devices,
            elapsed_ms,
            now_ms,
            ledger,
            key,
        );
        let (before, shown) = device_pass(
            init,
            topology,
            monitored,
            readings,
            hostnames,
            devices,
            elapsed_ms,
            now_ms,
            ledger,
        );
        let ((dev, mac), (ipv4, ipv6, state)) = groups.last();
        if let Some(info) = group_interface(topology, monitored, dev) {
            if ipv4.len() > 0 {
                let k = (info.ifindex, mac);
                let metrics = counted(
                    before.prev,
                    of_device(readings, info.ifindex, mac),
                    elapsed_ms,
                ).1;
                let total = quad_add(get_or(before.totals, k, zero_quad()), metrics);
                let item = DeviceShown {
                    ifindex: info.ifindex,
                    logical_iface: info.name,
                    subnet: subnet_among(info.ipv4_cidrs, ipv4[0]),
                    ipv4,
                    ipv6,
                    mac: mac_text(mac),
                    hostname: device_hostname(hostnames, devices, info.ifindex, mac),
                    metrics,
                    cumulative: total,
                    online: true,
                    last_seen_ms: now_ms,
                    neighbor_state: known_state(state),
                };
                assert(items == put(shown, k, item));
                assert(after.totals == put(before.totals, k, total));
                if k == key {
                    law_put_get(shown, k, item);
                    law_put_get(before.totals, k, total);
                } else {
                    law_put_get_other(shown, k, item, key);
                    law_put_get_other(before.totals, k, total, key);
                }
            }
        }
    }
}

/// The total of an address that is shown is the one that is carried on.
pub proof fn law_ip_totals_carry_on(
    readings: Seq<(IpTrafficKey, TrafficValue)>,
    topology: Seq<InterfaceFacts>,
    monitored: Seq<Seq<char>>,
    elapsed_ms: u64,
    ledger: Ledger<IpCounter, (u32, Seq<char>)>,
    key: (u32, Seq<char>),
)
    ensures
        ({
            let (after, items) = ip_pass(readings, topology, monitored, elapsed_ms, ledger);
            match get(items, key) {
                Some(i) => get(after.totals, key) == Some(i.cumulative),
                None => get(after.totals, key) == get(ledger.totals, key),
            }
        }),
    decreases readings.len(),
{
    let (after, items) = ip_pass(readings, topology, monitored, elapsed_ms, ledger);
    if readings.len() == 0 {
        lemma_absent(items, key);
    } else {
        let init = readings.drop_last();
        law_ip_totals_carry_on(init, topology, monitored, elapsed_ms, ledger, key);
        let (before, shown) = ip_pass(init, topology, monitored, elapsed_ms, ledger);
        let k = readings.last().0;
        let name = match interface_at(topology, k.ifindex) {
            Some(info) => info.name,
            None => Seq::empty(),
        };
        if watched(monitored, name) {
            let at = (k.ifindex, key_ip_text(k.ip_version, k.ip_addr@));
            let v = readings.last().1;
            let ip_version: u8 = if k.ip_version == 4 {
                4
            } else {
                6
            };
            let direction: u8 = if k.direction == 1 {
                1
            } else {
                2
            };
            let metrics = counted(
                before.prev,
                seq![(k@, (ip_version, direction, v.bytes))],
                elapsed_ms,
            ).1;
            let t = quad_add(get_or(before.totals, at, zero_quad()), metrics);
            let i = IpShown {
                ifindex: k.ifindex,
                ifname: name,
                ip_addr: at.1,
                ip_version: k.ip_version,
                metrics,
                cumulative: t,
            };
            assert(items == put(shown, at, i));
            assert(after.totals == put(before.totals, at, t));
            law_put_get(before.totals, at, t);
            if at == key {
                law_put_get(shown, at, i);
            } else {
                law_put_get_other(shown, at, i, key);
                law_put_get_other(before.totals, at, t, key);
            }
        }
    }
}

/// No counter is read twice.
pub open spec fn device_reads_apart(readings: Seq<(DeviceTrafficKey, TrafficValue)>) -> bool {
    forall|i: int, j: int|
        0 <= i < readings.len() && 0 <= j < readings.len() && (#[trigger] readings[i]).0.ifindex == (
        #[trigger] readings[j]).0.ifindex && readings[i].0.ip_version == readings[j].0.ip_version
            && readings[i].0.direction == readings[j].0.direction && readings[i].0.mac@
            == readings[j].0.mac@ ==> i == j
}

/// The bytes that the readings of a device add for an IP version and direction.
pub open spec fn device_bytes(
    readings: Seq<(DeviceTrafficKey, TrafficValue)>,
    prev: Seq<(DeviceCounter, u64)>,
    ifindex: u32,
    mac: Seq<u8>,
    ip_version: u8,
    direction: u8,
) -> int
    decreases readings.len(),
{
    if readings.len() == 0 {
        0
    } else {
        let (k, v) = readings.last();
        device_bytes(readings.drop_last(), prev, ifindex, mac, ip_version, direction) + if k@ == (
            ifindex,
            mac,
            ip_version,
            direction,
        ) {
            gone_up(v.bytes, get_or(prev, k@, 0))
        } else {
            0
        }
    }
}

/// The rates of what the readings of a device add for an IP version and direction, added up.
pub open spec fn device_rates(
    readings: Seq<(DeviceTrafficKey, TrafficValue)>,
    prev: Seq<(DeviceCounter, u64)>,
    elapsed_ms: u64,
    ifindex: u32,
    mac: Seq<u8>,
    ip_version: u8,
    direction: u8,
) -> int
    decreases readings.len(),
{
    if readings.len() == 0 {
        0
    } else {
        let (k, v) = readings.last();
        device_rates(
            readings.drop_last(),
            prev,
            elapsed_ms,
            ifindex,
            mac,
            ip_version,
            direction,
        ) + if k@ == (ifindex, mac, ip_version, direction) {
            rate_of(gone_up(v.bytes, get_or(prev, k@, 0)) as u64, elapsed_ms) as int
        } else {
            0
        }
    }
}

spec fn device_views_apart(readings: Seq<(DeviceTrafficKey, TrafficValue)>) -> bool {
    forall|i: int, j: int|
        0 <= i < readings.len() && 0 <= j < readings.len() && (#[trigger] readings[i]).0@ == (
        #[trigger] readings[j]).0@ ==> i == j
}

proof fn lemma_device_views_apart(readings: Seq<(DeviceTrafficKey, TrafficValue)>)
    requires
        device_reads_apart(readings),
    ensures
        device_views_apart(readings),
{
    assert forall|i: int, j: int|
        0 <= i < readings.len() && 0 <= j < readings.len() && (#[trigger] readings[i]).0@ == (
        #[trigger] readings[j]).0@ implies i == j by {
        lemma_device_key_apart(readings[i].0, readings[j].0);
    }
}

proof fn lemma_device_key_apart(a: DeviceTrafficKey, b: DeviceTrafficKey)
    requires
        a@ == b@,
    ensures
        a.ifindex == b.ifindex,
        a.mac@ == b.mac@,
        a.ip_version == b.ip_version,
        a.direction == b.direction,
{
}

#[verifier::spinoff_prover]
#[verifier::rlimit(40)]
proof fn lemma_of_device(
    readings: Seq<(DeviceTrafficKey, TrafficValue)>,
    prev: Seq<(DeviceCounter, u64)>,
    elapsed_ms: u64,
    ifindex: u32,
    mac: Seq<u8>,
)
    requires
        device_views_apart(readings),
    ensures
        ({
            let of = of_device(readings, ifindex, mac);
            &&& unique_keys(of)
            &&& forall|i: int|
                0 <= i < of.len() ==> ((#[trigger] of[i]).0.0, of[i].0.1) == (ifindex, mac)
            &&& forall|i: int|
                0 <= i < of.len() ==> exists|j: int|
                    0 <= j < readings.len() && (#[trigger] readings[j]).0@ == (#[trigger] of[i]).0
            &&& forall|j: int|
                #![trigger readings[j]]
                0 <= j < readings.len() && (readings[j].0.ifindex, readings[j].0.mac@) == (
                    ifindex,
                    mac,
                ) ==> exists|i: int|
                    0 <= i < of.len() && (#[trigger] of[i]).0 == readings[j].0@ && of[i].1.2
                        == readings[j].1.bytes
            &&& forall|v: u8, d: u8|
                #![trigger lane_bytes(of, prev, v, d)]
                lane_bytes(of, prev, v, d) == device_bytes(readings, prev, ifindex, mac, v, d)
            &&& forall|v: u8, d: u8|
                #![trigger lane_rates(of, prev, elapsed_ms, v, d)]
                lane_rates(of, prev, elapsed_ms, v, d) == device_rates(
                    readings,
                    prev,
                    elapsed_ms,
                    ifindex,
                    mac,
                    v,
                    d,
                )
        }),
    decreases readings.len(),
{
    let of = of_device(readings, ifindex, mac);
    if readings.len() > 0 {
        let init = readings.drop_last();
        let n = readings.len() - 1;
        assert forall|i: int| 0 <= i < init.len() implies (#[trigger] init[i]) == readings[i] by {}
        assert(device_views_apart(init));
        lemma_of_device(init, prev, elapsed_ms, ifindex, mac);
        let before = of_device(init, ifindex, mac);
        let (k, v) = readings.last();
        assert(readings[n] == (k, v));
        assert forall|i: int| 0 <= i < before.len() implies (#[trigger] before[i]).0 != k@ by {
            let j = choose|j: int| 0 <= j < init.len() && (#[trigger] init[j]).0@ == before[i].0;
            assert(readings[j].0@ != readings[n].0@);
        }
        assert forall|i: int| 0 <= i < of.len() implies exists|j: int|
            0 <= j < readings.len() && (#[trigger] readings[j]).0@ == (#[trigger] of[i]).0 by {
            if i < before.len() {
                assert(of[i] == before[i]);
                let j = choose|j: int|
                    0 <= j < init.len() && (#[trigger] init[j]).0@ == before[i].0;
                assert(readings[j].0@ == of[i].0);
            } else {
                assert(readings[n].0@ == of[i].0);
            }
        }
        if k.ifindex == ifindex && k.mac@ == mac {
            assert(of.drop_last() =~= before);
            assert(of.last() == device_reading((k, v)));
            assert(of[before.len() as int] == device_reading((k, v)));
        }
        assert forall|j: int|
            #![trigger readings[j]]
            0 <= j < readings.len() && (readings[j].0.ifindex, readings[j].0.mac@) == (
                ifindex,
                mac,
            ) implies exists|i: int|
            0 <= i < of.len() && (#[trigger] of[i]).0 == readings[j].0@ && of[i].1.2
                == readings[j].1.bytes by {
            if j < n {
                assert(init[j] == readings[j]);
                let i = choose|i: int|
                    0 <= i < before.len() && (#[trigger] before[i]).0 == init[j].0@
                        && before[i].1.2 == init[j].1.bytes;
                assert(of[i] == before[i]);
            }
        }
        assert forall|v: u8, d: u8|
            #![trigger lane_bytes(of, prev, v, d)]
            lane_bytes(of, prev, v, d) == device_bytes(readings, prev, ifindex, mac, v, d) by {
            assert(lane_bytes(before, prev, v, d) == device_bytes(
                init,
                prev,
                ifindex,
                mac,
                v,
                d,
            ));
        }
        assert forall|v: u8, d: u8|
            #![trigger lane_rates(of, prev, elapsed_ms, v, d)]
            lane_rates(of, prev, elapsed_ms, v, d) == device_rates(
                readings,
                prev,
                elapsed_ms,
                ifindex,
                mac,
                v,
                d,
            ) by {
            assert(lane_rates(before, prev, elapsed_ms, v, d) == device_rates(
                init,
                prev,
                elapsed_ms,
                ifindex,
                mac,
                v,
                d,
            ));
        }
    }
}

proof fn lemma_device_bytes_same(
    readings: Seq<(DeviceTrafficKey, TrafficValue)>,
    a: Seq<(DeviceCounter, u64)>,
    b: Seq<(DeviceCounter, u64)>,
    elapsed_ms: u64,
    ifindex: u32,
    mac: Seq<u8>,
    ip_version: u8,
    direction: u8,
)
    requires
        forall|k: DeviceCounter| (k.0, k.1) == (ifindex, mac) ==> #[trigger] get(a, k) == get(b, k),
    ensures
        device_bytes(readings, a, ifindex, mac, ip_version, direction) == device_bytes(
            readings,
            b,
            ifindex,
            mac,
            ip_version,
            direction,
        ),
        device_rates(readings, a, elapsed_ms, ifindex, mac, ip_version, direction) == device_rates(
            readings,
            b,
            elapsed_ms,
            ifindex,
            mac,
            ip_version,
            direction,
        ),
    decreases readings.len(),
{
    if readings.len() > 0 {
        lemma_device_bytes_same(
            readings.drop_last(),
            a,
            b,
            elapsed_ms,
            ifindex,
            mac,
            ip_version,
            direction,
        );
        let k = readings.last().0@;
        if (k.0, k.1) == (ifindex, mac) {
            assert(get(a, k) == get(b, k));
        }
    }
}

/// The counters of a device that is shown: every counter that was read for its interface and MAC
/// address is taken in, of both directions and both IP versions. Bytes and rates of each are those
/// of the readings with that interface, MAC address, version and direction, and the totals are
/// those before and the bytes and rates that were added.
pub open spec fn counts_of_device(
    d: DeviceShown,
    ifindex: u32,
    mac: Seq<u8>,
    readings: Seq<(DeviceTrafficKey, TrafficValue)>,
    elapsed_ms: u64,
    ledger: Ledger<DeviceCounter, (u32, Seq<u8>)>,
) -> bool {
    let total = get_or(ledger.totals, (ifindex, mac), zero_quad());
    forall|ip_version: u8, direction: u8|
        #![trigger bytes_in(d.metrics, ip_version, direction)]
        is_lane(ip_version, direction) ==> {
            let bytes = device_bytes(readings, ledger.prev, ifindex, mac, ip_version, direction);
            let rate = device_rates(
                readings,
                ledger.prev,
                elapsed_ms,
                ifindex,
                mac,
                ip_version,
                direction,
            );
            &&& bytes_in(d.metrics, ip_version, direction) == capped(bytes)
            &&& rate_in(d.metrics, ip_version, direction) == capped(rate)
            &&& bytes_in(d.cumulative, ip_version, direction) == capped(
                bytes_in(total, ip_version, direction) + capped(bytes),
            )
            &&& rate_in(d.cumulative, ip_version, direction) == capped(
                rate_in(total, ip_version, direction) + capped(rate),
            )
        }
}

/// The counters of a device are remembered as they were read.
pub open spec fn remembered(
    prev: Seq<(DeviceCounter, u64)>,
    readings: Seq<(DeviceTrafficKey, TrafficValue)>,
    key: (u32, Seq<u8>),
) -> bool {
    forall|r: int|
        0 <= r < readings.len() && (#[trigger] readings[r]).0.ifindex == key.0
            && readings[r].0.mac@ == key.1 ==> get(prev, readings[r].0@) == Some(
            readings[r].1.bytes,
        )
}

/// What a device that is shown says of itself: it is a neighbour on a known interface that is
/// watched, with the addresses of its neighbour entries, the network of the first of them, the
/// name that it was given now or else the one that is remembered, and the state of its entries
/// where there is one.
pub open spec fn facts_of_device(
    d: DeviceShown,
    ifindex: u32,
    mac: Seq<u8>,
    group: ((Seq<char>, Seq<u8>), GroupFacts),
    topology: Seq<InterfaceFacts>,
    monitored: Seq<Seq<char>>,
    hostnames: Seq<(Seq<u8>, Seq<char>)>,
    devices: Seq<((u32, Seq<u8>), DeviceMemory)>,
    now_ms: u64,
) -> bool {
    let ((dev, group_mac), (ipv4, ipv6, state)) = group;
    &&& group_mac == mac
    &&& ipv4.len() > 0
    &&& d.ifindex == ifindex
    &&& d.mac == mac_text(mac)
    &&& interface_at(topology, ifindex) matches Some(info) && info.name == dev && d.logical_iface
        == dev && d.subnet == subnet_among(info.ipv4_cidrs, ipv4[0])
    &&& monitored.len() == 0 || monitored.contains(dev)
    &&& d.ipv4 == ipv4
    &&& d.ipv6 == ipv6
    &&& d.online
    &&& d.last_seen_ms == now_ms
    &&& d.neighbor_state == if state.len() == 0 {
        None
    } else {
        Some(state)
    }
    &&& match get(hostnames, mac) {
        Some(name) => name.len() > 0 ==> d.hostname == name,
        None => true,
    }
    &&& get_or(hostnames, mac, Seq::empty()).len() == 0 ==> d.hostname == match get(
        devices,
        (ifindex, mac),
    ) {
        Some(known) => known.hostname,
        None => Seq::empty(),
    }
}

proof fn lemma_name_index(topology: Seq<InterfaceFacts>, name: Seq<char>)
    ensures
        get(name_index(topology), name) matches Some(ifindex) ==> exists|j: int|
            0 <= j < topology.len() && (#[trigger] topology[j]).name == name
                && topology[j].ifindex == ifindex,
        get(name_index(topology), name) is None ==> forall|j: int|
            0 <= j < topology.len() ==> (#[trigger] topology[j]).name != name,
    decreases topology.len(),
{
    if topology.len() == 0 {
        lemma_absent(name_index(topology), name);
    } else {
        let init = topology.drop_last();
        let last = topology.last();
        lemma_name_index(init, name);
        let before = name_index(init);
        assert(topology[topology.len() - 1] == last);
        if last.name == name {
            law_put_get(before, name, last.ifindex);
        } else {
            law_put_get_other(before, last.name, last.ifindex, name);
            if let Some(ifindex) = get(before, name) {
                let j = choose|j: int|
                    0 <= j < init.len() && (#[trigger] init[j]).name == name && init[j].ifindex
                        == ifindex;
                assert(topology[j] == init[j]);
            } else {
                assert forall|j: int| 0 <= j < topology.len() implies (#[trigger] topology[j]).name
                    != name by {
                    if j < init.len() {
                        assert(topology[j] == init[j]);
                    }
                }
            }
        }
    }
}

/// Where each interface has its own index, the interface of a neighbour is the one of its name.
proof fn lemma_group_interface(
    topology: Seq<InterfaceFacts>,
    monitored: Seq<Seq<char>>,
    dev: Seq<char>,
)
    requires
        unique_keys(by_index(topology)),
    ensures
        group_interface(topology, monitored, dev) matches Some(info) ==> info.name == dev
            && interface_at(topology, info.ifindex) == Some(info) && watched(monitored, dev),
        group_interface(topology, monitored, dev) is None && watched(monitored, dev) ==> forall|
            j: int,
        |
            0 <= j < topology.len() ==> (#[trigger] topology[j]).name != dev,
{
    lemma_name_index(topology, dev);
    if let Some(ifindex) = get(name_index(topology), dev) {
        let j = choose|j: int|
            0 <= j < topology.len() && (#[trigger] topology[j]).name == dev && topology[j].ifindex
                == ifindex;
        let all = by_index(topology);
        assert(all[j] == (ifindex, topology[j]));
        lemma_occurs(all, j);
        let p = position(all, ifindex);
        assert(is_first(all, ifindex, p));
        assert(all[p].0 == all[j].0);
    }
}

/// The devices of a pass, and the counters of those that it leaves alone.
#[verifier::spinoff_prover]
#[verifier::rlimit(40)]
proof fn lemma_device_pass(
    groups: Seq<((Seq<char>, Seq<u8>), GroupFacts)>,
    topology: Seq<InterfaceFacts>,
    monitored: Seq<Seq<char>>,
    readings: Seq<(DeviceTrafficKey, TrafficValue)>,
    hostnames: Seq<(Seq<u8>, Seq<char>)>,
    devices: Seq<((u32, Seq<u8>), DeviceMemory)>,
    elapsed_ms: u64,
    now_ms: u64,
    ledger: Ledger<DeviceCounter, (u32, Seq<u8>)>,
    key: (u32, Seq<u8>),
)
    requires
        unique_keys(by_index(topology)),
        unique_keys(groups),
        device_reads_apart(readings),
    ensures
        ({
            let (after, items) = device_pass(
                groups,
                topology,
                monitored,
                readings,
                hostnames,
                devices,
                elapsed_ms,
                now_ms,
                ledger,
            );
            match get(items, key) {
                Some(d) => {
                    &&& counts_of_device(d, key.0, key.1, readings, elapsed_ms, ledger)
                    &&& remembered(after.prev, readings, key)
                    &&& get(after.totals, key) == Some(d.cumulative)
                    &&& exists|g: int|
                        0 <= g < groups.len() && facts_of_device(
                            d,
                            key.0,
                            key.1,
                            #[trigger] groups[g],
                            topology,
                            monitored,
                            hostnames,
                            devices,
                            now_ms,
                        )
                },
                None => {
                    &&& get(after.totals, key) == get(ledger.totals, key)
                    &&& forall|k: DeviceCounter|
                        (k.0, k.1) == key ==> #[trigger] get(after.prev, k) == get(ledger.prev, k)
                    &&& forall|g: int|
                        0 <= g < groups.len() ==> !to_be_shown(
                            #[trigger] groups[g],
                            topology,
                            monitored,
                            key,
                        )
                },
            }
        }),
    decreases groups.len(),
{
    let (after, items) = device_pass(
        groups,
        topology,
        monitored,
        readings,
        hostnames,
        devices,
        elapsed_ms,
        now_ms,
        ledger,
    );
    if groups.len() == 0 {
        lemma_absent(items, key);
    } else {
        let init = groups.drop_last();
        let n = groups.len() - 1;
        assert forall|i: int| 0 <= i < init.len() implies (#[trigger] init[i]) == groups[i] by {}
        assert(unique_keys(init));
        lemma_device_pass(
            init,
            topology,
            monitored,
            readings,
            hostnames,
            devices,
            elapsed_ms,
            now_ms,
            ledger,
            key,
        );
        let (before, shown) = device_pass(
            init,
            topology,
            monitored,
            readings,
            hostnames,
            devices,
            elapsed_ms,
            now_ms,
            ledger,
        );
        let ((dev, mac), (ipv4, ipv6, state)) = groups.last();
        assert(groups[n] == groups.last());
        lemma_group_interface(topology, monitored, dev);
        let found = group_interface(topology, monitored, dev);
        if found is Some && ipv4.len() > 0 {
            let info = found->0;
            let k = (info.ifindex, mac);
            let of = of_device(readings, info.ifindex, mac);
            let (prev, metrics) = counted(before.prev, of, elapsed_ms);
            let total = quad_add(get_or(before.totals, k, zero_quad()), metrics);
            let item = DeviceShown {
                ifindex: info.ifindex,
                logical_iface: info.name,
                subnet: subnet_among(info.ipv4_cidrs, ipv4[0]),
                ipv4,
                ipv6,
                mac: mac_text(mac),
                hostname: device_hostname(hostnames, devices, info.ifindex, mac),
                metrics,
                cumulative: total,
                online: true,
                last_seen_ms: now_ms,
                neighbor_state: known_state(state),
            };
            assert(items == put(shown, k, item));
            lemma_device_views_apart(readings);
            lemma_of_device(readings, before.prev, elapsed_ms, info.ifindex, mac);
            law_readings_are_counted(before.prev, of, elapsed_ms);
            if k == key {
                law_put_get(shown, k, item);
                law_put_get(before.totals, k, total);
                assert forall|r: int|
                    0 <= r < readings.len() && (#[trigger] readings[r]).0.ifindex == key.0
                        && readings[r].0.mac@ == key.1 implies get(after.prev, readings[r].0@)
                    == Some(readings[r].1.bytes) by {
                    let i = choose|i: int|
                        0 <= i < of.len() && (#[trigger] of[i]).0 == readings[r].0@ && of[i].1.2
                            == readings[r].1.bytes;
                    assert(get(prev, of[i].0) == Some(of[i].1.2));
                }
                if let Some(d) = get(shown, key) {
                    let g = choose|g: int|
                        0 <= g < init.len() && facts_of_device(
                            d,
                            key.0,
                            key.1,
                            #[trigger] init[g],
                            topology,
                            monitored,
                            hostnames,
                            devices,
                            now_ms,
                        );
                    assert(init[g].0 == (info.name, mac));
                    assert(groups[g].0 == groups[n].0);
                }
                assert(get(shown, key) is None);
                assert(facts_of_device(
                    item,
                    key.0,
                    key.1,
                    groups[n],
                    topology,
                    monitored,
                    hostnames,
                    devices,
                    now_ms,
                ));
                assert forall|v: u8, d: u8|
                    #![trigger bytes_in(item.metrics, v, d)]
                    is_lane(v, d) implies {
                    let bytes = device_bytes(readings, ledger.prev, key.0, key.1, v, d);
                    let rate = device_rates(
                        readings,
                        ledger.prev,
                        elapsed_ms,
                        key.0,
                        key.1,
                        v,
                        d,
                    );
                    let old = get_or(ledger.totals, key, zero_quad());
                    &&& bytes_in(item.metrics, v, d) == capped(bytes)
                    &&& rate_in(item.metrics, v, d) == capped(rate)
                    &&& bytes_in(item.cumulative, v, d) == capped(
                        bytes_in(old, v, d) + capped(bytes),
                    )
                    &&& rate_in(item.cumulative, v, d) == capped(rate_in(old, v, d) + capped(rate))
                } by {
                    lemma_device_bytes_same(
                        readings,
                        before.prev,
                        ledger.prev,
                        elapsed_ms,
                        info.ifindex,
                        mac,
                        v,
                        d,
                    );
                    assert(lane_bytes(of, before.prev, v, d) == device_bytes(
                        readings,
                        before.prev,
                        info.ifindex,
                        mac,
                        v,
                        d,
                    ));
                    assert(lane_rates(of, before.prev, elapsed_ms, v, d) == device_rates(
                        readings,
                        before.prev,
                        elapsed_ms,
                        info.ifindex,
                        mac,
                        v,
                        d,
                    ));
                    law_lanes_add(get_or(before.totals, k, zero_quad()), metrics, v, d);
                }
            } else {
                law_put_get_other(shown, k, item, key);
                law_put_get_other(before.totals, k, total, key);
                assert forall|c: DeviceCounter| (c.0, c.1) == key implies #[trigger] get(
                    after.prev,
                    c,
                ) == get(before.prev, c) by {
                    assert forall|i: int| 0 <= i < of.len() implies (#[trigger] of[i]).0 != c by {
                        assert((of[i].0.0, of[i].0.1) == (info.ifindex, mac));
                    }
                    assert(get(prev, c) == get(before.prev, c));
                }
                if get(shown, key) is Some {
                    assert forall|r: int|
                        0 <= r < readings.len() && (#[trigger] readings[r]).0.ifindex == key.0
                            && readings[r].0.mac@ == key.1 implies get(after.prev, readings[r].0@)
                        == Some(readings[r].1.bytes) by {
                        let c = readings[r].0@;
                        assert((c.0, c.1) == key);
                        assert(get(after.prev, c) == get(before.prev, c));
                    }
                }
            }
        }
        if let Some(d) = get(items, key) {
            if !(found is Some && ipv4.len() > 0 && (found->0.ifindex, mac) == key) {
                let g = choose|g: int|
                    0 <= g < init.len() && facts_of_device(
                        d,
                        key.0,
                        key.1,
                        #[trigger] init[g],
                        topology,
                        monitored,
                        hostnames,
                        devices,
                        now_ms,
                    );
                assert(groups[g] == init[g]);
            }
        } else {
            assert forall|g: int| 0 <= g < groups.len() implies !to_be_shown(
                #[trigger] groups[g],
                topology,
                monitored,
                key,
            ) by {
                if g < n {
                    assert(init[g] == groups[g]);
                } else if to_be_shown(groups[g], topology, monitored, key) {
                    lemma_shown_interface(topology, dev, key.0);
                    assert(found is Some);
                    lemma_same_interface(topology, found->0, key.0);
                }
            }
        }
    }
}

/// A group of neighbours is to be shown as a device: it has an address of version 4, and its
/// interface is known under its name and watched.
pub open spec fn to_be_shown(
    group: ((Seq<char>, Seq<u8>), GroupFacts),
    topology: Seq<InterfaceFacts>,
    monitored: Seq<Seq<char>>,
    key: (u32, Seq<u8>),
) -> bool {
    &&& group.0.1 == key.1
    &&& group.1.0.len() > 0
    &&& monitored.len() == 0 || monitored.contains(group.0.0)
    &&& get(name_index(topology), group.0.0) == Some(key.0)
}

proof fn lemma_shown_interface(topology: Seq<InterfaceFacts>, dev: Seq<char>, ifindex: u32)
    requires
        get(name_index(topology), dev) == Some(ifindex),
    ensures
        exists|j: int| 0 <= j < topology.len() && (#[trigger] topology[j]).name == dev,
{
    lemma_name_index(topology, dev);
}

proof fn lemma_same_interface(topology: Seq<InterfaceFacts>, info: InterfaceFacts, ifindex: u32)
    requires
        unique_keys(by_index(topology)),
        interface_at(topology, info.ifindex) == Some(info),
        get(name_index(topology), info.name) == Some(ifindex),
    ensures
        interface_at(topology, ifindex) is Some,
{
    lemma_name_index(topology, info.name);
    let j = choose|j: int|
        0 <= j < topology.len() && (#[trigger] topology[j]).name == info.name
            && topology[j].ifindex == ifindex;
    let all = by_index(topology);
    assert(all[j] == (ifindex, topology[j]));
    lemma_occurs(all, j);
}


/// A neighbour entry is of a device on an interface, by the names of both.
pub open spec fn entry_of(n: NeighborFacts, dev: Seq<char>, mac: Seq<u8>) -> bool {
    n.0 == dev && n.1 == mac
}

/// The addresses and the state of a device are those of its neighbour entries: each address once,
/// the ones with a colon as version 6, the others as version 4, and of the states one that says
/// most.
pub open spec fn group_of(
    g: GroupFacts,
    s: Seq<NeighborFacts>,
    dev: Seq<char>,
    mac: Seq<u8>,
) -> bool {
    &&& forall|x: Seq<char>| #[trigger]
        g.0.contains(x) <==> !x.contains(':') && exists|i: int|
            0 <= i < s.len() && entry_of(#[trigger] s[i], dev, mac) && s[i].2 == x
    &&& forall|x: Seq<char>| #[trigger]
        g.1.contains(x) <==> x.contains(':') && exists|i: int|
            0 <= i < s.len() && entry_of(#[trigger] s[i], dev, mac) && s[i].2 == x
    &&& g.0.no_duplicates()
    &&& g.1.no_duplicates()
    &&& forall|i: int|
        0 <= i < s.len() && entry_of(#[trigger] s[i], dev, mac) ==> state_rank(s[i].3)
            <= state_rank(g.2)
    &&& g.2.len() == 0 || exists|i: int|
        0 <= i < s.len() && entry_of(#[trigger] s[i], dev, mac) && s[i].3 == g.2
}

proof fn lemma_with_text(s: Seq<Seq<char>>, text: Seq<char>)
    ensures
        s.no_duplicates() ==> with_text(s, text).no_duplicates(),
        forall|x: Seq<char>| #[trigger]
            with_text(s, text).contains(x) <==> s.contains(x) || x == text,
{
    let t = with_text(s, text);
    assert forall|x: Seq<char>| #[trigger] t.contains(x) <==> s.contains(x) || x == text by {
        if s.contains(x) {
            let i = s.index_of(x);
            assert(t[i] == x);
        }
        if x == text && !s.contains(text) {
            assert(t[s.len() as int] == x);
        }
        if t.contains(x) {
            let i = t.index_of(x);
            if i < s.len() {
                assert(s[i] == x);
            }
        }
    }
    if s.no_duplicates() && !s.contains(text) {
        assert forall|i: int, j: int| 0 <= i < t.len() && 0 <= j < t.len() && i != j implies t[i]
            != t[j] by {
            if i == s.len() {
                assert(s[j] == t[j]);
            } else if j == s.len() {
                assert(s[i] == t[i]);
            } else {
                assert(s[i] != s[j]);
            }
        }
    }
}

/// Neighbour entries are brought together by interface and MAC address: there is a group for each
/// that has an entry, once, with the addresses and the state of its entries.
#[verifier::spinoff_prover]
#[verifier::rlimit(40)]
pub proof fn law_neighbors_are_grouped(s: Seq<NeighborFacts>, dev: Seq<char>, mac: Seq<u8>)
    ensures
        unique_keys(grouped(s)),
        match get(grouped(s), (dev, mac)) {
            Some(g) => group_of(g, s, dev, mac),
            None => forall|i: int|
                0 <= i < s.len() ==> !entry_of(#[trigger] s[i], dev, mac),
        },
    decreases s.len(),
{
    let all = grouped(s);
    if s.len() == 0 {
        lemma_absent(all, (dev, mac));
    } else {
        let init = s.drop_last();
        let n = s.len() - 1;
        let last = s.last();
        law_neighbors_are_grouped(init, dev, mac);
        let before = grouped(init);
        let key = (last.0, last.1);
        let old = get_or(before, key, empty_group());
        let g = joined(old, last);
        law_put_keeps_unique(before, key, g);
        assert forall|i: int| 0 <= i < init.len() implies (#[trigger] init[i]) == s[i] by {}
        assert(s[n] == last);
        if key == (dev, mac) {
            law_put_get(before, key, g);
            lemma_with_text(old.0, last.2);
            lemma_with_text(old.1, last.2);
            assert(entry_of(s[n], dev, mac));
            assert forall|x: Seq<char>| #[trigger]
                g.0.contains(x) <==> !x.contains(':') && exists|i: int|
                    0 <= i < s.len() && entry_of(#[trigger] s[i], dev, mac) && s[i].2 == x by {
                lemma_entries_push(s, dev, mac, x);
                if get(before, key) is None {
                    assert(!old.0.contains(x));
                }
            }
            assert forall|x: Seq<char>| #[trigger]
                g.1.contains(x) <==> x.contains(':') && exists|i: int|
                    0 <= i < s.len() && entry_of(#[trigger] s[i], dev, mac) && s[i].2 == x by {
                lemma_entries_push(s, dev, mac, x);
                if get(before, key) is None {
                    assert(!old.1.contains(x));
                }
            }
            assert forall|i: int| 0 <= i < s.len() && entry_of(#[trigger] s[i], dev, mac) implies state_rank(
                s[i].3,
            ) <= state_rank(g.2) by {
                if i < n {
                    assert(entry_of(init[i], dev, mac));
                }
            }
            if g.2.len() > 0 && g.2 != last.3 {
                let i = choose|i: int|
                    0 <= i < init.len() && entry_of(#[trigger] init[i], dev, mac) && init[i].3
                        == old.2;
                assert(s[i] == init[i]);
            }
        } else {
            law_put_get_other(before, key, g, (dev, mac));
            if let Some(h) = get(before, (dev, mac)) {
                assert forall|x: Seq<char>| #[trigger]
                    h.0.contains(x) <==> !x.contains(':') && exists|i: int|
                        0 <= i < s.len() && entry_of(#[trigger] s[i], dev, mac) && s[i].2 == x by {
                    lemma_entries_push(s, dev, mac, x);
                }
                assert forall|x: Seq<char>| #[trigger]
                    h.1.contains(x) <==> x.contains(':') && exists|i: int|
                        0 <= i < s.len() && entry_of(#[trigger] s[i], dev, mac) && s[i].2 == x by {
                    lemma_entries_push(s, dev, mac, x);
                }
                assert forall|i: int|
                    0 <= i < s.len() && entry_of(#[trigger] s[i], dev, mac) implies state_rank(
                    s[i].3,
                ) <= state_rank(h.2) by {
                    if i < n {
                        assert(entry_of(init[i], dev, mac));
                    }
                }
                if h.2.len() > 0 {
                    let i = choose|i: int|
                        0 <= i < init.len() && entry_of(#[trigger] init[i], dev, mac) && init[i].3
                            == h.2;
                    assert(s[i] == init[i]);
                }
            } else {
                assert forall|i: int| 0 <= i < s.len() implies !entry_of(
                    #[trigger] s[i],
                    dev,
                    mac,
                ) by {
                    if i < n {
                        assert(!entry_of(init[i], dev, mac));
                    }
                }
            }
        }
    }
}

proof fn lemma_entries_push(
    s: Seq<NeighborFacts>,
    dev: Seq<char>,
    mac: Seq<u8>,
    x: Seq<char>,
)
    requires
        s.len() > 0,
    ensures
        (exists|i: int|
            0 <= i < s.len() && entry_of(#[trigger] s[i], dev, mac) && s[i].2 == x) <==> (exists|
            i: int,
        |
            0 <= i < s.drop_last().len() && entry_of(#[trigger] s.drop_last()[i], dev, mac)
                && s.drop_last()[i].2 == x) || (entry_of(s.last(), dev, mac) && s.last().2 == x),
{
    let init = s.drop_last();
    let n = s.len() - 1;
    if exists|i: int| 0 <= i < s.len() && entry_of(#[trigger] s[i], dev, mac) && s[i].2 == x {
        let i = choose|i: int|
            0 <= i < s.len() && entry_of(#[trigger] s[i], dev, mac) && s[i].2 == x;
        if i < n {
            assert(entry_of(init[i], dev, mac) && init[i].2 == x);
        }
    }
    if exists|i: int| 0 <= i < init.len() && entry_of(#[trigger] init[i], dev, mac) && init[i].2 == x {
        let i = choose|i: int|
            0 <= i < init.len() && entry_of(#[trigger] init[i], dev, mac) && init[i].2 == x;
        assert(entry_of(s[i], dev, mac) && s[i].2 == x);
    }
    assert(s[n] == s.last());
}

/// `d` is a device with this MAC address, with the counters that were read for it and what its
/// neighbour entries say of it. Its counters and its total are carried on.
pub open spec fn device_is_shown(
    d: DeviceShown,
    mac: Seq<u8>,
    m: RuntimeModel,
    input: SnapshotInput,
    now_ms: u64,
) -> bool {
    &&& counts_of_device(
        d,
        d.ifindex,
        mac,
        input.readings.device@,
        elapsed_since(m.last_snapshot_ms, now_ms),
        m.device,
    )
    &&& remembered(
        snapshot_pass(m, input, now_ms).0.device.prev,
        input.readings.device@,
        (d.ifindex, mac),
    )
    &&& get(snapshot_pass(m, input, now_ms).0.device.totals, (d.ifindex, mac)) == Some(d.cumulative)
    &&& exists|g: GroupFacts|
        #![trigger group_of(g, views(input.neighbors@), d.logical_iface, mac)]
        group_of(g, views(input.neighbors@), d.logical_iface, mac) && facts_of_device(
            d,
            d.ifindex,
            mac,
            ((d.logical_iface, mac), g),
            input.topology@,
            texts(input.monitor_ifaces@),
            input.hostname_by_mac.model(),
            m.devices,
            now_ms,
        )
}

/// `d` is a device with some MAC address.
pub open spec fn is_of_device(
    d: DeviceShown,
    m: RuntimeModel,
    input: SnapshotInput,
    now_ms: u64,
) -> bool {
    exists|mac: Seq<u8>| #[trigger] device_is_shown(d, mac, m, input, now_ms)
}

/// Where the interface of a neighbour entry is known, one of the devices is the entry's.
pub open spec fn among_devices(
    shown: Seq<DeviceShown>,
    n: NeighborFacts,
    topology: Seq<InterfaceFacts>,
) -> bool {
    get(name_index(topology), n.0) matches Some(ifindex) ==> (exists|i: int|
        0 <= i < shown.len() && (#[trigger] shown[i]).ifindex == ifindex && shown[i].mac
            == mac_text(n.1))
}

/// The devices of a snapshot, where no counter is read twice and each interface has its own index:
/// each shows the counters that were read for its interface and MAC address, of both directions
/// and both IP versions, and what its neighbour entries say of it. Every neighbour with an address
/// of version 4 on a known interface that is watched is shown.
pub proof fn law_snapshot_devices(m: RuntimeModel, input: SnapshotInput, now_ms: u64)
    requires
        device_reads_apart(input.readings.device@),
        unique_keys(by_index(input.topology@)),
    ensures
        ({
            let shown = snapshot_pass(m, input, now_ms).1.devices;
            let neighbors = views(input.neighbors@);
            &&& forall|i: int|
                0 <= i < shown.len() ==> is_of_device(#[trigger] shown[i], m, input, now_ms)
            &&& forall|n: int|
                0 <= n < neighbors.len() && !(#[trigger] neighbors[n]).2.contains(':') && watched(
                    texts(input.monitor_ifaces@),
                    neighbors[n].0,
                ) ==> among_devices(shown, neighbors[n], input.topology@)
        }),
{
    broadcast use vstd::seq_lib::group_to_multiset_ensures;

    let neighbors = views(input.neighbors@);
    let groups = grouped(neighbors);
    let elapsed_ms = elapsed_since(m.last_snapshot_ms, now_ms);
    let monitored = texts(input.monitor_ifaces@);
    let hostnames = input.hostname_by_mac.model();
    let items = device_pass(
        groups,
        input.topology@,
        monitored,
        input.readings.device@,
        hostnames,
        m.devices,
        elapsed_ms,
        now_ms,
        m.device,
    ).1;
    let plain = values(items);
    let shown = snapshot_pass(m, input, now_ms).1.devices;
    law_neighbors_are_grouped(neighbors, Seq::empty(), Seq::empty());
    lemma_device_items_unique(
        groups,
        input.topology@,
        monitored,
        input.readings.device@,
        hostnames,
        m.devices,
        elapsed_ms,
        now_ms,
        m.device,
    );
    law_descending_permutes(by_upload(plain));
    assert(items_of(by_upload(plain)) =~= plain);
    assert forall|i: int| 0 <= i < shown.len() implies is_of_device(
        #[trigger] shown[i],
        m,
        input,
        now_ms,
    ) by {
        assert(shown.contains(shown[i]));
        assert(plain.to_multiset().count(shown[i]) > 0);
        let j = plain.index_of(shown[i]);
        let (key, d) = items[j];
        assert(d == shown[i]);
        lemma_occurs(items, j);
        assert(is_first(items, key, position(items, key)));
        assert(get(items, key) == Some(d));
        lemma_device_pass(
            groups,
            input.topology@,
            monitored,
            input.readings.device@,
            hostnames,
            m.devices,
            elapsed_ms,
            now_ms,
            m.device,
            key,
        );
        let g = choose|g: int|
            0 <= g < groups.len() && facts_of_device(
                d,
                key.0,
                key.1,
                #[trigger] groups[g],
                input.topology@,
                monitored,
                hostnames,
                m.devices,
                now_ms,
            );
        let group = groups[g];
        lemma_occurs(groups, g);
        assert(is_first(groups, group.0, position(groups, group.0)));
        assert(get(groups, group.0) == Some(group.1));
        law_neighbors_are_grouped(neighbors, group.0.0, group.0.1);
        assert(group == ((d.logical_iface, key.1), group.1));
        assert(group_of(group.1, neighbors, d.logical_iface, key.1));
        assert(device_is_shown(shown[i], key.1, m, input, now_ms));
    }
    assert forall|n: int|
        0 <= n < neighbors.len() && !(#[trigger] neighbors[n]).2.contains(':') && watched(
            monitored,
            neighbors[n].0,
        ) implies among_devices(shown, neighbors[n], input.topology@) by {
        if let Some(ifindex) = get(name_index(input.topology@), neighbors[n].0) {
            let (dev, mac, ip, state) = neighbors[n];
            law_neighbors_are_grouped(neighbors, dev, mac);
            assert(entry_of(neighbors[n], dev, mac));
            let g = get(groups, (dev, mac))->0;
            assert(g.0.contains(ip));
            let at = position(groups, (dev, mac));
            assert(is_first(groups, (dev, mac), at));
            let key = (ifindex, mac);
            lemma_device_pass(
                groups,
                input.topology@,
                monitored,
                input.readings.device@,
                hostnames,
                m.devices,
                elapsed_ms,
                now_ms,
                m.device,
                key,
            );
            assert(to_be_shown(groups[at], input.topology@, monitored, key));
            let d = get(items, key)->0;
            let j = position(items, key);
            assert(is_first(items, key, j));
            assert(plain[j] == d);
            assert(plain.contains(d));
            assert(shown.to_multiset().count(d) > 0);
            let i = shown.index_of(d);
            assert(shown[i] == d);
        }
    }
}

proof fn lemma_device_items_unique(
    groups: Seq<((Seq<char>, Seq<u8>), GroupFacts)>,
    topology: Seq<InterfaceFacts>,
    monitored: Seq<Seq<char>>,
    readings: Seq<(DeviceTrafficKey, TrafficValue)>,
    hostnames: Seq<(Seq<u8>, Seq<char>)>,
    devices: Seq<((u32, Seq<u8>), DeviceMemory)>,
    elapsed_ms: u64,
    now_ms: u64,
    ledger: Ledger<DeviceCounter, (u32, Seq<u8>)>,
)
    ensures
        unique_keys(
            device_pass(
                groups,
                topology,
                monitored,
                readings,
                hostnames,
                devices,
                elapsed_ms,
                now_ms,
                ledger,
            ).1,
        ),
    decreases groups.len(),
{
    if groups.len() > 0 {
        lemma_device_items_unique(
            groups.drop_last(),
            topology,
            monitored,
            readings,
            hostnames,
            devices,
            elapsed_ms,
            now_ms,
            ledger,
        );
        let shown = device_pass(
            groups.drop_last(),
            topology,
            monitored,
            readings,
            hostnames,
            devices,
            elapsed_ms,
            now_ms,
            ledger,
        ).1;
        let after = device_pass(
            groups,
            topology,
            monitored,
            readings,
            hostnames,
            devices,
            elapsed_ms,
            now_ms,
            ledger,
        ).1;
        let ((dev, mac), (ipv4, ipv6, state)) = groups.last();
        if let Some(info) = group_interface(topology, monitored, dev) {
            if ipv4.len() > 0 {
                let key = (info.ifindex, mac);
                law_put_get(shown, key, get(after, key)->0);
                assert(exists|d: DeviceShown| after == put(shown, key, d));
                let d = choose|d: DeviceShown| after == put(shown, key, d);
                law_put_keeps_unique(shown, key, d);
            }
        }
    }
}


} // verus!
