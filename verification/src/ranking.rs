//! Who uses most: devices and addresses by their bytes.
use vstd::prelude::*;

use crate::api::{parse_traffic_type, shows, traffic_type_of, ApiEnvelope, UsageRankingQuery};
use crate::bucket::{
    bucket_bytes_total, metrics_of, quad_only, zero_out_quad_for_traffic_type, AggregatedBucket,
    CurrentHourPointState, HistoryTrafficType,
};
use crate::counters::{quad_total, CounterQuad};
use crate::histogram::{HistogramHistory, HistogramModel};
use crate::items::{text_copies, text_of, texts, views};
use crate::keys::{DeviceSeriesKey, IpSeriesKey};
use crate::names::{law_mac_text_round_trip, mac_text, mac_to_string};
use crate::recovery::{device_totals, ip_totals, ip_version_of};
use crate::runtime::{DeviceMemory, MonitorRuntime, RuntimeModel};
use crate::series::{completed_totals, lemma_totals_of_series, mac_or_zero, running_totals};
use crate::sort::{
    descending, items_of, keyed_views, law_descending_apart, law_descending_order,
    law_descending_permutes, lemma_descending_views, sort_descending,
};
use crate::table::{
    get, is_first, law_put_keeps_unique, lemma_absent, lemma_get_push, occurs, position, put,
    unique_keys, Table, TableKey,
};
use crate::text::{has_char, same_text};
use crate::topology::{
    interface_at, law_name_tells_index, names_apart, InterfaceFacts, InterfaceInfo,
    TopologySnapshot,
};

verus! {

/// The bytes of a device.
#[derive(Debug, Clone)]
pub struct UsageRankingItem {
    pub iface: String,
    pub mac: String,
    pub hostname: String,
    pub ipv4: Vec<String>,
    pub ipv6: Vec<String>,
    pub up_bytes: u64,
    pub down_bytes: u64,
    pub total_bytes: u64,
}

/// The bytes of an address.
#[derive(Debug, Clone)]
pub struct IpUsageRankingItem {
    pub iface: String,
    pub ip: String,
    pub ip_version: u8,
    pub up_bytes: u64,
    pub down_bytes: u64,
    pub total_bytes: u64,
}

/// What a ranked device shows.
#[verifier::ext_equal]
pub struct RankedDevice {
    pub iface: Seq<char>,
    pub mac: Seq<char>,
    pub hostname: Seq<char>,
    pub ipv4: Seq<Seq<char>>,
    pub ipv6: Seq<Seq<char>>,
    pub up_bytes: u64,
    pub down_bytes: u64,
    pub total_bytes: u64,
}

/// What a ranked address shows.
#[verifier::ext_equal]
pub struct RankedIp {
    pub iface: Seq<char>,
    pub ip: Seq<char>,
    pub ip_version: u8,
    pub up_bytes: u64,
    pub down_bytes: u64,
    pub total_bytes: u64,
}

impl View for UsageRankingItem {
    type V = RankedDevice;

    open spec fn view(&self) -> RankedDevice {
        RankedDevice {
            iface: self.iface@,
            mac: self.mac@,
            hostname: self.hostname@,
            ipv4: texts(self.ipv4@),
            ipv6: texts(self.ipv6@),
            up_bytes: self.up_bytes,
            down_bytes: self.down_bytes,
            total_bytes: self.total_bytes,
        }
    }
}

impl View for IpUsageRankingItem {
    type V = RankedIp;

    open spec fn view(&self) -> RankedIp {
        RankedIp {
            iface: self.iface@,
            ip: self.ip@,
            ip_version: self.ip_version,
            up_bytes: self.up_bytes,
            down_bytes: self.down_bytes,
            total_bytes: self.total_bytes,
        }
    }
}

/// The first entry of each key.
pub open spec fn first_of_each<K, V>(s: Seq<(K, V)>) -> Seq<(K, V)>
    decreases s.len(),
{
    if s.len() == 0 {
        s
    } else {
        let before = first_of_each(s.drop_last());
        if occurs(before, s.last().0) {
            before
        } else {
            before.push(s.last())
        }
    }
}

/// The sum of two counters, as 64 bits keep it.
pub open spec fn wrapped_add(a: u64, b: u64) -> u64 {
    if a + b > u64::MAX {
        (a + b - 0x1_0000_0000_0000_0000) as u64
    } else {
        (a + b) as u64
    }
}

/// The bytes sent.
pub open spec fn up_of(q: CounterQuad) -> u64 {
    wrapped_add(q.up_v4_bytes, q.up_v6_bytes)
}

/// The bytes received.
pub open spec fn down_of(q: CounterQuad) -> u64 {
    wrapped_add(q.down_v4_bytes, q.down_v6_bytes)
}

/// The bytes sent and received.
pub open spec fn all_of(q: CounterQuad) -> u64 {
    wrapped_add(wrapped_add(up_of(q), q.down_v4_bytes), q.down_v6_bytes)
}

/// The interface behind which something is ranked: known, and the one asked for, where one is.
pub open spec fn ranked_interface(
    topology: Seq<InterfaceFacts>,
    iface: Option<Seq<char>>,
    ifindex: u32,
) -> Option<InterfaceFacts> {
    match interface_at(topology, ifindex) {
        Some(info) => if iface matches Some(name) && info.name != name {
            None
        } else {
            Some(info)
        },
        None => None,
    }
}

/// Devices with their bytes, in the order of their totals.
pub open spec fn ranked_devices(
    totals: Seq<((u32, Seq<u8>), CounterQuad)>,
    topology: Seq<InterfaceFacts>,
    devices: Seq<((u32, Seq<u8>), DeviceMemory)>,
    iface: Option<Seq<char>>,
    traffic_type: HistoryTrafficType,
) -> Seq<RankedDevice>
    decreases totals.len(),
{
    if totals.len() == 0 {
        Seq::empty()
    } else {
        let before = ranked_devices(totals.drop_last(), topology, devices, iface, traffic_type);
        let ((ifindex, mac), counters) = totals.last();
        match ranked_interface(topology, iface, ifindex) {
            None => before,
            Some(info) => {
                let q = quad_only(counters, traffic_type);
                let (hostname, ipv4, ipv6) = match get(devices, (ifindex, mac)) {
                    Some(known) => (known.hostname, known.ipv4, known.ipv6),
                    None => (Seq::empty(), Seq::empty(), Seq::empty()),
                };
                before.push(
                    RankedDevice {
                        iface: info.name,
                        mac: mac_text(mac),
                        hostname,
                        ipv4,
                        ipv6,
                        up_bytes: up_of(q),
                        down_bytes: down_of(q),
                        total_bytes: all_of(q),
                    },
                )
            },
        }
    }
}

/// Addresses with their bytes, in the order of their totals.
pub open spec fn ranked_ips(
    totals: Seq<((u32, Seq<char>), CounterQuad)>,
    topology: Seq<InterfaceFacts>,
    iface: Option<Seq<char>>,
    traffic_type: HistoryTrafficType,
) -> Seq<RankedIp>
    decreases totals.len(),
{
    if totals.len() == 0 {
        Seq::empty()
    } else {
        let before = ranked_ips(totals.drop_last(), topology, iface, traffic_type);
        let ((ifindex, ip), counters) = totals.last();
        match ranked_interface(topology, iface, ifindex) {
            None => before,
            Some(info) => {
                let q = quad_only(counters, traffic_type);
                before.push(
                    RankedIp {
                        iface: info.name,
                        ip,
                        ip_version: ip_version_of(ip),
                        up_bytes: up_of(q),
                        down_bytes: down_of(q),
                        total_bytes: all_of(q),
                    },
                )
            },
        }
    }
}

/// The first items, as many as a limit allows; a limit of zero, or none, allows all.
pub open spec fn limited<T>(s: Seq<T>, limit: Option<usize>) -> Seq<T> {
    match limit {
        Some(n) => if 0 < n && n < s.len() {
            s.take(n as int)
        } else {
            s
        },
        None => s,
    }
}

/// Devices with the bytes by which they are ranked.
pub open spec fn devices_by_total(s: Seq<RankedDevice>) -> Seq<(u64, RankedDevice)> {
    s.map_values(|d: RankedDevice| (d.total_bytes, d))
}

/// Addresses with the bytes by which they are ranked.
pub open spec fn ips_by_total(s: Seq<RankedIp>) -> Seq<(u64, RankedIp)> {
    s.map_values(|i: RankedIp| (i.total_bytes, i))
}

/// The first entry of each key in two tables.
fn first_entries<K: TableKey>(
    a: &Table<K, CounterQuad>,
    b: &Table<K, CounterQuad>,
) -> (r: Table<K, CounterQuad>)
    ensures
        r.model() == first_of_each(a.model() + b.model()),
{
    let mut r: Table<K, CounterQuad> = Table::new();
    let ghost all = a.model() + b.model();
    let n = a.entries.len();
    let mut i: usize = 0;
    while i < n
        invariant
            i <= n,
            n == a.entries@.len(),
            all == a.model() + b.model(),
            r.model() == first_of_each(all.take(i as int)),
        decreases n - i,
    {
        let entry = &a.entries[i];
        assert(all.take(i + 1).drop_last() =~= all.take(i as int));
        assert(all[i as int] == (entry.0@, entry.1));
        if r.find(&entry.0).is_none() {
            r.put(entry.0.duplicate(), entry.1);
        }
        i += 1;
    }
    let m = b.entries.len();
    let mut j: usize = 0;
    while j < m
        invariant
            j <= m,
            n == a.entries@.len(),
            m == b.entries@.len(),
            all == a.model() + b.model(),
            r.model() == first_of_each(all.take(n + j)),
        decreases m - j,
    {
        let entry = &b.entries[j];
        assert(all.take(n + j + 1).drop_last() =~= all.take(n + j));
        assert(all[n + j] == (entry.0@, entry.1));
        if r.find(&entry.0).is_none() {
            r.put(entry.0.duplicate(), entry.1);
        }
        j += 1;
    }
    assert(all.take(n + j) =~= all);
    r
}

/// The interface behind which something is ranked.
fn interface_to_rank<'a>(
    topology: &'a TopologySnapshot,
    iface: &Option<String>,
    ifindex: u32,
) -> (r: Option<&'a InterfaceInfo>)
    ensures
        match r {
            Some(info) => ranked_interface(topology@, text_of(*iface), ifindex) == Some(info@),
            None => ranked_interface(topology@, text_of(*iface), ifindex) is None,
        },
{
    match topology.by_ifindex(ifindex) {
        Some(info) => {
            if let Some(expected) = iface {
                if !same_text(info.name.as_str(), expected.as_str()) {
                    return None;
                }
            }
            Some(info)
        },
        None => None,
    }
}

fn up_total(q: &CounterQuad) -> (r: u64)
    ensures
        r == up_of(*q),
{
    q.up_v4_bytes.wrapping_add(q.up_v6_bytes)
}

fn down_total(q: &CounterQuad) -> (r: u64)
    ensures
        r == down_of(*q),
{
    q.down_v4_bytes.wrapping_add(q.down_v6_bytes)
}

fn all_total(q: &CounterQuad) -> (r: u64)
    ensures
        r == all_of(*q),
{
    up_total(q).wrapping_add(q.down_v4_bytes).wrapping_add(q.down_v6_bytes)
}

/// The totals by which devices are ranked: those of the hourly history, and those of the
/// completed hours that the monitor carries for devices that the history does not have.
pub open spec fn device_usage(
    histogram: HistogramModel,
    runtime: RuntimeModel,
) -> Seq<((u32, Seq<u8>), CounterQuad)> {
    first_of_each(
        device_totals(histogram) + completed_totals::<DeviceSeriesKey>(
            runtime.histogram.device.completed,
        ),
    )
}

/// The totals by which addresses are ranked: those of the hourly history, and those of the
/// completed hours that the monitor carries for addresses that the history does not have.
pub open spec fn ip_usage(
    histogram: HistogramModel,
    runtime: RuntimeModel,
) -> Seq<((u32, Seq<char>), CounterQuad)> {
    first_of_each(
        ip_totals(histogram) + completed_totals::<IpSeriesKey>(runtime.histogram.ip.completed),
    )
}

/// The devices that use most, the one with most bytes first, as many as a limit allows.
pub open spec fn device_ranking(
    histogram: HistogramModel,
    runtime: RuntimeModel,
    topology: Seq<InterfaceFacts>,
    iface: Option<Seq<char>>,
    traffic_type: HistoryTrafficType,
    limit: Option<usize>,
) -> Seq<RankedDevice> {
    let items = ranked_devices(
        device_usage(histogram, runtime),
        topology,
        runtime.devices,
        iface,
        traffic_type,
    );
    limited(descending(devices_by_total(items)), limit)
}

/// The addresses that use most, the one with most bytes first, as many as a limit allows.
pub open spec fn ip_ranking(
    histogram: HistogramModel,
    runtime: RuntimeModel,
    topology: Seq<InterfaceFacts>,
    iface: Option<Seq<char>>,
    traffic_type: HistoryTrafficType,
    limit: Option<usize>,
) -> Seq<RankedIp> {
    let items = ranked_ips(ip_usage(histogram, runtime), topology, iface, traffic_type);
    limited(descending(ips_by_total(items)), limit)
}

/// Answers a request for the devices that use most, the one with most bytes first.
pub fn usage_ranking(
    topology: &TopologySnapshot,
    histogram: &HistogramHistory,
    runtime: &MonitorRuntime,
    q: &UsageRankingQuery,
) -> (e: ApiEnvelope<Vec<UsageRankingItem>>)
    ensures
        shows(
            e,
            device_ranking(
                histogram@,
                runtime@,
                topology@,
                text_of(q.iface),
                traffic_type_of(q.traffic_type),
                q.limit,
            ),
        ),
{
    let (_, completed, _) = runtime.last_snapshot_histogram_state.cumulative_from_completed();
    let (_, current, _) = histogram.cumulative_from_all();
    let totals = first_entries(&current, &completed);
    let traffic_type = parse_traffic_type(&q.traffic_type);
    let mut keyed: Vec<(u64, UsageRankingItem)> = Vec::new();
    let ghost all = totals.model();
    let n = totals.entries.len();
    let mut i: usize = 0;
    assert(keyed_views(keyed@) =~= devices_by_total(Seq::empty()));
    while i < n
        invariant
            i <= n,
            n == totals.entries@.len(),
            all == totals.model(),
            keyed_views(keyed@) == devices_by_total(
                ranked_devices(
                    all.take(i as int),
                    topology@,
                    runtime@.devices,
                    text_of(q.iface),
                    traffic_type,
                ),
            ),
        decreases n - i,
    {
        let entry = &totals.entries[i];
        let (ifindex, mac) = (entry.0.0, entry.0.1);
        assert(all.take(i + 1).drop_last() =~= all.take(i as int));
        assert(all[i as int] == (entry.0@, entry.1));
        if let Some(info) = interface_to_rank(topology, &q.iface, ifindex) {
            let total = zero_out_quad_for_traffic_type(entry.1, traffic_type);
            let (hostname, ipv4, ipv6) = match runtime.device_registry.entries.get(&entry.0) {
                Some(known) => (
                    known.hostname.clone(),
                    text_copies(&known.ipv4),
                    text_copies(&known.ipv6),
                ),
                None => {
                    let none = (String::new(), Vec::new(), Vec::new());
                    assert(none.0@ =~= Seq::empty());
                    assert(texts(none.1@) =~= Seq::empty());
                    assert(texts(none.2@) =~= Seq::empty());
                    none
                },
            };
            let item = UsageRankingItem {
                iface: info.name.clone(),
                mac: mac_to_string(&mac),
                hostname,
                ipv4,
                ipv6,
                up_bytes: up_total(&total),
                down_bytes: down_total(&total),
                total_bytes: all_total(&total),
            };
            let ghost before = keyed@;
            let ghost shown = ranked_devices(
                all.take(i as int),
                topology@,
                runtime@.devices,
                text_of(q.iface),
                traffic_type,
            );
            keyed.push((item.total_bytes, item));
            assert(keyed_views(keyed@) =~= keyed_views(before).push((item.total_bytes, item@)));
            assert(devices_by_total(shown.push(item@)) =~= devices_by_total(shown).push(
                (item.total_bytes, item@),
            ));
        }
        i += 1;
    }
    assert(all.take(i as int) =~= all);
    proof {
        lemma_descending_views(keyed@);
    }
    let mut items = sort_descending(keyed);
    let ghost sorted = items@;
    if let Some(limit) = q.limit {
        if limit > 0 && limit < items.len() {
            items.truncate(limit);
            assert(views(items@) =~= views(sorted).take(limit as int));
        }
    }
    ApiEnvelope { ok: true, data: items, error: None }
}

/// Answers a request for the addresses that use most, the one with most bytes first.
pub fn ip_usage_ranking(
    topology: &TopologySnapshot,
    histogram: &HistogramHistory,
    runtime: &MonitorRuntime,
    q: &UsageRankingQuery,
) -> (e: ApiEnvelope<Vec<IpUsageRankingItem>>)
    ensures
        shows(
            e,
            ip_ranking(
                histogram@,
                runtime@,
                topology@,
                text_of(q.iface),
                traffic_type_of(q.traffic_type),
                q.limit,
            ),
        ),
{
    let (_, _, completed) = runtime.last_snapshot_histogram_state.cumulative_from_completed();
    let (_, _, current) = histogram.cumulative_from_all();
    let totals = first_entries(&current, &completed);
    let traffic_type = parse_traffic_type(&q.traffic_type);
    let mut keyed: Vec<(u64, IpUsageRankingItem)> = Vec::new();
    let ghost all = totals.model();
    let n = totals.entries.len();
    let mut i: usize = 0;
    assert(keyed_views(keyed@) =~= ips_by_total(Seq::empty()));
    while i < n
        invariant
            i <= n,
            n == totals.entries@.len(),
            all == totals.model(),
            keyed_views(keyed@) == ips_by_total(
                ranked_ips(all.take(i as int), topology@, text_of(q.iface), traffic_type),
            ),
        decreases n - i,
    {
        let entry = &totals.entries[i];
        assert(all.take(i + 1).drop_last() =~= all.take(i as int));
        assert(all[i as int] == (entry.0@, entry.1));
        if let Some(info) = interface_to_rank(topology, &q.iface, entry.0.0) {
            let total = zero_out_quad_for_traffic_type(entry.1, traffic_type);
            let item = IpUsageRankingItem {
                iface: info.name.clone(),
                ip: entry.0.1.clone(),
                ip_version: if has_char(entry.0.1.as_str(), ':') {
                    6
                } else {
                    4
                },
                up_bytes: up_total(&total),
                down_bytes: down_total(&total),
                total_bytes: all_total(&total),
            };
            let ghost before = keyed@;
            let ghost shown = ranked_ips(
                all.take(i as int),
                topology@,
                text_of(q.iface),
                traffic_type,
            );
            keyed.push((item.total_bytes, item));
            assert(keyed_views(keyed@) =~= keyed_views(before).push((item.total_bytes, item@)));
            assert(ips_by_total(shown.push(item@)) =~= ips_by_total(shown).push(
                (item.total_bytes, item@),
            ));
        }
        i += 1;
    }
    assert(all.take(i as int) =~= all);
    proof {
        lemma_descending_views(keyed@);
    }
    let mut items = sort_descending(keyed);
    let ghost sorted = items@;
    if let Some(limit) = q.limit {
        if limit > 0 && limit < items.len() {
            items.truncate(limit);
            assert(views(items@) =~= views(sorted).take(limit as int));
        }
    }
    ApiEnvelope { ok: true, data: items, error: None }
}

/// Devices are ranked by their bytes, the one with most first.
pub proof fn law_device_ranking_descends(s: Seq<RankedDevice>)
    ensures
        descending(devices_by_total(s)).len() == s.len(),
        forall|i: int, j: int|
            0 <= i <= j < s.len() ==> (#[trigger] descending(devices_by_total(s))[i]).total_bytes
                >= (#[trigger] descending(devices_by_total(s))[j]).total_bytes,
{
    let size = |d: RankedDevice| d.total_bytes;
    law_descending_order(devices_by_total(s), size);
    assert forall|i: int, j: int| 0 <= i <= j < s.len() implies (#[trigger] descending(
        devices_by_total(s),
    )[i]).total_bytes >= (#[trigger] descending(devices_by_total(s))[j]).total_bytes by {
        assert(size(descending(devices_by_total(s))[i]) >= size(
            descending(devices_by_total(s))[j],
        ));
    }
}

/// Addresses are ranked by their bytes, the one with most first.
pub proof fn law_ip_ranking_descends(s: Seq<RankedIp>)
    ensures
        descending(ips_by_total(s)).len() == s.len(),
        forall|i: int, j: int|
            0 <= i <= j < s.len() ==> (#[trigger] descending(ips_by_total(s))[i]).total_bytes >= (
            #[trigger] descending(ips_by_total(s))[j]).total_bytes,
{
    let size = |d: RankedIp| d.total_bytes;
    law_descending_order(ips_by_total(s), size);
    assert forall|i: int, j: int| 0 <= i <= j < s.len() implies (#[trigger] descending(
        ips_by_total(s),
    )[i]).total_bytes >= (#[trigger] descending(ips_by_total(s))[j]).total_bytes by {
        assert(size(descending(ips_by_total(s))[i]) >= size(descending(ips_by_total(s))[j]));
    }
}

/// Nothing is ranked twice, and what has a total is ranked by the first that there is.
pub proof fn law_ranked_once<K, V>(s: Seq<(K, V)>, key: K)
    ensures
        unique_keys(first_of_each(s)),
        get(first_of_each(s), key) == get(s, key),
    decreases s.len(),
{
    if s.len() > 0 {
        let init = s.drop_last();
        let last = s.last();
        law_ranked_once(init, key);
        law_ranked_once(init, last.0);
        let before = first_of_each(init);
        if !occurs(before, last.0) {
            law_put_keeps_unique(before, last.0, last.1);
            assert(put(before, last.0, last.1) == before.push(last));
        }
        assert(s =~= init.push(last));
        lemma_get_push(init, last, key);
        if !occurs(before, last.0) {
            lemma_get_push(before, last, key);
        }
    }
}

/// A ranking has as many items as its limit, as far as there are so many, unless the limit is zero
/// or there is none. They are the first.
pub proof fn law_ranking_is_limited<T>(s: Seq<T>, limit: usize)
    ensures
        limit > 0 ==> limited(s, Some(limit)).len() <= limit,
        0 < limit <= s.len() ==> limited(s, Some(limit)).len() == limit,
        s.len() < limit ==> limited(s, Some(limit)) == s,
        limited(s, None) == s,
        limit == 0 ==> limited(s, Some(limit)) == s,
        limited(s, Some(limit)).is_prefix_of(s),
{
}

/// All bytes of some counters are those sent and those received together.
proof fn lemma_all_is_up_and_down(q: CounterQuad)
    ensures
        all_of(q) == wrapped_add(up_of(q), down_of(q)),
{
}

/// The ranked device `d` comes from the total of the device `key`.
pub open spec fn stems_from(
    d: RankedDevice,
    key: (u32, Seq<u8>),
    topology: Seq<InterfaceFacts>,
    iface: Option<Seq<char>>,
) -> bool {
    &&& ranked_interface(topology, iface, key.0) matches Some(info) && info.name == d.iface
    &&& d.mac == mac_text(key.1)
    &&& d.total_bytes == wrapped_add(d.up_bytes, d.down_bytes)
}

proof fn lemma_ranked_devices(
    totals: Seq<((u32, Seq<u8>), CounterQuad)>,
    topology: Seq<InterfaceFacts>,
    devices: Seq<((u32, Seq<u8>), DeviceMemory)>,
    iface: Option<Seq<char>>,
    traffic_type: HistoryTrafficType,
)
    requires
        unique_keys(totals),
        forall|i: int| 0 <= i < totals.len() ==> (#[trigger] totals[i]).0.1.len() == 6,
    ensures
        ({
            let items = ranked_devices(totals, topology, devices, iface, traffic_type);
            &&& forall|k: int|
                0 <= k < items.len() ==> exists|i: int|
                    0 <= i < totals.len() && stems_from(
                        #[trigger] items[k],
                        (#[trigger] totals[i]).0,
                        topology,
                        iface,
                    )
            &&& names_apart(topology) ==> forall|i: int, j: int|
                0 <= i < j < items.len() ==> ((#[trigger] items[i]).iface, items[i].mac) != ((
                #[trigger] items[j]).iface, items[j].mac)
        }),
    decreases totals.len(),
{
    if totals.len() > 0 {
        let init = totals.drop_last();
        let n = totals.len() - 1;
        assert(unique_keys(init));
        lemma_ranked_devices(init, topology, devices, iface, traffic_type);
        let before = ranked_devices(init, topology, devices, iface, traffic_type);
        let items = ranked_devices(totals, topology, devices, iface, traffic_type);
        let (key, counters) = totals.last();
        lemma_all_is_up_and_down(quad_only(counters, traffic_type));
        assert forall|k: int| 0 <= k < items.len() implies exists|i: int|
            0 <= i < totals.len() && stems_from(
                #[trigger] items[k],
                (#[trigger] totals[i]).0,
                topology,
                iface,
            ) by {
            if k < before.len() {
                assert(items[k] == before[k]);
                let i = choose|i: int|
                    0 <= i < init.len() && stems_from(
                        before[k],
                        (#[trigger] init[i]).0,
                        topology,
                        iface,
                    );
                assert(init[i] == totals[i]);
            } else {
                assert(stems_from(items[k], totals[n].0, topology, iface));
            }
        }
        if names_apart(topology) {
            assert forall|i: int, j: int| 0 <= i < j < items.len() implies ((
            #[trigger] items[i]).iface, items[i].mac) != ((#[trigger] items[j]).iface, items[j].mac) by {
                assert(items[i] == before[i]);
                if j < before.len() {
                    assert(items[j] == before[j]);
                } else {
                    let k = choose|k: int|
                        0 <= k < init.len() && stems_from(
                            before[i],
                            (#[trigger] init[k]).0,
                            topology,
                            iface,
                        );
                    assert(init[k] == totals[k]);
                    assert(stems_from(items[j], totals[n].0, topology, iface));
                    if (items[i].iface, items[i].mac) == (items[j].iface, items[j].mac) {
                        law_name_tells_index(topology, totals[k].0.0, key.0);
                        law_mac_text_round_trip(totals[k].0.1);
                        law_mac_text_round_trip(key.1);
                        assert(totals[k].0 == totals[n].0);
                    }
                }
            }
        }
    }
}

proof fn lemma_put_macs<V>(s: Seq<((u32, Seq<u8>), V)>, key: (u32, Seq<u8>), v: V)
    requires
        forall|i: int| 0 <= i < s.len() ==> (#[trigger] s[i]).0.1.len() == 6,
        key.1.len() == 6,
    ensures
        forall|i: int| 0 <= i < put(s, key, v).len() ==> (#[trigger] put(s, key, v)[i]).0.1.len()
            == 6,
{
    if occurs(s, key) {
        assert(is_first(s, key, position(s, key)));
    }
}

proof fn lemma_completed_macs(s: Seq<((u32, Seq<char>), Seq<AggregatedBucket>)>)
    ensures
        forall|i: int|
            0 <= i < completed_totals::<DeviceSeriesKey>(s).len() ==> (
            #[trigger] completed_totals::<DeviceSeriesKey>(s)[i]).0.1.len() == 6,
    decreases s.len(),
{
    if s.len() > 0 {
        lemma_completed_macs(s.drop_last());
        lemma_put_macs(
            completed_totals::<DeviceSeriesKey>(s.drop_last()),
            (s.last().0.0, mac_or_zero(s.last().0.1)),
            bucket_bytes_total(s.last().1),
        );
    }
}

proof fn lemma_running_macs(
    totals: Seq<((u32, Seq<u8>), CounterQuad)>,
    s: Seq<((u32, Seq<char>), (u64, Seq<CurrentHourPointState>))>,
)
    requires
        forall|i: int| 0 <= i < totals.len() ==> (#[trigger] totals[i]).0.1.len() == 6,
    ensures
        forall|i: int|
            0 <= i < running_totals::<DeviceSeriesKey>(totals, s).len() ==> (
            #[trigger] running_totals::<DeviceSeriesKey>(totals, s)[i]).0.1.len() == 6,
    decreases s.len(),
{
    if s.len() > 0 {
        lemma_running_macs(totals, s.drop_last());
        lemma_put_macs(
            running_totals::<DeviceSeriesKey>(totals, s.drop_last()),
            (s.last().0.0, mac_or_zero(s.last().0.1)),
            quad_total(metrics_of(s.last().1.1)),
        );
    }
}

proof fn lemma_first_macs(s: Seq<((u32, Seq<u8>), CounterQuad)>)
    requires
        forall|i: int| 0 <= i < s.len() ==> (#[trigger] s[i]).0.1.len() == 6,
    ensures
        forall|i: int|
            0 <= i < first_of_each(s).len() ==> (#[trigger] first_of_each(s)[i]).0.1.len() == 6,
    decreases s.len(),
{
    if s.len() > 0 {
        assert forall|i: int| 0 <= i < s.drop_last().len() implies (
        #[trigger] s.drop_last()[i]).0.1.len() == 6 by {
            assert(s.drop_last()[i] == s[i]);
        }
        lemma_first_macs(s.drop_last());
        let before = first_of_each(s.drop_last());
        let after = first_of_each(s);
        assert(s[s.len() - 1].0.1.len() == 6);
        assert forall|i: int| 0 <= i < after.len() implies (#[trigger] after[i]).0.1.len() == 6 by {
            if i < before.len() {
                assert(after[i] == before[i]);
            }
        }
    }
}

/// What a ranking of devices promises: the ones with most bytes come first; the total of each is
/// what it sent and received, as far as 64 bits hold it; each is behind the interface asked for,
/// where one is; where interfaces of one name have one index, no two have interface and MAC
/// address in common. A limit keeps that many of the devices that there are without it, and none
/// that is left out has more bytes than one that is kept.
pub proof fn law_device_ranking(
    histogram: HistogramModel,
    runtime: RuntimeModel,
    topology: Seq<InterfaceFacts>,
    iface: Option<Seq<char>>,
    traffic_type: HistoryTrafficType,
    limit: Option<usize>,
)
    ensures
        ({
            let all = device_ranking(histogram, runtime, topology, iface, traffic_type, None);
            let r = device_ranking(histogram, runtime, topology, iface, traffic_type, limit);
            &&& forall|i: int, j: int|
                0 <= i <= j < all.len() ==> (#[trigger] all[i]).total_bytes >= (
                #[trigger] all[j]).total_bytes
            &&& forall|i: int|
                0 <= i < all.len() ==> (#[trigger] all[i]).total_bytes == wrapped_add(
                    all[i].up_bytes,
                    all[i].down_bytes,
                )
            &&& forall|i: int|
                0 <= i < all.len() && (#[trigger] all[i]).up_bytes + all[i].down_bytes
                    <= u64::MAX ==> all[i].total_bytes == all[i].up_bytes + all[i].down_bytes
            &&& iface matches Some(name) ==> forall|i: int|
                0 <= i < all.len() ==> (#[trigger] all[i]).iface == name
            &&& names_apart(topology) ==> forall|i: int, j: int|
                0 <= i < j < all.len() ==> ((#[trigger] all[i]).iface, all[i].mac) != ((
                #[trigger] all[j]).iface, all[j].mac)
            &&& r.is_prefix_of(all)
            &&& r.len() == match limit {
                Some(n) => if 0 < n < all.len() {
                    n as nat
                } else {
                    all.len()
                },
                None => all.len(),
            }
            &&& forall|i: int, j: int|
                0 <= i < r.len() <= j < all.len() ==> (#[trigger] r[i]).total_bytes >= (
                #[trigger] all[j]).total_bytes
        }),
{
    broadcast use vstd::seq_lib::group_to_multiset_ensures;

    let usage = device_totals(histogram) + completed_totals::<DeviceSeriesKey>(
        runtime.histogram.device.completed,
    );
    let totals = first_of_each(usage);
    lemma_completed_macs(histogram.device.completed);
    lemma_running_macs(
        completed_totals::<DeviceSeriesKey>(histogram.device.completed),
        histogram.device.current,
    );
    lemma_completed_macs(runtime.histogram.device.completed);
    assert forall|i: int| 0 <= i < usage.len() implies (#[trigger] usage[i]).0.1.len() == 6 by {
        if i < device_totals(histogram).len() {
            assert(usage[i] == device_totals(histogram)[i]);
        } else {
            assert(usage[i] == completed_totals::<DeviceSeriesKey>(
                runtime.histogram.device.completed,
            )[i - device_totals(histogram).len()]);
        }
    }
    lemma_first_macs(usage);
    law_ranked_once(usage, (0u32, Seq::<u8>::empty()));
    lemma_ranked_devices(totals, topology, runtime.devices, iface, traffic_type);
    let items = ranked_devices(totals, topology, runtime.devices, iface, traffic_type);
    let keyed = devices_by_total(items);
    let all = device_ranking(histogram, runtime, topology, iface, traffic_type, None);
    law_device_ranking_descends(items);
    law_descending_permutes(keyed);
    assert(items_of(keyed) =~= items);
    assert forall|i: int| 0 <= i < all.len() implies (#[trigger] all[i]).total_bytes
        == wrapped_add(all[i].up_bytes, all[i].down_bytes) && (iface matches Some(name)
        ==> all[i].iface == name) by {
        assert(all.contains(all[i]));
        assert(items.to_multiset().count(all[i]) > 0);
        let k = items.index_of(all[i]);
        assert(items[k] == all[i]);
        let t = choose|t: int|
            0 <= t < totals.len() && stems_from(
                items[k],
                (#[trigger] totals[t]).0,
                topology,
                iface,
            );
        assert(stems_from(items[k], totals[t].0, topology, iface));
    }
    if names_apart(topology) {
        let name = |d: RankedDevice| (d.iface, d.mac);
        assert forall|i: int, j: int| 0 <= i < j < keyed.len() implies name(
            (#[trigger] keyed[i]).1,
        ) != name((#[trigger] keyed[j]).1) by {
            assert((items[i].iface, items[i].mac) != (items[j].iface, items[j].mac));
        }
        law_descending_apart(keyed, name);
        assert forall|i: int, j: int| 0 <= i < j < all.len() implies ((
        #[trigger] all[i]).iface, all[i].mac) != ((#[trigger] all[j]).iface, all[j].mac) by {
            assert(name(descending(keyed)[i]) != name(descending(keyed)[j]));
        }
    }
}

/// The ranked address `d` comes from the total of the address `key`.
pub open spec fn ip_stems_from(
    d: RankedIp,
    key: (u32, Seq<char>),
    topology: Seq<InterfaceFacts>,
    iface: Option<Seq<char>>,
) -> bool {
    &&& ranked_interface(topology, iface, key.0) matches Some(info) && info.name == d.iface
    &&& d.ip == key.1
    &&& d.total_bytes == wrapped_add(d.up_bytes, d.down_bytes)
}

proof fn lemma_ranked_ips(
    totals: Seq<((u32, Seq<char>), CounterQuad)>,
    topology: Seq<InterfaceFacts>,
    iface: Option<Seq<char>>,
    traffic_type: HistoryTrafficType,
)
    requires
        unique_keys(totals),
    ensures
        ({
            let items = ranked_ips(totals, topology, iface, traffic_type);
            &&& forall|k: int|
                0 <= k < items.len() ==> exists|i: int|
                    0 <= i < totals.len() && ip_stems_from(
                        #[trigger] items[k],
                        (#[trigger] totals[i]).0,
                        topology,
                        iface,
                    )
            &&& names_apart(topology) ==> forall|i: int, j: int|
                0 <= i < j < items.len() ==> ((#[trigger] items[i]).iface, items[i].ip) != ((
                #[trigger] items[j]).iface, items[j].ip)
        }),
    decreases totals.len(),
{
    if totals.len() > 0 {
        let init = totals.drop_last();
        let n = totals.len() - 1;
        assert(unique_keys(init));
        lemma_ranked_ips(init, topology, iface, traffic_type);
        let before = ranked_ips(init, topology, iface, traffic_type);
        let items = ranked_ips(totals, topology, iface, traffic_type);
        let (key, counters) = totals.last();
        lemma_all_is_up_and_down(quad_only(counters, traffic_type));
        assert forall|k: int| 0 <= k < items.len() implies exists|i: int|
            0 <= i < totals.len() && ip_stems_from(
                #[trigger] items[k],
                (#[trigger] totals[i]).0,
                topology,
                iface,
            ) by {
            if k < before.len() {
                assert(items[k] == before[k]);
                let i = choose|i: int|
                    0 <= i < init.len() && ip_stems_from(
                        before[k],
                        (#[trigger] init[i]).0,
                        topology,
                        iface,
                    );
                assert(init[i] == totals[i]);
            } else {
                assert(ip_stems_from(items[k], totals[n].0, topology, iface));
            }
        }
        if names_apart(topology) {
            assert forall|i: int, j: int| 0 <= i < j < items.len() implies ((
            #[trigger] items[i]).iface, items[i].ip) != ((#[trigger] items[j]).iface, items[j].ip) by {
                assert(items[i] == before[i]);
                if j < before.len() {
                    assert(items[j] == before[j]);
                } else {
                    let k = choose|k: int|
                        0 <= k < init.len() && ip_stems_from(
                            before[i],
                            (#[trigger] init[k]).0,
                            topology,
                            iface,
                        );
                    assert(init[k] == totals[k]);
                    assert(ip_stems_from(items[j], totals[n].0, topology, iface));
                    if (items[i].iface, items[i].ip) == (items[j].iface, items[j].ip) {
                        law_name_tells_index(topology, totals[k].0.0, key.0);
                        assert(totals[k].0 == totals[n].0);
                    }
                }
            }
        }
    }
}

/// What a ranking of addresses promises: the ones with most bytes come first; the total of each is
/// what it sent and received, as far as 64 bits hold it; each is behind the interface asked for,
/// where one is; where interfaces of one name have one index, no two have interface and address
/// in common. A limit keeps that many of the addresses that there are without it, and none
/// that is left out has more bytes than one that is kept.
pub proof fn law_ip_ranking(
    histogram: HistogramModel,
    runtime: RuntimeModel,
    topology: Seq<InterfaceFacts>,
    iface: Option<Seq<char>>,
    traffic_type: HistoryTrafficType,
    limit: Option<usize>,
)
    ensures
        ({
            let all = ip_ranking(histogram, runtime, topology, iface, traffic_type, None);
            let r = ip_ranking(histogram, runtime, topology, iface, traffic_type, limit);
            &&& forall|i: int, j: int|
                0 <= i <= j < all.len() ==> (#[trigger] all[i]).total_bytes >= (
                #[trigger] all[j]).total_bytes
            &&& forall|i: int|
                0 <= i < all.len() ==> (#[trigger] all[i]).total_bytes == wrapped_add(
                    all[i].up_bytes,
                    all[i].down_bytes,
                )
            &&& forall|i: int|
                0 <= i < all.len() && (#[trigger] all[i]).up_bytes + all[i].down_bytes
                    <= u64::MAX ==> all[i].total_bytes == all[i].up_bytes + all[i].down_bytes
            &&& iface matches Some(name) ==> forall|i: int|
                0 <= i < all.len() ==> (#[trigger] all[i]).iface == name
            &&& names_apart(topology) ==> forall|i: int, j: int|
                0 <= i < j < all.len() ==> ((#[trigger] all[i]).iface, all[i].ip) != ((
                #[trigger] all[j]).iface, all[j].ip)
            &&& r.is_prefix_of(all)
            &&& r.len() == match limit {
                Some(n) => if 0 < n < all.len() {
                    n as nat
                } else {
                    all.len()
                },
                None => all.len(),
            }
            &&& forall|i: int, j: int|
                0 <= i < r.len() <= j < all.len() ==> (#[trigger] r[i]).total_bytes >= (
                #[trigger] all[j]).total_bytes
        }),
{
    broadcast use vstd::seq_lib::group_to_multiset_ensures;

    let usage = ip_totals(histogram) + completed_totals::<IpSeriesKey>(
        runtime.histogram.ip.completed,
    );
    let totals = first_of_each(usage);
    law_ranked_once(usage, (0u32, Seq::<char>::empty()));
    lemma_ranked_ips(totals, topology, iface, traffic_type);
    let items = ranked_ips(totals, topology, iface, traffic_type);
    let keyed = ips_by_total(items);
    let all = ip_ranking(histogram, runtime, topology, iface, traffic_type, None);
    law_ip_ranking_descends(items);
    law_descending_permutes(keyed);
    assert(items_of(keyed) =~= items);
    assert forall|i: int| 0 <= i < all.len() implies (#[trigger] all[i]).total_bytes
        == wrapped_add(all[i].up_bytes, all[i].down_bytes) && (iface matches Some(name)
        ==> all[i].iface == name) by {
        assert(all.contains(all[i]));
        assert(items.to_multiset().count(all[i]) > 0);
        let k = items.index_of(all[i]);
        assert(items[k] == all[i]);
        let t = choose|t: int|
            0 <= t < totals.len() && ip_stems_from(
                items[k],
                (#[trigger] totals[t]).0,
                topology,
                iface,
            );
        assert(ip_stems_from(items[k], totals[t].0, topology, iface));
    }
    if names_apart(topology) {
        let name = |d: RankedIp| (d.iface, d.ip);
        assert forall|i: int, j: int| 0 <= i < j < keyed.len() implies name(
            (#[trigger] keyed[i]).1,
        ) != name((#[trigger] keyed[j]).1) by {
            assert((items[i].iface, items[i].ip) != (items[j].iface, items[j].ip));
        }
        law_descending_apart(keyed, name);
        assert forall|i: int, j: int| 0 <= i < j < all.len() implies ((
        #[trigger] all[i]).iface, all[i].ip) != ((#[trigger] all[j]).iface, all[j].ip) by {
            assert(name(descending(keyed)[i]) != name(descending(keyed)[j]));
        }
    }
}

/// The bytes sent by the IP versions asked for.
pub open spec fn sent(q: CounterQuad, traffic_type: HistoryTrafficType) -> int {
    match traffic_type {
        HistoryTrafficType::All => q.up_v4_bytes + q.up_v6_bytes,
        HistoryTrafficType::Ipv4 => q.up_v4_bytes as int,
        HistoryTrafficType::Ipv6 => q.up_v6_bytes as int,
    }
}

/// The bytes received by the IP versions asked for.
pub open spec fn received(q: CounterQuad, traffic_type: HistoryTrafficType) -> int {
    match traffic_type {
        HistoryTrafficType::All => q.down_v4_bytes + q.down_v6_bytes,
        HistoryTrafficType::Ipv4 => q.down_v4_bytes as int,
        HistoryTrafficType::Ipv6 => q.down_v6_bytes as int,
    }
}

/// What is behind an interface is to be ranked: the interface is known, and the one asked for
/// where one is.
pub open spec fn to_be_ranked(
    topology: Seq<InterfaceFacts>,
    iface: Option<Seq<char>>,
    ifindex: u32,
) -> bool {
    interface_at(topology, ifindex) matches Some(info) && (iface is None || iface == Some(
        info.name,
    ))
}

proof fn lemma_sums_wrap(q: CounterQuad, traffic_type: HistoryTrafficType)
    ensures
        ({
            let kept = quad_only(q, traffic_type);
            &&& up_of(kept) == sent(q, traffic_type) % 0x1_0000_0000_0000_0000
            &&& down_of(kept) == received(q, traffic_type) % 0x1_0000_0000_0000_0000
            &&& all_of(kept) == (sent(q, traffic_type) + received(q, traffic_type))
                % 0x1_0000_0000_0000_0000
        }),
{
}

/// The ranked device `d` shows the total of a device: its interface, which is the one asked for
/// where one is, what identifies it, and what it sent and received by the IP versions asked for,
/// as 64 bits keep it.
pub open spec fn shows_device(
    d: RankedDevice,
    entry: ((u32, Seq<u8>), CounterQuad),
    topology: Seq<InterfaceFacts>,
    devices: Seq<((u32, Seq<u8>), DeviceMemory)>,
    iface: Option<Seq<char>>,
    traffic_type: HistoryTrafficType,
) -> bool {
    &&& interface_at(topology, entry.0.0) matches Some(info) && d.iface == info.name
    &&& iface matches Some(name) ==> d.iface == name
    &&& d.up_bytes == sent(entry.1, traffic_type) % 0x1_0000_0000_0000_0000
    &&& d.down_bytes == received(entry.1, traffic_type) % 0x1_0000_0000_0000_0000
    &&& d.total_bytes == (sent(entry.1, traffic_type) + received(entry.1, traffic_type))
        % 0x1_0000_0000_0000_0000
    &&& d.mac == mac_text(entry.0.1)
    &&& match get(devices, entry.0) {
        Some(known) => d.hostname == known.hostname && d.ipv4 == known.ipv4 && d.ipv6 == known.ipv6,
        None => d.hostname.len() == 0 && d.ipv4.len() == 0 && d.ipv6.len() == 0,
    }
}

proof fn lemma_ranked_devices_show(
    totals: Seq<((u32, Seq<u8>), CounterQuad)>,
    topology: Seq<InterfaceFacts>,
    devices: Seq<((u32, Seq<u8>), DeviceMemory)>,
    iface: Option<Seq<char>>,
    traffic_type: HistoryTrafficType,
)
    ensures
        ({
            let items = ranked_devices(totals, topology, devices, iface, traffic_type);
            &&& forall|k: int|
                0 <= k < items.len() ==> exists|i: int|
                    0 <= i < totals.len() && shows_device(
                        #[trigger] items[k],
                        #[trigger] totals[i],
                        topology,
                        devices,
                        iface,
                        traffic_type,
                    )
            &&& forall|i: int|
                0 <= i < totals.len() && to_be_ranked(
                    topology,
                    iface,
                    (#[trigger] totals[i]).0.0,
                ) ==> exists|k: int|
                    0 <= k < items.len() && shows_device(
                        #[trigger] items[k],
                        totals[i],
                        topology,
                        devices,
                        iface,
                        traffic_type,
                    )
        }),
    decreases totals.len(),
{
    if totals.len() > 0 {
        let init = totals.drop_last();
        let n = totals.len() - 1;
        let last = totals.last();
        lemma_ranked_devices_show(init, topology, devices, iface, traffic_type);
        let before = ranked_devices(init, topology, devices, iface, traffic_type);
        let items = ranked_devices(totals, topology, devices, iface, traffic_type);
        lemma_sums_wrap(last.1, traffic_type);
        if items.len() > before.len() {
            assert(shows_device(
                items[before.len() as int],
                totals[n],
                topology,
                devices,
                iface,
                traffic_type,
            ));
        }
        assert forall|k: int| 0 <= k < items.len() implies exists|i: int|
            0 <= i < totals.len() && shows_device(
                #[trigger] items[k],
                #[trigger] totals[i],
                topology,
                devices,
                iface,
                traffic_type,
            ) by {
            if k < before.len() {
                assert(items[k] == before[k]);
                let i = choose|i: int|
                    0 <= i < init.len() && shows_device(
                        before[k],
                        #[trigger] init[i],
                        topology,
                        devices,
                        iface,
                        traffic_type,
                    );
                assert(init[i] == totals[i]);
            }
        }
        assert forall|i: int|
            0 <= i < totals.len() && to_be_ranked(
                topology,
                iface,
                (#[trigger] totals[i]).0.0,
            ) implies exists|k: int|
            0 <= k < items.len() && shows_device(
                #[trigger] items[k],
                totals[i],
                topology,
                devices,
                iface,
                traffic_type,
            ) by {
            if i < n {
                assert(init[i] == totals[i]);
                let k = choose|k: int|
                    0 <= k < before.len() && shows_device(
                        #[trigger] before[k],
                        init[i],
                        topology,
                        devices,
                        iface,
                        traffic_type,
                    );
                assert(items[k] == before[k]);
            }
        }
    }
}

/// A ranking without a limit shows usage: each device in it shows one of the totals, and each
/// total that is behind a known interface, the one asked for where one is, is shown.
pub proof fn law_device_ranking_shows_usage(
    histogram: HistogramModel,
    runtime: RuntimeModel,
    topology: Seq<InterfaceFacts>,
    iface: Option<Seq<char>>,
    traffic_type: HistoryTrafficType,
)
    ensures
        ({
            let all = device_ranking(histogram, runtime, topology, iface, traffic_type, None);
            let totals = device_usage(histogram, runtime);
            &&& forall|k: int|
                0 <= k < all.len() ==> exists|i: int|
                    0 <= i < totals.len() && shows_device(
                        #[trigger] all[k],
                        #[trigger] totals[i],
                        topology,
                        runtime.devices,
                        iface,
                        traffic_type,
                    )
            &&& forall|i: int|
                0 <= i < totals.len() && to_be_ranked(
                    topology,
                    iface,
                    (#[trigger] totals[i]).0.0,
                ) ==> exists|k: int|
                    0 <= k < all.len() && shows_device(
                        #[trigger] all[k],
                        totals[i],
                        topology,
                        runtime.devices,
                        iface,
                        traffic_type,
                    )
        }),
{
    broadcast use vstd::seq_lib::group_to_multiset_ensures;

    let totals = device_usage(histogram, runtime);
    lemma_ranked_devices_show(totals, topology, runtime.devices, iface, traffic_type);
    let items = ranked_devices(totals, topology, runtime.devices, iface, traffic_type);
    let keyed = devices_by_total(items);
    let all = device_ranking(histogram, runtime, topology, iface, traffic_type, None);
    law_descending_permutes(keyed);
    assert(items_of(keyed) =~= items);
    assert forall|k: int| 0 <= k < all.len() implies exists|i: int|
        0 <= i < totals.len() && shows_device(
            #[trigger] all[k],
            #[trigger] totals[i],
            topology,
            runtime.devices,
            iface,
            traffic_type,
        ) by {
        assert(all.contains(all[k]));
        assert(items.to_multiset().count(all[k]) > 0);
        let at = items.index_of(all[k]);
        assert(items[at] == all[k]);
    }
    assert forall|i: int|
        0 <= i < totals.len() && to_be_ranked(
            topology,
            iface,
            (#[trigger] totals[i]).0.0,
        ) implies exists|k: int|
        0 <= k < all.len() && shows_device(
            #[trigger] all[k],
            totals[i],
            topology,
            runtime.devices,
            iface,
            traffic_type,
        ) by {
        let at = choose|at: int|
            0 <= at < items.len() && shows_device(
                #[trigger] items[at],
                totals[i],
                topology,
                runtime.devices,
                iface,
                traffic_type,
            );
        assert(items.contains(items[at]));
        assert(all.to_multiset().count(items[at]) > 0);
        let k = all.index_of(items[at]);
        assert(all[k] == items[at]);
    }
}

/// The ranked address `d` shows the total of an address: its interface, which is the one asked for
/// where one is, what identifies it, and what it sent and received by the IP versions asked for,
/// as 64 bits keep it.
pub open spec fn shows_ip(
    d: RankedIp,
    entry: ((u32, Seq<char>), CounterQuad),
    topology: Seq<InterfaceFacts>,
    iface: Option<Seq<char>>,
    traffic_type: HistoryTrafficType,
) -> bool {
    &&& interface_at(topology, entry.0.0) matches Some(info) && d.iface == info.name
    &&& iface matches Some(name) ==> d.iface == name
    &&& d.up_bytes == sent(entry.1, traffic_type) % 0x1_0000_0000_0000_0000
    &&& d.down_bytes == received(entry.1, traffic_type) % 0x1_0000_0000_0000_0000
    &&& d.total_bytes == (sent(entry.1, traffic_type) + received(entry.1, traffic_type))
        % 0x1_0000_0000_0000_0000
    &&& d.ip == entry.0.1
    &&& d.ip_version == if entry.0.1.contains(':') {
        6u8
    } else {
        4u8
    }
}

proof fn lemma_ranked_ips_show(
    totals: Seq<((u32, Seq<char>), CounterQuad)>,
    topology: Seq<InterfaceFacts>,
    iface: Option<Seq<char>>,
    traffic_type: HistoryTrafficType,
)
    ensures
        ({
            let items = ranked_ips(totals, topology, iface, traffic_type);
            &&& forall|k: int|
                0 <= k < items.len() ==> exists|i: int|
                    0 <= i < totals.len() && shows_ip(
                        #[trigger] items[k],
                        #[trigger] totals[i],
                        topology,
                        iface,
                        traffic_type,
                    )
            &&& forall|i: int|
                0 <= i < totals.len() && to_be_ranked(
                    topology,
                    iface,
                    (#[trigger] totals[i]).0.0,
                ) ==> exists|k: int|
                    0 <= k < items.len() && shows_ip(
                        #[trigger] items[k],
                        totals[i],
                        topology,
                        iface,
                        traffic_type,
                    )
        }),
    decreases totals.len(),
{
    if totals.len() > 0 {
        let init = totals.drop_last();
        let n = totals.len() - 1;
        let last = totals.last();
        lemma_ranked_ips_show(init, topology, iface, traffic_type);
        let before = ranked_ips(init, topology, iface, traffic_type);
        let items = ranked_ips(totals, topology, iface, traffic_type);
        lemma_sums_wrap(last.1, traffic_type);
        if items.len() > before.len() {
            assert(shows_ip(
                items[before.len() as int],
                totals[n],
                topology,
                iface,
                traffic_type,
            ));
        }
        assert forall|k: int| 0 <= k < items.len() implies exists|i: int|
            0 <= i < totals.len() && shows_ip(
                #[trigger] items[k],
                #[trigger] totals[i],
                topology,
                iface,
                traffic_type,
            ) by {
            if k < before.len() {
                assert(items[k] == before[k]);
                let i = choose|i: int|
                    0 <= i < init.len() && shows_ip(
                        before[k],
                        #[trigger] init[i],
                        topology,
                        iface,
                        traffic_type,
                    );
                assert(init[i] == totals[i]);
            }
        }
        assert forall|i: int|
            0 <= i < totals.len() && to_be_ranked(
                topology,
                iface,
                (#[trigger] totals[i]).0.0,
            ) implies exists|k: int|
            0 <= k < items.len() && shows_ip(
                #[trigger] items[k],
                totals[i],
                topology,
                iface,
                traffic_type,
            ) by {
            if i < n {
                assert(init[i] == totals[i]);
                let k = choose|k: int|
                    0 <= k < before.len() && shows_ip(
                        #[trigger] before[k],
                        init[i],
                        topology,
                        iface,
                        traffic_type,
                    );
                assert(items[k] == before[k]);
            }
        }
    }
}

/// A ranking without a limit shows usage: each address in it shows one of the totals, and each
/// total that is behind a known interface, the one asked for where one is, is shown.
pub proof fn law_ip_ranking_shows_usage(
    histogram: HistogramModel,
    runtime: RuntimeModel,
    topology: Seq<InterfaceFacts>,
    iface: Option<Seq<char>>,
    traffic_type: HistoryTrafficType,
)
    ensures
        ({
            let all = ip_ranking(histogram, runtime, topology, iface, traffic_type, None);
            let totals = ip_usage(histogram, runtime);
            &&& forall|k: int|
                0 <= k < all.len() ==> exists|i: int|
                    0 <= i < totals.len() && shows_ip(
                        #[trigger] all[k],
                        #[trigger] totals[i],
                        topology,
                        iface,
                        traffic_type,
                    )
            &&& forall|i: int|
                0 <= i < totals.len() && to_be_ranked(
                    topology,
                    iface,
                    (#[trigger] totals[i]).0.0,
                ) ==> exists|k: int|
                    0 <= k < all.len() && shows_ip(
                        #[trigger] all[k],
                        totals[i],
                        topology,
                        iface,
                        traffic_type,
                    )
        }),
{
    broadcast use vstd::seq_lib::group_to_multiset_ensures;

    let totals = ip_usage(histogram, runtime);
    lemma_ranked_ips_show(totals, topology, iface, traffic_type);
    let items = ranked_ips(totals, topology, iface, traffic_type);
    let keyed = ips_by_total(items);
    let all = ip_ranking(histogram, runtime, topology, iface, traffic_type, None);
    law_descending_permutes(keyed);
    assert(items_of(keyed) =~= items);
    assert forall|k: int| 0 <= k < all.len() implies exists|i: int|
        0 <= i < totals.len() && shows_ip(
            #[trigger] all[k],
            #[trigger] totals[i],
            topology,
            iface,
            traffic_type,
        ) by {
        assert(all.contains(all[k]));
        assert(items.to_multiset().count(all[k]) > 0);
        let at = items.index_of(all[k]);
        assert(items[at] == all[k]);
    }
    assert forall|i: int|
        0 <= i < totals.len() && to_be_ranked(
            topology,
            iface,
            (#[trigger] totals[i]).0.0,
        ) implies exists|k: int|
        0 <= k < all.len() && shows_ip(
            #[trigger] all[k],
            totals[i],
            topology,
            iface,
            traffic_type,
        ) by {
        let at = choose|at: int|
            0 <= at < items.len() && shows_ip(
                #[trigger] items[at],
                totals[i],
                topology,
                iface,
                traffic_type,
            );
        assert(items.contains(items[at]));
        assert(all.to_multiset().count(items[at]) > 0);
        let k = all.index_of(items[at]);
        assert(all[k] == items[at]);
    }
}

/// What an address has used: the points of its running hour where it has one, else its completed
/// hours, else the completed hours that the monitor carries.
pub proof fn law_ip_usage(histogram: HistogramModel, runtime: RuntimeModel, key: (u32, Seq<char>))
    requires
        histogram.distinct(),
        runtime.histogram.distinct(),
    ensures
        get(ip_usage(histogram, runtime), key) == match get(histogram.ip.current, key) {
            Some((_, points)) => Some(quad_total(metrics_of(points))),
            None => match get(histogram.ip.completed, key) {
                Some(hours) => Some(bucket_bytes_total(hours)),
                None => match get(runtime.histogram.ip.completed, key) {
                    Some(hours) => Some(bucket_bytes_total(hours)),
                    None => None,
                },
            },
        },
{
    let totals = ip_totals(histogram);
    let carried = completed_totals::<IpSeriesKey>(runtime.histogram.ip.completed);
    lemma_totals_of_series::<IpSeriesKey>(histogram.ip.completed, histogram.ip.current, key);
    lemma_totals_of_series::<IpSeriesKey>(runtime.histogram.ip.completed, Seq::empty(), key);
    law_ranked_once(totals + carried, key);
    lemma_get_concat(totals, carried, key);
}

/// What a device has used, where no other of its series stands for the same MAC address: the
/// points of its running hour where it has one, else its completed hours, else the completed hours
/// that the monitor carries.
pub proof fn law_device_usage(
    histogram: HistogramModel,
    runtime: RuntimeModel,
    key: (u32, Seq<char>),
)
    requires
        histogram.distinct(),
        runtime.histogram.distinct(),
        one_text_for(histogram.device.completed, key),
        one_text_for(histogram.device.current, key),
        one_text_for(runtime.histogram.device.completed, key),
    ensures
        get(device_usage(histogram, runtime), (key.0, mac_or_zero(key.1))) == match get(
            histogram.device.current,
            key,
        ) {
            Some((_, points)) => Some(quad_total(metrics_of(points))),
            None => match get(histogram.device.completed, key) {
                Some(hours) => Some(bucket_bytes_total(hours)),
                None => match get(runtime.histogram.device.completed, key) {
                    Some(hours) => Some(bucket_bytes_total(hours)),
                    None => None,
                },
            },
        },
{
    let totals = device_totals(histogram);
    let carried = completed_totals::<DeviceSeriesKey>(runtime.histogram.device.completed);
    let total_key = (key.0, mac_or_zero(key.1));
    lemma_totals_of_series::<DeviceSeriesKey>(
        histogram.device.completed,
        histogram.device.current,
        key,
    );
    lemma_totals_of_series::<DeviceSeriesKey>(
        runtime.histogram.device.completed,
        Seq::empty(),
        key,
    );
    law_ranked_once(totals + carried, total_key);
    lemma_get_concat(totals, carried, total_key);
}

/// No series but that of `key` stands for the MAC address of `key` on its interface.
pub open spec fn one_text_for<V>(s: Seq<((u32, Seq<char>), V)>, key: (u32, Seq<char>)) -> bool {
    forall|i: int|
        0 <= i < s.len() && ((#[trigger] s[i]).0.0, mac_or_zero(s[i].0.1)) == (
            key.0,
            mac_or_zero(key.1),
        ) ==> s[i].0 == key
}

proof fn lemma_get_concat<K, V>(a: Seq<(K, V)>, b: Seq<(K, V)>, key: K)
    ensures
        get(a + b, key) == match get(a, key) {
            Some(v) => Some(v),
            None => get(b, key),
        },
    decreases b.len(),
{
    if b.len() == 0 {
        assert(a + b =~= a);
        lemma_absent(b, key);
    } else {
        lemma_get_concat(a, b.drop_last(), key);
        assert(a + b =~= (a + b.drop_last()).push(b.last()));
        assert(b =~= b.drop_last().push(b.last()));
        lemma_get_push(a + b.drop_last(), b.last(), key);
        lemma_get_push(b.drop_last(), b.last(), key);
    }
}

/// A ranked item shows its own bytes, under its own names.
pub proof fn law_ranked_items_show_themselves(a: UsageRankingItem, b: IpUsageRankingItem)
    ensures
        a@.up_bytes == a.up_bytes && a@.down_bytes == a.down_bytes && a@.total_bytes
            == a.total_bytes,
        a@.iface == a.iface@ && a@.mac == a.mac@ && a@.hostname == a.hostname@,
        forall|i: int| 0 <= i < a.ipv4@.len() ==> (#[trigger] a@.ipv4[i]) == a.ipv4@[i]@,
        forall|i: int| 0 <= i < a.ipv6@.len() ==> (#[trigger] a@.ipv6[i]) == a.ipv6@[i]@,
        b@.up_bytes == b.up_bytes && b@.down_bytes == b.down_bytes && b@.total_bytes
            == b.total_bytes,
        b@.iface == b.iface@ && b@.ip == b.ip@ && b@.ip_version == b.ip_version,
{
}


} // verus!
