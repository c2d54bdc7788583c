//! What the monitor carries from one snapshot to the next.
use vstd::prelude::*;

use crate::binary64::rate_of;
use crate::common::{DeviceTrafficKey, InterfaceTrafficKey, IpTrafficKey};
use crate::counters::{
    add_quad, bytes_in, capped, counter_delta, delta_bytes, fill_quad, is_lane, law_lanes_add,
    law_lanes_fill, quad_add, quad_filled, rate_in, zero_quad, CounterQuad,
};
use crate::histogram::{HistogramHistory, HistogramModel};
use crate::items::texts;
use crate::table::{
    get, get_or, law_put_get, law_put_get_other, law_put_keeps_unique, put, unique_keys, Table,
    TableKey,
};

verus! {

/// What is remembered of a device.
#[derive(Debug, Clone)]
pub struct DeviceRegistryEntry {
    pub logical_iface: String,
    pub subnet: String,
    pub ipv4: Vec<String>,
    pub ipv6: Vec<String>,
    pub hostname: String,
    pub last_seen_ms: u64,
}

/// What is remembered of a device, by its fields.
#[verifier::ext_equal]
pub struct DeviceMemory {
    pub logical_iface: Seq<char>,
    pub subnet: Seq<char>,
    pub ipv4: Seq<Seq<char>>,
    pub ipv6: Seq<Seq<char>>,
    pub hostname: Seq<char>,
    pub last_seen_ms: u64,
}

impl View for DeviceRegistryEntry {
    type V = DeviceMemory;

    open spec fn view(&self) -> DeviceMemory {
        DeviceMemory {
            logical_iface: self.logical_iface@,
            subnet: self.subnet@,
            ipv4: texts(self.ipv4@),
            ipv6: texts(self.ipv6@),
            hostname: self.hostname@,
            last_seen_ms: self.last_seen_ms,
        }
    }
}

/// The devices that are remembered.
pub struct DeviceRegistry {
    pub entries: Table<(u32, [u8; 6]), DeviceRegistryEntry>,
}

/// What the monitor carries from one snapshot to the next: the counters as they were last read,
/// the totals since then, the devices that it knows, and the hourly history.
pub struct MonitorRuntime {
    pub prev_iface_bytes: Table<InterfaceTrafficKey, u64>,
    pub prev_device_bytes: Table<DeviceTrafficKey, u64>,
    pub prev_ip_bytes: Table<IpTrafficKey, u64>,
    pub cumulative_iface: Table<u32, CounterQuad>,
    pub cumulative_device: Table<(u32, [u8; 6]), CounterQuad>,
    pub cumulative_ip: Table<(u32, String), CounterQuad>,
    pub last_snapshot_ms: Option<u64>,
    pub device_registry: DeviceRegistry,
    pub last_snapshot_histogram_state: HistogramHistory,
}

/// Counters as they were last read, and the totals since then.
#[verifier::ext_equal]
pub struct Ledger<K, T> {
    pub prev: Seq<(K, u64)>,
    pub totals: Seq<(T, CounterQuad)>,
}

/// The key of an interface counter: interface, IP version, direction and padding.
pub type IfaceCounter = (u32, u8, u8, Seq<u8>);

/// The key of a device counter: interface, MAC address, IP version and direction.
pub type DeviceCounter = (u32, Seq<u8>, u8, u8);

/// The key of an address counter: interface, IP version, direction and address.
pub type IpCounter = (u32, u8, u8, Seq<u8>);

/// What the monitor carries from one snapshot to the next.
#[verifier::ext_equal]
pub struct RuntimeModel {
    pub iface: Ledger<IfaceCounter, u32>,
    pub device: Ledger<DeviceCounter, (u32, Seq<u8>)>,
    pub ip: Ledger<IpCounter, (u32, Seq<char>)>,
    pub last_snapshot_ms: Option<u64>,
    pub devices: Seq<((u32, Seq<u8>), DeviceMemory)>,
    pub histogram: HistogramModel,
}

impl<K, T> Ledger<K, T> {
    /// No counter and no total is held twice.
    pub open spec fn distinct(self) -> bool {
        unique_keys(self.prev) && unique_keys(self.totals)
    }
}

impl RuntimeModel {
    /// No counter, total, device or series is held twice.
    pub open spec fn distinct(self) -> bool {
        &&& self.iface.distinct()
        &&& self.device.distinct()
        &&& self.ip.distinct()
        &&& unique_keys(self.devices)
        &&& self.histogram.distinct()
    }
}

impl View for MonitorRuntime {
    type V = RuntimeModel;

    open spec fn view(&self) -> RuntimeModel {
        RuntimeModel {
            iface: Ledger {
                prev: self.prev_iface_bytes.model(),
                totals: self.cumulative_iface.model(),
            },
            device: Ledger {
                prev: self.prev_device_bytes.model(),
                totals: self.cumulative_device.model(),
            },
            ip: Ledger { prev: self.prev_ip_bytes.model(), totals: self.cumulative_ip.model() },
            last_snapshot_ms: self.last_snapshot_ms,
            devices: self.device_registry.entries.model(),
            histogram: self.last_snapshot_histogram_state@,
        }
    }
}

impl MonitorRuntime {
    /// A monitor that has seen nothing.
    pub fn new() -> (r: MonitorRuntime)
        ensures
            r@ == (RuntimeModel {
                iface: Ledger { prev: Seq::empty(), totals: Seq::empty() },
                device: Ledger { prev: Seq::empty(), totals: Seq::empty() },
                ip: Ledger { prev: Seq::empty(), totals: Seq::empty() },
                last_snapshot_ms: None,
                devices: Seq::empty(),
                histogram: HistogramModel::empty(),
            }),
            r@.distinct(),
    {
        MonitorRuntime {
            prev_iface_bytes: Table::new(),
            prev_device_bytes: Table::new(),
            prev_ip_bytes: Table::new(),
            cumulative_iface: Table::new(),
            cumulative_device: Table::new(),
            cumulative_ip: Table::new(),
            last_snapshot_ms: None,
            device_registry: DeviceRegistry { entries: Table::new() },
            last_snapshot_histogram_state: HistogramHistory::new(),
        }
    }
}

/// A counter as it was read: its key, IP version and direction, and its bytes.
pub type Reading<K> = (K, (u8, u8, u64));

/// Readings taken in one after the other: the counters as they were last read, and the counters
/// of what was added since.
pub open spec fn counted<K>(
    prev: Seq<(K, u64)>,
    readings: Seq<Reading<K>>,
    elapsed_ms: u64,
) -> (Seq<(K, u64)>, CounterQuad)
    decreases readings.len(),
{
    if readings.len() == 0 {
        (prev, zero_quad())
    } else {
        let (p, q) = counted(prev, readings.drop_last(), elapsed_ms);
        let (key, (ip_version, direction, bytes)) = readings.last();
        let delta = counter_delta(bytes, get_or(p, key, 0));
        (
            put(p, key, bytes),
            quad_filled(q, ip_version, direction, delta, rate_of(delta, elapsed_ms)),
        )
    }
}

/// Taking in readings keeps the counters distinct.
pub proof fn law_counted_stays_distinct<K>(
    prev: Seq<(K, u64)>,
    readings: Seq<Reading<K>>,
    elapsed_ms: u64,
)
    requires
        unique_keys(prev),
    ensures
        unique_keys(counted(prev, readings, elapsed_ms).0),
    decreases readings.len(),
{
    if readings.len() > 0 {
        law_counted_stays_distinct(prev, readings.drop_last(), elapsed_ms);
        let (key, (ip_version, direction, bytes)) = readings.last();
        law_put_keeps_unique(counted(prev, readings.drop_last(), elapsed_ms).0, key, bytes);
    }
}

/// Takes in one reading.
pub fn count_reading<K: TableKey>(
    prev: &mut Table<K, u64>,
    key: K,
    ip_version: u8,
    direction: u8,
    bytes: u64,
    elapsed_ms: u64,
    quad: &mut CounterQuad,
)
    ensures
        final(prev).model() == put(old(prev).model(), key@, bytes),
        ({
            let delta = counter_delta(bytes, get_or(old(prev).model(), key@, 0));
            *final(quad) == quad_filled(
                *old(quad),
                ip_version,
                direction,
                delta,
                rate_of(delta, elapsed_ms),
            )
        }),
{
    let before = match prev.get(&key) {
        Some(b) => *b,
        None => 0,
    };
    let delta = delta_bytes(bytes, before);
    prev.put(key, bytes);
    fill_quad(ip_version, direction, quad, delta, elapsed_ms);
}

/// Adds counters to a total, and gives the new total.
pub fn add_to_total<T: TableKey>(
    totals: &mut Table<T, CounterQuad>,
    key: T,
    metrics: &CounterQuad,
) -> (r: CounterQuad)
    ensures
        r == quad_add(get_or(old(totals).model(), key@, zero_quad()), *metrics),
        final(totals).model() == put(old(totals).model(), key@, r),
{
    let total = totals.slot(key, CounterQuad::default());
    add_quad(total, metrics);
    *total
}

/// What a counter adds that shows `bytes` and showed `before`: a counter that shows less than
/// before has started again.
pub open spec fn gone_up(bytes: u64, before: u64) -> int {
    if bytes >= before {
        bytes - before
    } else {
        bytes as int
    }
}

/// The bytes that readings of an IP version and direction add.
pub open spec fn lane_bytes<K>(
    readings: Seq<Reading<K>>,
    prev: Seq<(K, u64)>,
    ip_version: u8,
    direction: u8,
) -> int
    decreases readings.len(),
{
    if readings.len() == 0 {
        0
    } else {
        let (key, (v, d, bytes)) = readings.last();
        lane_bytes(readings.drop_last(), prev, ip_version, direction) + if (v, d) == (
            ip_version,
            direction,
        ) {
            gone_up(bytes, get_or(prev, key, 0))
        } else {
            0
        }
    }
}

/// The rates of what readings of an IP version and direction add, over some time, added up.
pub open spec fn lane_rates<K>(
    readings: Seq<Reading<K>>,
    prev: Seq<(K, u64)>,
    elapsed_ms: u64,
    ip_version: u8,
    direction: u8,
) -> int
    decreases readings.len(),
{
    if readings.len() == 0 {
        0
    } else {
        let (key, (v, d, bytes)) = readings.last();
        lane_rates(readings.drop_last(), prev, elapsed_ms, ip_version, direction) + if (v, d) == (
            ip_version,
            direction,
        ) {
            rate_of(gone_up(bytes, get_or(prev, key, 0)) as u64, elapsed_ms) as int
        } else {
            0
        }
    }
}

/// Readings that are taken in are all counted, each for its own version and direction, where no
/// counter is read twice; afterwards each counter that was read is remembered as it was read, and
/// any other as before.
pub proof fn law_readings_are_counted<K>(
    prev: Seq<(K, u64)>,
    readings: Seq<Reading<K>>,
    elapsed_ms: u64,
)
    requires
        unique_keys(readings),
    ensures
        ({
            let (after, q) = counted(prev, readings, elapsed_ms);
            &&& forall|v: u8, d: u8|
                #![trigger bytes_in(q, v, d)]
                is_lane(v, d) ==> bytes_in(q, v, d) == capped(lane_bytes(readings, prev, v, d))
                    && rate_in(q, v, d) == capped(lane_rates(readings, prev, elapsed_ms, v, d))
            &&& forall|i: int|
                0 <= i < readings.len() ==> get(after, (#[trigger] readings[i]).0) == Some(
                    readings[i].1.2,
                )
            &&& forall|k: K|
                (forall|i: int| 0 <= i < readings.len() ==> (#[trigger] readings[i]).0 != k)
                    ==> #[trigger] get(after, k) == get(prev, k)
        }),
    decreases readings.len(),
{
    let (after, q) = counted(prev, readings, elapsed_ms);
    if readings.len() == 0 {
        assert forall|v: u8, d: u8|
            #![trigger bytes_in(q, v, d)]
            is_lane(v, d) implies bytes_in(q, v, d) == capped(lane_bytes(readings, prev, v, d))
            && rate_in(q, v, d) == capped(lane_rates(readings, prev, elapsed_ms, v, d)) by {
            law_lanes_add(q, q, v, d);
        }
    } else {
        let init = readings.drop_last();
        let n = readings.len() - 1;
        let (key, (ip_version, direction, bytes)) = readings.last();
        assert(readings[n] == readings.last());
        assert forall|i: int| 0 <= i < init.len() implies (#[trigger] init[i]) == readings[i]
            && init[i].0 != key by {
            assert(readings[i].0 != readings[n].0);
        }
        assert(unique_keys(init));
        law_readings_are_counted(prev, init, elapsed_ms);
        let (p, before) = counted(prev, init, elapsed_ms);
        assert(get(p, key) == get(prev, key));
        let delta = counter_delta(bytes, get_or(p, key, 0));
        assert(delta == gone_up(bytes, get_or(prev, key, 0)));
        assert forall|v: u8, d: u8|
            #![trigger bytes_in(q, v, d)]
            is_lane(v, d) implies bytes_in(q, v, d) == capped(lane_bytes(readings, prev, v, d))
            && rate_in(q, v, d) == capped(lane_rates(readings, prev, elapsed_ms, v, d)) by {
            assert(bytes_in(before, v, d) == capped(lane_bytes(init, prev, v, d)));
            law_lanes_fill(
                before,
                ip_version,
                direction,
                delta,
                rate_of(delta, elapsed_ms),
                v,
                d,
            );
        }
        law_put_get(p, key, bytes);
        assert forall|i: int| 0 <= i < readings.len() implies get(
            after,
            (#[trigger] readings[i]).0,
        ) == Some(readings[i].1.2) by {
            if i < n {
                assert(init[i] == readings[i]);
                law_put_get_other(p, key, bytes, readings[i].0);
            }
        }
        assert forall|k: K|
            (forall|i: int| 0 <= i < readings.len() ==> (#[trigger] readings[i]).0 != k) implies #[trigger] get(
            after,
            k,
        ) == get(prev, k) by {
            assert(readings[n].0 != k);
            assert forall|i: int| 0 <= i < init.len() implies (#[trigger] init[i]).0 != k by {
                assert(readings[i].0 != k);
            }
            law_put_get_other(p, key, bytes, k);
            assert(get(p, k) == get(prev, k));
        }
    }
}


/// What the monitor carries is kept apart by what it is of: counters as they were last read,
/// totals, devices and hours, those of interfaces, of devices and of addresses.
pub proof fn law_monitor_carries(r: MonitorRuntime, d: DeviceRegistryEntry)
    ensures
        r@.iface.prev == r.prev_iface_bytes.model(),
        r@.iface.totals == r.cumulative_iface.model(),
        r@.device.prev == r.prev_device_bytes.model(),
        r@.device.totals == r.cumulative_device.model(),
        r@.ip.prev == r.prev_ip_bytes.model(),
        r@.ip.totals == r.cumulative_ip.model(),
        r@.last_snapshot_ms == r.last_snapshot_ms,
        r@.devices == r.device_registry.entries.model(),
        r@.histogram.iface == r.last_snapshot_histogram_state.iface.model(),
        r@.histogram.device == r.last_snapshot_histogram_state.device.model(),
        r@.histogram.ip == r.last_snapshot_histogram_state.ip.model(),
        d@.logical_iface == d.logical_iface@ && d@.subnet == d.subnet@ && d@.hostname == d.hostname@,
        d@.last_seen_ms == d.last_seen_ms,
        forall|i: int| 0 <= i < d.ipv4@.len() ==> (#[trigger] d@.ipv4[i]) == d.ipv4@[i]@,
        forall|i: int| 0 <= i < d.ipv6@.len() ==> (#[trigger] d@.ipv6[i]) == d.ipv6@[i]@,
{
}


} // verus!
