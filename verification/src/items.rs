//! What a snapshot of the traffic shows, and what history keeps of it.
use vstd::prelude::*;

use crate::counters::{bytes_in, rate_in, CounterQuad};

verus! {

/// What one moment added to a series, and the totals until then.
#[derive(Debug, Clone, Copy)]
pub struct HistoryPoint {
    pub ts_ms: u64,
    pub metrics: CounterQuad,
    pub cumulative: CounterQuad,
}

/// A point of history as it is handed out.
#[derive(Debug, Clone, Copy, PartialEq, Eq, Structural)]
pub struct HistorySample {
    pub ts_ms: u64,
    pub up_v4_bps: u64,
    pub up_v6_bps: u64,
    pub down_v4_bps: u64,
    pub down_v6_bps: u64,
    pub up_v4_bytes: u64,
    pub up_v6_bytes: u64,
    pub down_v4_bytes: u64,
    pub down_v6_bytes: u64,
    pub up_v4_bytes_cumulative: u64,
    pub up_v6_bytes_cumulative: u64,
    pub down_v4_bytes_cumulative: u64,
    pub down_v6_bytes_cumulative: u64,
}

/// Traffic of an interface.
#[derive(Debug, Clone)]
pub struct InterfaceOverviewItem {
    pub ifindex: u32,
    pub ifname: String,
    pub zone: String,
    pub metrics: CounterQuad,
    pub cumulative: CounterQuad,
}

/// Traffic of a device behind an interface.
#[derive(Debug, Clone)]
pub struct DeviceListItem {
    pub ifindex: u32,
    pub logical_iface: String,
    pub subnet: String,
    pub ipv4: Vec<String>,
    pub ipv6: Vec<String>,
    pub mac: String,
    pub hostname: String,
    pub metrics: CounterQuad,
    pub cumulative: CounterQuad,
    pub online: bool,
    pub last_seen_ms: u64,
    pub neighbor_state: Option<String>,
}

/// Traffic of an address behind an interface.
#[derive(Debug, Clone)]
pub struct IpListItem {
    pub ifindex: u32,
    pub ifname: String,
    pub ip_addr: String,
    pub ip_version: u8,
    pub metrics: CounterQuad,
    pub cumulative: CounterQuad,
}

/// The traffic at one moment.
#[derive(Debug, Clone)]
pub struct SnapshotData {
    pub timestamp_ms: u64,
    pub interfaces: Vec<InterfaceOverviewItem>,
    pub devices: Vec<DeviceListItem>,
    pub ips: Vec<IpListItem>,
}

/// What an interface item shows.
#[verifier::ext_equal]
pub struct InterfaceShown {
    pub ifindex: u32,
    pub ifname: Seq<char>,
    pub zone: Seq<char>,
    pub metrics: CounterQuad,
    pub cumulative: CounterQuad,
}

/// What a device item shows.
#[verifier::ext_equal]
pub struct DeviceShown {
    pub ifindex: u32,
    pub logical_iface: Seq<char>,
    pub subnet: Seq<char>,
    pub ipv4: Seq<Seq<char>>,
    pub ipv6: Seq<Seq<char>>,
    pub mac: Seq<char>,
    pub hostname: Seq<char>,
    pub metrics: CounterQuad,
    pub cumulative: CounterQuad,
    pub online: bool,
    pub last_seen_ms: u64,
    pub neighbor_state: Option<Seq<char>>,
}

/// What an address item shows.
#[verifier::ext_equal]
pub struct IpShown {
    pub ifindex: u32,
    pub ifname: Seq<char>,
    pub ip_addr: Seq<char>,
    pub ip_version: u8,
    pub metrics: CounterQuad,
    pub cumulative: CounterQuad,
}

/// What a snapshot shows.
#[verifier::ext_equal]
pub struct SnapshotShown {
    pub timestamp_ms: u64,
    pub interfaces: Seq<InterfaceShown>,
    pub devices: Seq<DeviceShown>,
    pub ips: Seq<IpShown>,
}

/// The texts of some strings.
pub open spec fn texts(v: Seq<String>) -> Seq<Seq<char>> {
    v.map_values(|s: String| s@)
}

/// The text of a string, where there is one.
pub open spec fn text_of(s: Option<String>) -> Option<Seq<char>> {
    match s {
        Some(t) => Some(t@),
        None => None,
    }
}

/// What each of some items shows.
pub open spec fn views<T: View>(v: Seq<T>) -> Seq<T::V> {
    v.map_values(|t: T| t@)
}

impl View for InterfaceOverviewItem {
    type V = InterfaceShown;

    open spec fn view(&self) -> InterfaceShown {
        InterfaceShown {
            ifindex: self.ifindex,
            ifname: self.ifname@,
            zone: self.zone@,
            metrics: self.metrics,
            cumulative: self.cumulative,
        }
    }
}

impl View for DeviceListItem {
    type V = DeviceShown;

    open spec fn view(&self) -> DeviceShown {
        DeviceShown {
            ifindex: self.ifindex,
            logical_iface: self.logical_iface@,
            subnet: self.subnet@,
            ipv4: texts(self.ipv4@),
            ipv6: texts(self.ipv6@),
            mac: self.mac@,
            hostname: self.hostname@,
            metrics: self.metrics,
            cumulative: self.cumulative,
            online: self.online,
            last_seen_ms: self.last_seen_ms,
            neighbor_state: text_of(self.neighbor_state),
        }
    }
}

impl View for IpListItem {
    type V = IpShown;

    open spec fn view(&self) -> IpShown {
        IpShown {
            ifindex: self.ifindex,
            ifname: self.ifname@,
            ip_addr: self.ip_addr@,
            ip_version: self.ip_version,
            metrics: self.metrics,
            cumulative: self.cumulative,
        }
    }
}

impl View for SnapshotData {
    type V = SnapshotShown;

    open spec fn view(&self) -> SnapshotShown {
        SnapshotShown {
            timestamp_ms: self.timestamp_ms,
            interfaces: views(self.interfaces@),
            devices: views(self.devices@),
            ips: views(self.ips@),
        }
    }
}

/// Something that can be copied without losing what it shows.
pub trait Duplicate: View + Sized {
    /// A copy.
    fn copy_of(&self) -> (r: Self)
        ensures
            r@ == self@,
    ;
}

/// Copies of some items.
pub fn copies<T: Duplicate>(v: &Vec<T>) -> (r: Vec<T>)
    ensures
        views(r@) == views(v@),
        r@.len() == v@.len(),
{
    let mut r: Vec<T> = Vec::new();
    let n = v.len();
    let mut i: usize = 0;
    while i < n
        invariant
            i <= n,
            n == v@.len(),
            r@.len() == i,
            forall|j: int| 0 <= j < i ==> (#[trigger] r@[j])@ == v@[j]@,
        decreases n - i,
    {
        r.push(v[i].copy_of());
        i += 1;
    }
    assert(views(r@) =~= views(v@));
    r
}

impl Duplicate for String {
    fn copy_of(&self) -> (r: Self) {
        self.clone()
    }
}

/// Copies of some strings.
pub fn text_copies(v: &Vec<String>) -> (r: Vec<String>)
    ensures
        texts(r@) == texts(v@),
{
    let r = copies(v);
    proof {
        assert forall|j: int| 0 <= j < r@.len() implies (#[trigger] texts(r@)[j]) == texts(
            v@,
        )[j] by {
            assert(views(r@)[j] == views(v@)[j]);
        }
        assert(texts(r@) =~= texts(v@));
    }
    r
}

/// A copy of a string, where there is one.
pub fn option_copy(s: &Option<String>) -> (r: Option<String>)
    ensures
        text_of(r) == text_of(*s),
{
    match s {
        Some(t) => Some(t.clone()),
        None => None,
    }
}

impl Duplicate for InterfaceOverviewItem {
    fn copy_of(&self) -> (r: Self) {
        InterfaceOverviewItem {
            ifindex: self.ifindex,
            ifname: self.ifname.clone(),
            zone: self.zone.clone(),
            metrics: self.metrics,
            cumulative: self.cumulative,
        }
    }
}

impl Duplicate for DeviceListItem {
    fn copy_of(&self) -> (r: Self) {
        DeviceListItem {
            ifindex: self.ifindex,
            logical_iface: self.logical_iface.clone(),
            subnet: self.subnet.clone(),
            ipv4: text_copies(&self.ipv4),
            ipv6: text_copies(&self.ipv6),
            mac: self.mac.clone(),
            hostname: self.hostname.clone(),
            metrics: self.metrics,
            cumulative: self.cumulative,
            online: self.online,
            last_seen_ms: self.last_seen_ms,
            neighbor_state: option_copy(&self.neighbor_state),
        }
    }
}

impl Duplicate for IpListItem {
    fn copy_of(&self) -> (r: Self) {
        IpListItem {
            ifindex: self.ifindex,
            ifname: self.ifname.clone(),
            ip_addr: self.ip_addr.clone(),
            ip_version: self.ip_version,
            metrics: self.metrics,
            cumulative: self.cumulative,
        }
    }
}

impl Duplicate for SnapshotData {
    fn copy_of(&self) -> (r: Self) {
        SnapshotData {
            timestamp_ms: self.timestamp_ms,
            interfaces: copies(&self.interfaces),
            devices: copies(&self.devices),
            ips: copies(&self.ips),
        }
    }
}

/// A point as it is handed out.
pub open spec fn sample_of(ts_ms: u64, m: CounterQuad, c: CounterQuad) -> HistorySample {
    HistorySample {
        ts_ms,
        up_v4_bps: m.up_v4_bps,
        up_v6_bps: m.up_v6_bps,
        down_v4_bps: m.down_v4_bps,
        down_v6_bps: m.down_v6_bps,
        up_v4_bytes: m.up_v4_bytes,
        up_v6_bytes: m.up_v6_bytes,
        down_v4_bytes: m.down_v4_bytes,
        down_v6_bytes: m.down_v6_bytes,
        up_v4_bytes_cumulative: c.up_v4_bytes,
        up_v6_bytes_cumulative: c.up_v6_bytes,
        down_v4_bytes_cumulative: c.down_v4_bytes,
        down_v6_bytes_cumulative: c.down_v6_bytes,
    }
}

/// A point as it is handed out.
pub fn to_sample(ts_ms: u64, m: &CounterQuad, c: &CounterQuad) -> (s: HistorySample)
    ensures
        s == sample_of(ts_ms, *m, *c),
{
    HistorySample {
        ts_ms,
        up_v4_bps: m.up_v4_bps,
        up_v6_bps: m.up_v6_bps,
        down_v4_bps: m.down_v4_bps,
        down_v6_bps: m.down_v6_bps,
        up_v4_bytes: m.up_v4_bytes,
        up_v6_bytes: m.up_v6_bytes,
        down_v4_bytes: m.down_v4_bytes,
        down_v6_bytes: m.down_v6_bytes,
        up_v4_bytes_cumulative: c.up_v4_bytes,
        up_v6_bytes_cumulative: c.up_v6_bytes,
        down_v4_bytes_cumulative: c.down_v4_bytes,
        down_v6_bytes_cumulative: c.down_v6_bytes,
    }
}

pub proof fn lemma_views_push<T: View>(v: Seq<T>, t: T)
    ensures
        views(v.push(t)) == views(v).push(t@),
{
    assert(views(v.push(t)) =~= views(v).push(t@));
}

/// Rate, bytes and total bytes of a point for an IP version and direction.
pub open spec fn sample_lane(s: HistorySample, ip_version: u8, direction: u8) -> (int, int, int) {
    match (ip_version, direction) {
        (4, 1) => (s.up_v4_bps as int, s.up_v4_bytes as int, s.up_v4_bytes_cumulative as int),
        (4, 2) => (s.down_v4_bps as int, s.down_v4_bytes as int, s.down_v4_bytes_cumulative as int),
        (6, 1) => (s.up_v6_bps as int, s.up_v6_bytes as int, s.up_v6_bytes_cumulative as int),
        (6, 2) => (s.down_v6_bps as int, s.down_v6_bytes as int, s.down_v6_bytes_cumulative as int),
        _ => (0, 0, 0),
    }
}

/// A point shows, for each IP version and direction, the rate and the bytes of what was added, and
/// the bytes of the total.
pub proof fn law_sample_shows_counters(
    ts_ms: u64,
    m: CounterQuad,
    c: CounterQuad,
    ip_version: u8,
    direction: u8,
)
    ensures
        sample_of(ts_ms, m, c).ts_ms == ts_ms,
        sample_lane(sample_of(ts_ms, m, c), ip_version, direction) == (
            rate_in(m, ip_version, direction),
            bytes_in(m, ip_version, direction),
            bytes_in(c, ip_version, direction),
        ),
{
}


/// An item shows its own counters and its own total, under its own names.
pub proof fn law_items_show_themselves(
    a: InterfaceOverviewItem,
    b: DeviceListItem,
    c: IpListItem,
)
    ensures
        a@.metrics == a.metrics && a@.cumulative == a.cumulative,
        a@.ifindex == a.ifindex && a@.ifname == a.ifname@ && a@.zone == a.zone@,
        b@.metrics == b.metrics && b@.cumulative == b.cumulative,
        b@.ifindex == b.ifindex && b@.logical_iface == b.logical_iface@ && b@.subnet == b.subnet@,
        b@.mac == b.mac@ && b@.hostname == b.hostname@,
        b@.ipv4.len() == b.ipv4@.len() && b@.ipv6.len() == b.ipv6@.len(),
        forall|i: int| 0 <= i < b.ipv4@.len() ==> (#[trigger] b@.ipv4[i]) == b.ipv4@[i]@,
        forall|i: int| 0 <= i < b.ipv6@.len() ==> (#[trigger] b@.ipv6[i]) == b.ipv6@[i]@,
        b@.online == b.online && b@.last_seen_ms == b.last_seen_ms,
        b.neighbor_state matches Some(state) ==> b@.neighbor_state == Some(state@),
        b.neighbor_state is None ==> b@.neighbor_state is None,
        c@.metrics == c.metrics && c@.cumulative == c.cumulative,
        c@.ifindex == c.ifindex && c@.ifname == c.ifname@ && c@.ip_addr == c.ip_addr@,
        c@.ip_version == c.ip_version,
{
}

/// A snapshot shows its items, in order.
pub proof fn law_snapshot_shows_its_items(s: SnapshotData, i: int)
    ensures
        s@.timestamp_ms == s.timestamp_ms,
        s@.interfaces.len() == s.interfaces@.len(),
        s@.devices.len() == s.devices@.len(),
        s@.ips.len() == s.ips@.len(),
        0 <= i < s.interfaces@.len() ==> s@.interfaces[i] == s.interfaces@[i]@,
        0 <= i < s.devices@.len() ==> s@.devices[i] == s.devices@[i]@,
        0 <= i < s.ips@.len() ==> s@.ips[i] == s.ips@[i]@,
{
}


} // verus!
