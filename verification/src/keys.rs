//! The keys that traffic is kept by.
use vstd::prelude::*;

use crate::common::{DeviceTrafficKey, InterfaceTrafficKey, IpTrafficKey};
use crate::table::TableKey;
use crate::text::same_text;

verus! {

/// A device behind an interface, by the text of its MAC address.
#[derive(Debug, Clone)]
pub struct DeviceSeriesKey {
    pub ifindex: u32,
    pub mac: String,
}

/// An address behind an interface, by its text.
#[derive(Debug, Clone)]
pub struct IpSeriesKey {
    pub ifindex: u32,
    pub ip: String,
}

impl View for DeviceSeriesKey {
    type V = (u32, Seq<char>);

    open spec fn view(&self) -> (u32, Seq<char>) {
        (self.ifindex, self.mac@)
    }
}

impl View for IpSeriesKey {
    type V = (u32, Seq<char>);

    open spec fn view(&self) -> (u32, Seq<char>) {
        (self.ifindex, self.ip@)
    }
}

impl View for InterfaceTrafficKey {
    type V = (u32, u8, u8, Seq<u8>);

    open spec fn view(&self) -> (u32, u8, u8, Seq<u8>) {
        (self.ifindex, self.ip_version, self.direction, self._pad@)
    }
}

impl View for DeviceTrafficKey {
    type V = (u32, Seq<u8>, u8, u8);

    open spec fn view(&self) -> (u32, Seq<u8>, u8, u8) {
        (self.ifindex, self.mac@, self.ip_version, self.direction)
    }
}

impl View for IpTrafficKey {
    type V = (u32, u8, u8, Seq<u8>);

    open spec fn view(&self) -> (u32, u8, u8, Seq<u8>) {
        (self.ifindex, self.ip_version, self.direction, self.ip_addr@)
    }
}

/// Whether two runs of bytes are the same.
pub fn same_bytes(a: &[u8], b: &[u8]) -> (r: bool)
    ensures
        r == (a@ == b@),
{
    let n = a.len();
    if n != b.len() {
        return false;
    }
    let mut i: usize = 0;
    while i < n
        invariant
            i <= n,
            n == a@.len(),
            n == b@.len(),
            a@.take(i as int) == b@.take(i as int),
        decreases n - i,
    {
        if a[i] != b[i] {
            return false;
        }
        assert(a@.take(i + 1) =~= a@.take(i as int).push(a@[i as int]));
        assert(b@.take(i + 1) =~= b@.take(i as int).push(b@[i as int]));
        i += 1;
    }
    assert(a@.take(i as int) =~= a@);
    assert(b@.take(i as int) =~= b@);
    true
}

impl TableKey for u32 {
    fn same(&self, other: &Self) -> (r: bool) {
        *self == *other
    }

    fn duplicate(&self) -> (r: Self) {
        *self
    }
}

impl TableKey for u64 {
    fn same(&self, other: &Self) -> (r: bool) {
        *self == *other
    }

    fn duplicate(&self) -> (r: Self) {
        *self
    }
}

impl TableKey for (u32, [u8; 6]) {
    fn same(&self, other: &Self) -> (r: bool) {
        self.0 == other.0 && same_bytes(&self.1, &other.1)
    }

    fn duplicate(&self) -> (r: Self) {
        (self.0, self.1)
    }
}

impl TableKey for (u32, String) {
    fn same(&self, other: &Self) -> (r: bool) {
        self.0 == other.0 && same_text(self.1.as_str(), other.1.as_str())
    }

    fn duplicate(&self) -> (r: Self) {
        (self.0, self.1.clone())
    }
}

impl TableKey for (String, [u8; 6]) {
    fn same(&self, other: &Self) -> (r: bool) {
        same_text(self.0.as_str(), other.0.as_str()) && same_bytes(&self.1, &other.1)
    }

    fn duplicate(&self) -> (r: Self) {
        (self.0.clone(), self.1)
    }
}

impl TableKey for String {
    fn same(&self, other: &Self) -> (r: bool) {
        same_text(self.as_str(), other.as_str())
    }

    fn duplicate(&self) -> (r: Self) {
        self.clone()
    }
}

impl TableKey for DeviceSeriesKey {
    fn same(&self, other: &Self) -> (r: bool) {
        self.ifindex == other.ifindex && same_text(self.mac.as_str(), other.mac.as_str())
    }

    fn duplicate(&self) -> (r: Self) {
        DeviceSeriesKey { ifindex: self.ifindex, mac: self.mac.clone() }
    }
}

impl TableKey for IpSeriesKey {
    fn same(&self, other: &Self) -> (r: bool) {
        self.ifindex == other.ifindex && same_text(self.ip.as_str(), other.ip.as_str())
    }

    fn duplicate(&self) -> (r: Self) {
        IpSeriesKey { ifindex: self.ifindex, ip: self.ip.clone() }
    }
}

impl TableKey for InterfaceTrafficKey {
    fn same(&self, other: &Self) -> (r: bool) {
        self.ifindex == other.ifindex && self.ip_version == other.ip_version && self.direction
            == other.direction && same_bytes(&self._pad, &other._pad)
    }

    fn duplicate(&self) -> (r: Self) {
        *self
    }
}

impl TableKey for DeviceTrafficKey {
    fn same(&self, other: &Self) -> (r: bool) {
        self.ifindex == other.ifindex && same_bytes(&self.mac, &other.mac) && self.ip_version
            == other.ip_version && self.direction == other.direction
    }

    fn duplicate(&self) -> (r: Self) {
        *self
    }
}

impl TableKey for IpTrafficKey {
    fn same(&self, other: &Self) -> (r: bool) {
        self.ifindex == other.ifindex && self.ip_version == other.ip_version && self.direction
            == other.direction && same_bytes(&self.ip_addr, &other.ip_addr)
    }

    fn duplicate(&self) -> (r: Self) {
        *self
    }
}

impl TableKey for [u8; 6] {
    fn same(&self, other: &Self) -> (r: bool) {
        same_bytes(self, other)
    }

    fn duplicate(&self) -> (r: Self) {
        *self
    }
}

/// Counters are told apart by interface, IP version and direction, and those of a device by its
/// MAC address too, those of an address by the address.
pub proof fn law_counters_are_apart(
    a: InterfaceTrafficKey,
    b: InterfaceTrafficKey,
    c: DeviceTrafficKey,
    d: DeviceTrafficKey,
    e: IpTrafficKey,
    f: IpTrafficKey,
)
    ensures
        a@ == b@ <==> a.ifindex == b.ifindex && a.ip_version == b.ip_version && a.direction
            == b.direction && a._pad@ == b._pad@,
        c@ == d@ <==> c.ifindex == d.ifindex && c.mac@ == d.mac@ && c.ip_version == d.ip_version
            && c.direction == d.direction,
        e@ == f@ <==> e.ifindex == f.ifindex && e.ip_version == f.ip_version && e.direction
            == f.direction && e.ip_addr@ == f.ip_addr@,
        a@.0 == a.ifindex && a@.1 == a.ip_version && a@.2 == a.direction,
        c@.0 == c.ifindex && c@.1 == c.mac@ && c@.2 == c.ip_version && c@.3 == c.direction,
        e@.0 == e.ifindex && e@.1 == e.ip_version && e@.2 == e.direction && e@.3 == e.ip_addr@,
{
}

/// Series are told apart by interface and the text of the MAC address or of the address.
pub proof fn law_series_are_apart(
    a: DeviceSeriesKey,
    b: DeviceSeriesKey,
    c: IpSeriesKey,
    d: IpSeriesKey,
)
    ensures
        a@ == b@ <==> a.ifindex == b.ifindex && a.mac@ == b.mac@,
        c@ == d@ <==> c.ifindex == d.ifindex && c.ip@ == d.ip@,
        a@.0 == a.ifindex && a@.1 == a.mac@,
        c@.0 == c.ifindex && c@.1 == c.ip@,
{
}


} // verus!
