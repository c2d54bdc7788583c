//! What the packet path reads from a packet, and the counters that it keeps.
use vstd::prelude::*;

use crate::common::{
    DeviceGlobalLimitKey, DeviceIfaceLimitKey, DeviceTrafficKey, IfaceLimitKey, InterfaceTrafficKey,
    IpVersion, TrafficDirection, TrafficValue,
};
use crate::counters::{capped, sat_add};

verus! {

/// Ethernet type of IP version 4.
pub const ETH_P_IP: u16 = 0x0800;

/// Ethernet type of IP version 6.
pub const ETH_P_IPV6: u16 = 0x86DD;

/// Ethernet type of a PPPoE session.
pub const ETH_P_PPP_SES: u16 = 0x8864;

/// PPP protocol of IP version 4.
pub const PPP_PROTO_IP: u16 = 0x0021;

/// PPP protocol of IP version 6.
pub const PPP_PROTO_IPV6: u16 = 0x0057;

/// What is read from a packet: its IP version, and the MAC address of the device, where it is
/// known.
#[derive(Clone, Copy, Debug)]
pub struct PacketMeta {
    pub ip_version: u8,
    pub mac: Option<[u8; 6]>,
}

/// The two bytes at `at` as a number, most significant first.
pub open spec fn word_at(data: Seq<u8>, at: int) -> Option<int> {
    if at + 2 <= data.len() {
        Some(data[at] * 256 + data[at + 1])
    } else {
        None
    }
}

/// The two bytes at `at` as a number, most significant first.
fn read_word(data: &[u8], at: usize) -> (r: Option<u16>)
    ensures
        match r {
            Some(w) => word_at(data@, at as int) == Some(w as int),
            None => word_at(data@, at as int) is None,
        },
{
    if data.len() < at || data.len() - at < 2 {
        None
    } else {
        Some(data[at] as u16 * 256 + data[at + 1] as u16)
    }
}

/// The IP version that a PPP protocol stands for.
pub open spec fn ppp_version(proto: int) -> Option<u8> {
    if proto == 0x0021 {
        Some(4)
    } else if proto == 0x0057 {
        Some(6)
    } else {
        None
    }
}

/// The IP version of a frame with an Ethernet type. Of a PPPoE session it is in the PPP
/// protocol, behind the two headers.
pub open spec fn eth_version(data: Seq<u8>, eth_proto: int) -> Option<u8> {
    if eth_proto == 0x0800 {
        Some(4)
    } else if eth_proto == 0x86DD {
        Some(6)
    } else if eth_proto == 0x8864 {
        match word_at(data, 20) {
            Some(proto) => ppp_version(proto),
            None => None,
        }
    } else {
        None
    }
}

/// The IP version of a packet whose IP header starts at `at`.
pub open spec fn l3_version(data: Seq<u8>, at: int) -> Option<u8> {
    if at + 2 > data.len() {
        None
    } else if data[at] / 16 == 4 {
        Some(4)
    } else if data[at] / 16 == 6 {
        Some(6)
    } else {
        None
    }
}

/// The IP version of a packet that starts with a PPP protocol.
pub open spec fn ppp_packet_version(data: Seq<u8>) -> Option<u8> {
    match word_at(data, 0) {
        Some(proto) => match ppp_version(proto) {
            Some(v) => Some(v),
            None => l3_version(data, 2),
        },
        None => None,
    }
}

/// The six bytes that stand for the source address of a version 4 header at `at`: a mark, and
/// the address.
pub open spec fn ipv4_mac(data: Seq<u8>, at: int) -> Option<Seq<u8>> {
    if at + 16 <= data.len() {
        Some(seq![2u8, 0u8, data[at + 12], data[at + 13], data[at + 14], data[at + 15]])
    } else {
        None
    }
}

/// The six bytes that stand for the source address of a version 6 header at `at`: a mark, and
/// the end of the address.
pub open spec fn ipv6_mac(data: Seq<u8>, at: int) -> Option<Seq<u8>> {
    if at + 24 <= data.len() {
        Some(seq![2u8, 1u8, data[at + 20], data[at + 21], data[at + 22], data[at + 23]])
    } else {
        None
    }
}

/// The six bytes that stand for the source address of an IP header at `at`.
pub open spec fn synthetic_mac(data: Seq<u8>, ip_version: u8, at: int) -> Option<Seq<u8>> {
    if ip_version == 4 {
        ipv4_mac(data, at)
    } else if ip_version == 6 {
        ipv6_mac(data, at)
    } else {
        None
    }
}

/// What is read from a packet: an Ethernet frame, or else a bare IP packet, or else one behind a
/// PPP protocol. The device is the sender of what comes in and the receiver of what goes out;
/// without Ethernet header, the source address stands for it.
pub open spec fn packet_meta(data: Seq<u8>, direction: u8) -> Option<(u8, Option<Seq<u8>>)> {
    let eth = if data.len() >= 14 {
        eth_version(data, data[12] * 256 + data[13])
    } else {
        None
    };
    match eth {
        Some(v) => Some(
            (
                v,
                Some(
                    if direction == 1 {
                        data.subrange(6, 12)
                    } else {
                        data.subrange(0, 6)
                    },
                ),
            ),
        ),
        None => match l3_version(data, 0) {
            Some(v) => Some((v, synthetic_mac(data, v, 0))),
            None => match ppp_packet_version(data) {
                Some(v) => Some((v, synthetic_mac(data, v, 2))),
                None => None,
            },
        },
    }
}

/// The bytes of a MAC address, where there is one.
pub open spec fn mac_bytes(mac: Option<[u8; 6]>) -> Option<Seq<u8>> {
    match mac {
        Some(m) => Some(m@),
        None => None,
    }
}

/// The IP version of a frame with an Ethernet type.
pub fn resolve_ip_version_from_eth(data: &[u8], eth_proto: u16) -> (r: Option<u8>)
    ensures
        r == eth_version(data@, eth_proto as int),
{
    if eth_proto == ETH_P_IP {
        Some(IpVersion::V4.code())
    } else if eth_proto == ETH_P_IPV6 {
        Some(IpVersion::V6.code())
    } else if eth_proto == ETH_P_PPP_SES {
        match read_word(data, 20) {
            Some(proto) => {
                if proto == PPP_PROTO_IP {
                    Some(IpVersion::V4.code())
                } else if proto == PPP_PROTO_IPV6 {
                    Some(IpVersion::V6.code())
                } else {
                    None
                }
            },
            None => None,
        }
    } else {
        None
    }
}

/// The IP version of a packet whose IP header starts at `offset`.
pub fn resolve_ip_version_from_l3(data: &[u8], offset: usize) -> (r: Option<u8>)
    ensures
        r == l3_version(data@, offset as int),
{
    if data.len() < offset || data.len() - offset < 2 {
        return None;
    }
    let version = data[offset] / 16;
    if version == 4 {
        Some(IpVersion::V4.code())
    } else if version == 6 {
        Some(IpVersion::V6.code())
    } else {
        None
    }
}

/// The six bytes that stand for the source address of a version 4 header.
pub fn synth_mac_from_ipv4(data: &[u8], l3_offset: usize) -> (r: Option<[u8; 6]>)
    ensures
        mac_bytes(r) == ipv4_mac(data@, l3_offset as int),
{
    if data.len() < l3_offset || data.len() - l3_offset < 16 {
        return None;
    }
    let mac: [u8; 6] = [
        0x02,
        0x00,
        data[l3_offset + 12],
        data[l3_offset + 13],
        data[l3_offset + 14],
        data[l3_offset + 15],
    ];
    assert(mac@ =~= ipv4_mac(data@, l3_offset as int)->0);
    Some(mac)
}

/// The six bytes that stand for the source address of a version 6 header.
pub fn synth_mac_from_ipv6(data: &[u8], l3_offset: usize) -> (r: Option<[u8; 6]>)
    ensures
        mac_bytes(r) == ipv6_mac(data@, l3_offset as int),
{
    if data.len() < l3_offset || data.len() - l3_offset < 24 {
        return None;
    }
    let mac: [u8; 6] = [
        0x02,
        0x01,
        data[l3_offset + 20],
        data[l3_offset + 21],
        data[l3_offset + 22],
        data[l3_offset + 23],
    ];
    assert(mac@ =~= ipv6_mac(data@, l3_offset as int)->0);
    Some(mac)
}

/// The IP version of a packet that starts with a PPP protocol.
pub fn resolve_ip_version_from_ppp(data: &[u8]) -> (r: Option<u8>)
    ensures
        r == ppp_packet_version(data@),
{
    match read_word(data, 0) {
        Some(proto) => {
            if proto == PPP_PROTO_IP {
                Some(IpVersion::V4.code())
            } else if proto == PPP_PROTO_IPV6 {
                Some(IpVersion::V6.code())
            } else {
                resolve_ip_version_from_l3(data, 2)
            }
        },
        None => None,
    }
}

fn synth_mac(data: &[u8], ip_version: u8, l3_offset: usize) -> (r: Option<[u8; 6]>)
    ensures
        mac_bytes(r) == synthetic_mac(data@, ip_version, l3_offset as int),
{
    if ip_version == IpVersion::V4.code() {
        synth_mac_from_ipv4(data, l3_offset)
    } else if ip_version == IpVersion::V6.code() {
        synth_mac_from_ipv6(data, l3_offset)
    } else {
        None
    }
}

/// Reads a packet.
pub fn resolve_packet_meta(data: &[u8], direction: u8) -> (r: Option<PacketMeta>)
    ensures
        match r {
            Some(meta) => packet_meta(data@, direction) == Some(
                (meta.ip_version, mac_bytes(meta.mac)),
            ),
            None => packet_meta(data@, direction) is None,
        },
{
    if data.len() >= 14 {
        let eth_proto = data[12] as u16 * 256 + data[13] as u16;
        if let Some(ip_version) = resolve_ip_version_from_eth(data, eth_proto) {
            let mac: [u8; 6] = if direction == TrafficDirection::Ingress.code() {
                [data[6], data[7], data[8], data[9], data[10], data[11]]
            } else {
                [data[0], data[1], data[2], data[3], data[4], data[5]]
            };
            assert(mac@ =~= if direction == 1 {
                data@.subrange(6, 12)
            } else {
                data@.subrange(0, 6)
            });
            return Some(PacketMeta { ip_version, mac: Some(mac) });
        }
    }
    if let Some(ip_version) = resolve_ip_version_from_l3(data, 0) {
        return Some(PacketMeta { ip_version, mac: synth_mac(data, ip_version, 0) });
    }
    if let Some(ip_version) = resolve_ip_version_from_ppp(data) {
        return Some(PacketMeta { ip_version, mac: synth_mac(data, ip_version, 2) });
    }
    None
}

/// Counters with one more packet.
pub open spec fn bumped(found: Option<TrafficValue>, bytes: u64) -> TrafficValue {
    match found {
        Some(v) => TrafficValue { packets: sat_add(v.packets, 1), bytes: sat_add(v.bytes, bytes) },
        None => TrafficValue { packets: 1, bytes },
    }
}

/// Counters with one more packet.
pub fn bump_counter(found: Option<TrafficValue>, bytes: u64) -> (r: TrafficValue)
    ensures
        r == bumped(found, bytes),
{
    match found {
        Some(v) => TrafficValue {
            packets: v.packets.saturating_add(1),
            bytes: v.bytes.saturating_add(bytes),
        },
        None => TrafficValue { packets: 1, bytes },
    }
}

/// The keys under which the tables hold what belongs to a packet.
#[derive(Clone, Copy, Debug)]
pub struct PacketKeys {
    pub iface: InterfaceTrafficKey,
    pub iface_limit: IfaceLimitKey,
    pub device: Option<DeviceKeys>,
}

/// The keys under which the tables hold what belongs to the device of a packet.
#[derive(Clone, Copy, Debug)]
pub struct DeviceKeys {
    pub traffic: DeviceTrafficKey,
    pub global_limit: DeviceGlobalLimitKey,
    pub iface_limit: DeviceIfaceLimitKey,
}

/// The keys under which the tables hold what belongs to a packet.
pub fn packet_keys(ifindex: u32, meta: &PacketMeta, direction: u8) -> (r: PacketKeys)
    ensures
        r.iface.ifindex == ifindex,
        r.iface.ip_version == meta.ip_version,
        r.iface.direction == direction,
        r.iface._pad@ == seq![0u8, 0u8],
        r.iface_limit.ifindex == ifindex,
        r.device is Some <==> meta.mac is Some,
        r.device matches Some(d) ==> {
            let mac = meta.mac->0;
            &&& d.traffic.ifindex == ifindex
            &&& d.traffic.mac == mac
            &&& d.traffic.ip_version == meta.ip_version
            &&& d.traffic.direction == direction
            &&& d.global_limit.mac == mac
            &&& d.global_limit._pad@ == seq![0u8, 0u8]
            &&& d.iface_limit.ifindex == ifindex
            &&& d.iface_limit.mac == mac
            &&& d.iface_limit._pad@ == seq![0u8, 0u8]
        },
{
    let pad: [u8; 2] = [0, 0];
    assert(pad@ =~= seq![0u8, 0u8]);
    let device = match meta.mac {
        Some(mac) => Some(
            DeviceKeys {
                traffic: DeviceTrafficKey { ifindex, mac, ip_version: meta.ip_version, direction },
                global_limit: DeviceGlobalLimitKey { mac, _pad: pad },
                iface_limit: DeviceIfaceLimitKey { ifindex, mac, _pad: pad },
            },
        ),
        None => None,
    };
    PacketKeys {
        iface: InterfaceTrafficKey {
            ifindex,
            ip_version: meta.ip_version,
            direction,
            _pad: pad,
        },
        iface_limit: IfaceLimitKey { ifindex },
        device,
    }
}

/// A packet that is read at all is of IP version 4 or 6.
pub proof fn law_packet_has_version(data: Seq<u8>, direction: u8)
    ensures
        packet_meta(data, direction) matches Some((v, _)) ==> v == 4 || v == 6,
{
}

/// A made-up MAC address is marked as locally administered, which tells it from those that
/// makers give out, and tells the IP versions apart.
pub proof fn law_synthetic_mac_is_marked(data: Seq<u8>, at: int)
    ensures
        ipv4_mac(data, at) matches Some(m) ==> m.len() == 6 && m[0] == 2 && m[1] == 0,
        ipv6_mac(data, at) matches Some(m) ==> m.len() == 6 && m[0] == 2 && m[1] == 1,
{
}

/// A packet with an Ethernet header has a device: the sender of what comes in, the receiver of
/// what goes out.
pub proof fn law_ethernet_names_device(data: Seq<u8>)
    requires
        data.len() >= 14,
        eth_version(data, data[12] * 256 + data[13]) is Some,
    ensures
        packet_meta(data, 1) matches Some((_, mac)) && mac == Some(data.subrange(6, 12)),
        packet_meta(data, 2) matches Some((_, mac)) && mac == Some(data.subrange(0, 6)),
{
}

/// The bytes of an Ethernet header say that IP version 4 follows: at once, or in a PPPoE session.
pub open spec fn frame_says_ipv4(data: Seq<u8>) -> bool {
    data.len() >= 14 && ((data[12] == 0x08 && data[13] == 0x00) || (data.len() >= 22 && data[12]
        == 0x88 && data[13] == 0x64 && data[20] == 0x00 && data[21] == 0x21))
}

/// The bytes of an Ethernet header say that IP version 6 follows: at once, or in a PPPoE session.
pub open spec fn frame_says_ipv6(data: Seq<u8>) -> bool {
    data.len() >= 14 && ((data[12] == 0x86 && data[13] == 0xDD) || (data.len() >= 22 && data[12]
        == 0x88 && data[13] == 0x64 && data[20] == 0x00 && data[21] == 0x57))
}

/// The first byte of a packet says that it is of this IP version.
pub open spec fn starts_with_version(data: Seq<u8>, at: int, ip_version: u8) -> bool {
    at + 2 <= data.len() && 16 * ip_version <= data[at] < 16 * ip_version + 16
}

/// An Ethernet frame that says so is of its IP version, and its device is the sender of what comes
/// in, at the seventh to twelfth byte, and the receiver of anything else, at the first six.
pub proof fn law_frame_is_read(data: Seq<u8>, direction: u8)
    requires
        frame_says_ipv4(data) || frame_says_ipv6(data),
    ensures
        packet_meta(data, direction) matches Some((ip_version, Some(mac))) && (ip_version == 4
            <==> frame_says_ipv4(data)) && (ip_version == 6 <==> frame_says_ipv6(data)) && mac.len()
            == 6 && (forall|i: int|
            0 <= i < 6 ==> #[trigger] mac[i] == data[if direction == 1 {
                6 + i
            } else {
                i
            }]),
{
    let mac = if direction == 1 {
        data.subrange(6, 12)
    } else {
        data.subrange(0, 6)
    };
    assert(packet_meta(data, direction) matches Some((_, Some(m))) && m == mac);
}

/// A packet without such a header that starts as an IP packet is of that version. Four bytes of
/// its source address stand for the device, behind a mark: all of them in version 4, the last in
/// version 6. No device is known where the packet ends before.
pub proof fn law_bare_packet_is_read(data: Seq<u8>, direction: u8)
    requires
        !frame_says_ipv4(data),
        !frame_says_ipv6(data),
    ensures
        starts_with_version(data, 0, 4) ==> (packet_meta(data, direction) matches Some((v, mac))
            && v == 4 && (mac is Some <==> data.len() >= 16) && (mac matches Some(m) ==> m =~= seq![
            2u8,
            0u8,
            data[12],
            data[13],
            data[14],
            data[15],
        ])),
        starts_with_version(data, 0, 6) ==> (packet_meta(data, direction) matches Some((v, mac))
            && v == 6 && (mac is Some <==> data.len() >= 24) && (mac matches Some(m) ==> m =~= seq![
            2u8,
            1u8,
            data[20],
            data[21],
            data[22],
            data[23],
        ])),
{
    lemma_not_a_frame(data);
}

/// A packet that is neither is read behind a PPP protocol: the protocol tells the IP version, or
/// else the first byte behind it. It is not read at all where both tell nothing.
pub proof fn law_ppp_packet_is_read(data: Seq<u8>, direction: u8)
    requires
        !frame_says_ipv4(data),
        !frame_says_ipv6(data),
        !starts_with_version(data, 0, 4),
        !starts_with_version(data, 0, 6),
    ensures
        ({
            let v4 = data.len() >= 2 && data[0] == 0 && data[1] == 0x21;
            let v6 = data.len() >= 2 && data[0] == 0 && data[1] == 0x57;
            let r = packet_meta(data, direction);
            &&& v4 || (!v6 && starts_with_version(data, 2, 4)) ==> (r matches Some((v, mac)) && v
                == 4 && (mac is Some <==> data.len() >= 18) && (mac matches Some(m) ==> m =~= seq![
                2u8,
                0u8,
                data[14],
                data[15],
                data[16],
                data[17],
            ]))
            &&& v6 || (!v4 && starts_with_version(data, 2, 6)) ==> (r matches Some((v, mac)) && v
                == 6 && (mac is Some <==> data.len() >= 26) && (mac matches Some(m) ==> m =~= seq![
                2u8,
                1u8,
                data[22],
                data[23],
                data[24],
                data[25],
            ]))
            &&& !v4 && !v6 && !starts_with_version(data, 2, 4) && !starts_with_version(data, 2, 6)
                ==> r is None
        }),
{
    lemma_not_a_frame(data);
}

proof fn lemma_not_a_frame(data: Seq<u8>)
    requires
        !frame_says_ipv4(data),
        !frame_says_ipv6(data),
    ensures
        data.len() >= 14 ==> eth_version(data, data[12] * 256 + data[13]) is None,
{
}

/// One packet more is counted, with its bytes; the first packet starts the counters.
pub proof fn law_packet_adds_its_bytes(found: Option<TrafficValue>, bytes: u64)
    ensures
        ({
            let before = match found {
                Some(v) => (v.packets as int, v.bytes as int),
                None => (0, 0),
            };
            let after = bumped(found, bytes);
            &&& after.packets == capped(before.0 + 1)
            &&& after.bytes == capped(before.1 + bytes)
        }),
{
}


} // verus!
