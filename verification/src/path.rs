//! What one packet does to the tables, and what becomes of it.
use vstd::prelude::*;

use crate::common::TrafficValue;
use crate::counters::capped;
use crate::limiter::{should_drop_by_rate_limit, verdict, LimitsFound, RateVerdict};
use crate::packet::{bump_counter, bumped, PacketMeta};

verus! {

/// What the tables hold for a packet.
#[derive(Clone, Copy, Debug)]
pub struct TablesFound {
    pub iface_traffic: Option<TrafficValue>,
    pub device_traffic: Option<TrafficValue>,
    pub limits: LimitsFound,
}

/// What is to be stored for a packet, and what becomes of it.
#[derive(Clone, Copy, Debug)]
pub struct PacketEffects {
    pub iface_traffic: TrafficValue,
    pub device_traffic: Option<TrafficValue>,
    pub rate: RateVerdict,
}

/// What one packet does: it is counted for its interface, and for its device where that is
/// known, and then held against the limits.
pub open spec fn effects(
    found: TablesFound,
    meta: PacketMeta,
    direction: u8,
    pkt_len: u64,
    iface_now_ns: u64,
    device_now_ns: u64,
) -> PacketEffects {
    PacketEffects {
        iface_traffic: bumped(found.iface_traffic, pkt_len),
        device_traffic: if meta.mac is Some {
            Some(bumped(found.device_traffic, pkt_len))
        } else {
            None
        },
        rate: verdict(
            found.limits,
            meta.mac is Some,
            meta.ip_version,
            direction,
            pkt_len,
            iface_now_ns,
            device_now_ns,
        ),
    }
}

/// What one packet does to the tables, and what becomes of it.
pub fn try_bandix_plus(
    found: &TablesFound,
    meta: &PacketMeta,
    direction: u8,
    pkt_len: u64,
    iface_now_ns: u64,
    device_now_ns: u64,
) -> (r: PacketEffects)
    ensures
        r == effects(*found, *meta, direction, pkt_len, iface_now_ns, device_now_ns),
{
    let device_known = meta.mac.is_some();
    PacketEffects {
        iface_traffic: bump_counter(found.iface_traffic, pkt_len),
        device_traffic: if device_known {
            Some(bump_counter(found.device_traffic, pkt_len))
        } else {
            None
        },
        rate: should_drop_by_rate_limit(
            &found.limits,
            device_known,
            meta.ip_version,
            direction,
            pkt_len,
            iface_now_ns,
            device_now_ns,
        ),
    }
}

/// A packet is counted whether it is dropped or not: what is counted does not depend on limits.
pub proof fn law_dropped_is_counted(
    a: TablesFound,
    b: TablesFound,
    meta: PacketMeta,
    direction: u8,
    pkt_len: u64,
    now: (u64, u64),
    later: (u64, u64),
)
    requires
        a.iface_traffic == b.iface_traffic,
        a.device_traffic == b.device_traffic,
    ensures
        ({
            let x = effects(a, meta, direction, pkt_len, now.0, now.1);
            let y = effects(b, meta, direction, pkt_len, later.0, later.1);
            x.iface_traffic == y.iface_traffic && x.device_traffic == y.device_traffic
        }),
{
}

/// A packet is counted once for its interface, and once for its device where it has one: one
/// packet and its bytes are added to what was found.
pub proof fn law_packet_is_counted(
    found: TablesFound,
    meta: PacketMeta,
    direction: u8,
    pkt_len: u64,
    now: (u64, u64),
)
    ensures
        ({
            let r = effects(found, meta, direction, pkt_len, now.0, now.1);
            &&& adds_packet(found.iface_traffic, r.iface_traffic, pkt_len)
            &&& match r.device_traffic {
                Some(device) => meta.mac is Some && adds_packet(
                    found.device_traffic,
                    device,
                    pkt_len,
                ),
                None => meta.mac is None,
            }
        }),
{
}

/// Counters with one packet more than were found, as far as 64 bits reach.
pub open spec fn adds_packet(
    found: Option<TrafficValue>,
    after: TrafficValue,
    bytes: u64,
) -> bool {
    match found {
        Some(v) => after.packets == capped(v.packets + 1) && after.bytes == capped(v.bytes + bytes),
        None => after.packets == 1 && after.bytes == bytes,
    }
}


} // verus!
