//! Keys and values of the tables that the packet path shares with user space.
use vstd::prelude::*;

verus! {

/// IP protocol version of a packet.
#[derive(Clone, Copy, Debug, PartialEq, Eq, Structural)]
pub enum IpVersion {
    V4,
    V6,
}

/// Direction of a packet as the interface sees it.
#[derive(Clone, Copy, Debug, PartialEq, Eq, Structural)]
pub enum TrafficDirection {
    Ingress,
    Egress,
}

impl IpVersion {
    /// The number that stands for the version in table keys.
    pub open spec fn code_spec(self) -> u8 {
        match self {
            IpVersion::V4 => 4,
            IpVersion::V6 => 6,
        }
    }

    /// The number that stands for the version in table keys.
    #[verifier::when_used_as_spec(code_spec)]
    pub fn code(self) -> (c: u8)
        ensures
            c == self.code_spec(),
    {
        match self {
            IpVersion::V4 => 4,
            IpVersion::V6 => 6,
        }
    }
}

impl TrafficDirection {
    /// The number that stands for the direction in table keys.
    pub open spec fn code_spec(self) -> u8 {
        match self {
            TrafficDirection::Ingress => 1,
            TrafficDirection::Egress => 2,
        }
    }

    /// The number that stands for the direction in table keys.
    #[verifier::when_used_as_spec(code_spec)]
    pub fn code(self) -> (c: u8)
        ensures
            c == self.code_spec(),
    {
        match self {
            TrafficDirection::Ingress => 1,
            TrafficDirection::Egress => 2,
        }
    }
}

/// Key of the traffic counters of an interface.
#[derive(Clone, Copy, Debug, PartialEq, Eq, Hash)]
pub struct InterfaceTrafficKey {
    pub ifindex: u32,
    pub ip_version: u8,
    pub direction: u8,
    pub _pad: [u8; 2],
}

/// Key of the traffic counters of a device behind an interface.
#[derive(Clone, Copy, Debug, PartialEq, Eq, Hash)]
pub struct DeviceTrafficKey {
    pub ifindex: u32,
    pub mac: [u8; 6],
    pub ip_version: u8,
    pub direction: u8,
}

/// Key of the traffic counters of a source address.
#[derive(Clone, Copy, Debug, PartialEq, Eq, Hash)]
pub struct SourceIpTrafficKey {
    pub ifindex: u32,
    pub ip_version: u8,
    pub direction: u8,
    pub _pad: [u8; 2],
    pub src_ip: [u8; 16],
}

/// Key of the traffic counters of an address. A version 4 address stands in the first four
/// bytes.
#[derive(Clone, Copy, Debug, PartialEq, Eq, Hash)]
pub struct IpTrafficKey {
    pub ifindex: u32,
    pub ip_version: u8,
    pub direction: u8,
    pub ip_addr: [u8; 16],
}

/// Traffic counters.
#[derive(Clone, Copy, Debug, Default, PartialEq, Eq, Structural)]
pub struct TrafficValue {
    pub packets: u64,
    pub bytes: u64,
}

/// Key of the rate limit of a device on every interface.
#[derive(Clone, Copy, Debug, PartialEq, Eq, Hash)]
pub struct DeviceGlobalLimitKey {
    pub mac: [u8; 6],
    pub _pad: [u8; 2],
}

/// Key of the rate limit of a device on one interface.
#[derive(Clone, Copy, Debug, PartialEq, Eq, Hash)]
pub struct DeviceIfaceLimitKey {
    pub ifindex: u32,
    pub mac: [u8; 6],
    pub _pad: [u8; 2],
}

/// Key of the rate limit of an interface.
#[derive(Clone, Copy, Debug, PartialEq, Eq, Hash)]
pub struct IfaceLimitKey {
    pub ifindex: u32,
}

/// Rate limits; zero stands for no limit.
#[derive(Clone, Copy, Debug, Default, PartialEq, Eq, Structural)]
pub struct RateLimitValue {
    pub down_v4_bps: u64,
    pub down_v6_bps: u64,
    pub up_v4_bps: u64,
    pub up_v6_bps: u64,
}

/// Token buckets, one for each IP version and direction.
#[derive(Clone, Copy, Debug, Default, PartialEq, Eq, Structural)]
pub struct RateBucketValue {
    pub down_v4_tokens: u64,
    pub down_v6_tokens: u64,
    pub up_v4_tokens: u64,
    pub up_v6_tokens: u64,
    pub down_v4_last_refill_ns: u64,
    pub down_v6_last_refill_ns: u64,
    pub up_v4_last_refill_ns: u64,
    pub up_v6_last_refill_ns: u64,
}

} // verus!
