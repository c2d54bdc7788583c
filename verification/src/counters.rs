//! Counters for the four combinations of IP version and direction.
use vstd::prelude::*;

use crate::binary64::{bits_per_second, rate_of};
use crate::common::{IpVersion, TrafficDirection};

verus! {

/// Rates and bytes, up and down, of both IP versions.
#[derive(Debug, Clone, Copy)]
pub struct CounterQuad {
    pub up_v4_bps: u64,
    pub down_v4_bps: u64,
    pub up_v6_bps: u64,
    pub down_v6_bps: u64,
    pub up_v4_bytes: u64,
    pub down_v4_bytes: u64,
    pub up_v6_bytes: u64,
    pub down_v6_bytes: u64,
}

/// All counters at zero.
pub open spec fn zero_quad() -> CounterQuad {
    CounterQuad {
        up_v4_bps: 0,
        down_v4_bps: 0,
        up_v6_bps: 0,
        down_v6_bps: 0,
        up_v4_bytes: 0,
        down_v4_bytes: 0,
        up_v6_bytes: 0,
        down_v6_bytes: 0,
    }
}

impl Default for CounterQuad {
    fn default() -> (q: Self)
        ensures
            q == zero_quad(),
    {
        CounterQuad {
            up_v4_bps: 0,
            down_v4_bps: 0,
            up_v6_bps: 0,
            down_v6_bps: 0,
            up_v4_bytes: 0,
            down_v4_bytes: 0,
            up_v6_bytes: 0,
            down_v6_bytes: 0,
        }
    }
}

/// `a + b`, or the largest value that 64 bits hold.
pub open spec fn sat_add(a: u64, b: u64) -> u64 {
    if a + b > u64::MAX {
        u64::MAX
    } else {
        (a + b) as u64
    }
}

/// The counters of `a` and `b` together.
pub open spec fn quad_add(a: CounterQuad, b: CounterQuad) -> CounterQuad {
    CounterQuad {
        up_v4_bps: sat_add(a.up_v4_bps, b.up_v4_bps),
        down_v4_bps: sat_add(a.down_v4_bps, b.down_v4_bps),
        up_v6_bps: sat_add(a.up_v6_bps, b.up_v6_bps),
        down_v6_bps: sat_add(a.down_v6_bps, b.down_v6_bps),
        up_v4_bytes: sat_add(a.up_v4_bytes, b.up_v4_bytes),
        down_v4_bytes: sat_add(a.down_v4_bytes, b.down_v4_bytes),
        up_v6_bytes: sat_add(a.up_v6_bytes, b.up_v6_bytes),
        down_v6_bytes: sat_add(a.down_v6_bytes, b.down_v6_bytes),
    }
}

/// The counters of all of `s` together.
pub open spec fn quad_total(s: Seq<CounterQuad>) -> CounterQuad
    decreases s.len(),
{
    if s.len() == 0 {
        zero_quad()
    } else {
        quad_add(quad_total(s.drop_last()), s.last())
    }
}

/// Adds the counters of `src` to `dst`.
pub fn add_quad(dst: &mut CounterQuad, src: &CounterQuad)
    ensures
        *final(dst) == quad_add(*old(dst), *src),
{
    dst.up_v4_bps = dst.up_v4_bps.saturating_add(src.up_v4_bps);
    dst.down_v4_bps = dst.down_v4_bps.saturating_add(src.down_v4_bps);
    dst.up_v6_bps = dst.up_v6_bps.saturating_add(src.up_v6_bps);
    dst.down_v6_bps = dst.down_v6_bps.saturating_add(src.down_v6_bps);
    dst.up_v4_bytes = dst.up_v4_bytes.saturating_add(src.up_v4_bytes);
    dst.down_v4_bytes = dst.down_v4_bytes.saturating_add(src.down_v4_bytes);
    dst.up_v6_bytes = dst.up_v6_bytes.saturating_add(src.up_v6_bytes);
    dst.down_v6_bytes = dst.down_v6_bytes.saturating_add(src.down_v6_bytes);
}

/// What a counter has gone up by, from one reading to the next. A counter that is lower than
/// before has started again from zero.
pub open spec fn counter_delta(current: u64, previous: u64) -> u64 {
    if current >= previous {
        (current - previous) as u64
    } else {
        current
    }
}

/// What a counter has gone up by since the previous reading.
pub fn delta_bytes(current: u64, previous: u64) -> (delta: u64)
    ensures
        delta == counter_delta(current, previous),
{
    if current >= previous {
        current - previous
    } else {
        current
    }
}

/// `quad` with `bytes` and their rate added where the version and direction belong; unchanged
/// for numbers that stand for neither.
pub open spec fn quad_filled(
    quad: CounterQuad,
    ip_version: u8,
    direction: u8,
    bytes: u64,
    bps: u64,
) -> CounterQuad {
    if ip_version == 4 && direction == 1 {
        CounterQuad {
            up_v4_bps: sat_add(quad.up_v4_bps, bps),
            up_v4_bytes: sat_add(quad.up_v4_bytes, bytes),
            ..quad
        }
    } else if ip_version == 4 && direction == 2 {
        CounterQuad {
            down_v4_bps: sat_add(quad.down_v4_bps, bps),
            down_v4_bytes: sat_add(quad.down_v4_bytes, bytes),
            ..quad
        }
    } else if ip_version == 6 && direction == 1 {
        CounterQuad {
            up_v6_bps: sat_add(quad.up_v6_bps, bps),
            up_v6_bytes: sat_add(quad.up_v6_bytes, bytes),
            ..quad
        }
    } else if ip_version == 6 && direction == 2 {
        CounterQuad {
            down_v6_bps: sat_add(quad.down_v6_bps, bps),
            down_v6_bytes: sat_add(quad.down_v6_bytes, bytes),
            ..quad
        }
    } else {
        quad
    }
}

/// Adds `delta_bytes`, counted over `elapsed_ms`, where the version and direction belong.
pub fn fill_quad(
    ip_version: u8,
    direction: u8,
    quad: &mut CounterQuad,
    delta_bytes: u64,
    elapsed_ms: u64,
)
    ensures
        *final(quad) == quad_filled(
            *old(quad),
            ip_version,
            direction,
            delta_bytes,
            rate_of(delta_bytes, elapsed_ms),
        ),
{
    let delta_bps = bits_per_second(delta_bytes, elapsed_ms);
    if ip_version == IpVersion::V4.code() && direction == TrafficDirection::Ingress.code() {
        quad.up_v4_bps = quad.up_v4_bps.saturating_add(delta_bps);
        quad.up_v4_bytes = quad.up_v4_bytes.saturating_add(delta_bytes);
    } else if ip_version == IpVersion::V4.code() && direction == TrafficDirection::Egress.code() {
        quad.down_v4_bps = quad.down_v4_bps.saturating_add(delta_bps);
        quad.down_v4_bytes = quad.down_v4_bytes.saturating_add(delta_bytes);
    } else if ip_version == IpVersion::V6.code() && direction == TrafficDirection::Ingress.code() {
        quad.up_v6_bps = quad.up_v6_bps.saturating_add(delta_bps);
        quad.up_v6_bytes = quad.up_v6_bytes.saturating_add(delta_bytes);
    } else if ip_version == IpVersion::V6.code() && direction == TrafficDirection::Egress.code() {
        quad.down_v6_bps = quad.down_v6_bps.saturating_add(delta_bps);
        quad.down_v6_bytes = quad.down_v6_bytes.saturating_add(delta_bytes);
    }
}

/// Adding counters is commutative.
pub proof fn law_quad_add_commutes(a: CounterQuad, b: CounterQuad)
    ensures
        quad_add(a, b) == quad_add(b, a),
{
}

/// Adding counters is associative, even where some of them are at their limit.
pub proof fn law_quad_add_associates(a: CounterQuad, b: CounterQuad, c: CounterQuad)
    ensures
        quad_add(quad_add(a, b), c) == quad_add(a, quad_add(b, c)),
{
}

impl View for CounterQuad {
    type V = CounterQuad;

    open spec fn view(&self) -> CounterQuad {
        *self
    }
}

/// What a counter went up by over some readings, one after the other, together.
pub open spec fn deltas_total(first: u64, readings: Seq<u64>) -> nat
    decreases readings.len(),
{
    if readings.len() == 0 {
        0
    } else {
        let init = readings.drop_last();
        let previous = if init.len() == 0 {
            first
        } else {
            init.last()
        };
        deltas_total(first, init) + counter_delta(readings.last(), previous) as nat
    }
}

/// However often a counter is read while it only goes up, what it went up by in between adds up
/// to the whole.
pub proof fn law_deltas_add_up(first: u64, readings: Seq<u64>)
    requires
        readings.len() > 0,
        first <= readings[0],
        forall|i: int, j: int| 0 <= i <= j < readings.len() ==> readings[i] <= readings[j],
    ensures
        deltas_total(first, readings) == readings.last() - first,
    decreases readings.len(),
{
    let init = readings.drop_last();
    if init.len() > 0 {
        law_deltas_add_up(first, init);
        assert(readings[init.len() - 1] <= readings[init.len() as int]);
    } else {
        assert(deltas_total(first, init) == 0);
    }
}

/// A counter that starts again from zero is not taken to have gone down: what it shows was added.
pub proof fn law_restarted_counter(current: u64, previous: u64)
    requires
        current < previous,
    ensures
        counter_delta(current, previous) == current,
{
}

/// The bytes of an IP version and direction.
pub open spec fn bytes_in(q: CounterQuad, ip_version: u8, direction: u8) -> int {
    match (ip_version, direction) {
        (4, 1) => q.up_v4_bytes as int,
        (4, 2) => q.down_v4_bytes as int,
        (6, 1) => q.up_v6_bytes as int,
        (6, 2) => q.down_v6_bytes as int,
        _ => 0,
    }
}

/// The rate of an IP version and direction.
pub open spec fn rate_in(q: CounterQuad, ip_version: u8, direction: u8) -> int {
    match (ip_version, direction) {
        (4, 1) => q.up_v4_bps as int,
        (4, 2) => q.down_v4_bps as int,
        (6, 1) => q.up_v6_bps as int,
        (6, 2) => q.down_v6_bps as int,
        _ => 0,
    }
}

/// A number, or the largest that 64 bits hold.
pub open spec fn capped(n: int) -> int {
    if n > u64::MAX {
        u64::MAX as int
    } else {
        n
    }
}

/// A number that stands for an IP version, and one that stands for a direction.
pub open spec fn is_lane(ip_version: u8, direction: u8) -> bool {
    (ip_version == 4 || ip_version == 6) && (direction == 1 || direction == 2)
}

/// Adding counters adds bytes and rates of each version and direction.
pub proof fn law_lanes_add(a: CounterQuad, b: CounterQuad, ip_version: u8, direction: u8)
    requires
        is_lane(ip_version, direction),
    ensures
        bytes_in(quad_add(a, b), ip_version, direction) == capped(
            bytes_in(a, ip_version, direction) + bytes_in(b, ip_version, direction),
        ),
        rate_in(quad_add(a, b), ip_version, direction) == capped(
            rate_in(a, ip_version, direction) + rate_in(b, ip_version, direction),
        ),
        bytes_in(zero_quad(), ip_version, direction) == 0,
        rate_in(zero_quad(), ip_version, direction) == 0,
{
}

/// What is filled in goes to its own version and direction, and nowhere else.
pub proof fn law_lanes_fill(
    quad: CounterQuad,
    ip_version: u8,
    direction: u8,
    bytes: u64,
    bps: u64,
    other_version: u8,
    other_direction: u8,
)
    requires
        is_lane(other_version, other_direction),
    ensures
        ({
            let same = (ip_version, direction) == (other_version, other_direction);
            let after = quad_filled(quad, ip_version, direction, bytes, bps);
            &&& bytes_in(after, other_version, other_direction) == capped(
                bytes_in(quad, other_version, other_direction) + if same {
                    bytes as int
                } else {
                    0
                },
            )
            &&& rate_in(after, other_version, other_direction) == capped(
                rate_in(quad, other_version, other_direction) + if same {
                    bps as int
                } else {
                    0
                },
            )
        }),
{
}

/// Counters with the same bytes and rates of every version and direction are the same.
pub proof fn law_lanes_are_all(a: CounterQuad, b: CounterQuad)
    requires
        forall|v: u8, d: u8|
            #![trigger bytes_in(a, v, d)]
            is_lane(v, d) ==> bytes_in(a, v, d) == bytes_in(b, v, d) && rate_in(a, v, d)
                == rate_in(b, v, d),
    ensures
        a == b,
{
    assert(bytes_in(a, 4, 1) == bytes_in(b, 4, 1));
    assert(bytes_in(a, 4, 2) == bytes_in(b, 4, 2));
    assert(bytes_in(a, 6, 1) == bytes_in(b, 6, 1));
    assert(bytes_in(a, 6, 2) == bytes_in(b, 6, 2));
}

/// What a counter went up by is what it shows now and did not show before; where it shows less
/// than before, it is all that it shows.
pub proof fn law_delta(current: u64, previous: u64)
    ensures
        current >= previous ==> previous + counter_delta(current, previous) == current,
        current < previous ==> counter_delta(current, previous) == current,
{
}


/// The bytes of an IP version and direction in all counters together.
pub open spec fn bytes_sum(s: Seq<CounterQuad>, ip_version: u8, direction: u8) -> int
    decreases s.len(),
{
    if s.len() == 0 {
        0
    } else {
        bytes_sum(s.drop_last(), ip_version, direction) + bytes_in(s.last(), ip_version, direction)
    }
}

/// The rates of an IP version and direction in all counters together.
pub open spec fn rates_sum(s: Seq<CounterQuad>, ip_version: u8, direction: u8) -> int
    decreases s.len(),
{
    if s.len() == 0 {
        0
    } else {
        rates_sum(s.drop_last(), ip_version, direction) + rate_in(s.last(), ip_version, direction)
    }
}

/// All counters together have the bytes and rates of each, added up for each IP version and
/// direction, as far as 64 bits reach.
pub proof fn law_counters_add_up(s: Seq<CounterQuad>, ip_version: u8, direction: u8)
    requires
        is_lane(ip_version, direction),
    ensures
        bytes_in(quad_total(s), ip_version, direction) == capped(
            bytes_sum(s, ip_version, direction),
        ),
        rate_in(quad_total(s), ip_version, direction) == capped(
            rates_sum(s, ip_version, direction),
        ),
    decreases s.len(),
{
    if s.len() > 0 {
        law_counters_add_up(s.drop_last(), ip_version, direction);
        lemma_sums_are_positive(s.drop_last(), ip_version, direction);
    }
}

proof fn lemma_sums_are_positive(s: Seq<CounterQuad>, ip_version: u8, direction: u8)
    ensures
        bytes_sum(s, ip_version, direction) >= 0,
        rates_sum(s, ip_version, direction) >= 0,
    decreases s.len(),
{
    if s.len() > 0 {
        lemma_sums_are_positive(s.drop_last(), ip_version, direction);
    }
}


} // verus!
