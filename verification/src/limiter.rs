//! Rate limits by token buckets: one for each IP version and direction of an interface or of a
//! device behind it.
use vstd::prelude::*;

use crate::common::{IpVersion, RateBucketValue, RateLimitValue, TrafficDirection};
use crate::counters::sat_add;

verus! {

/// Nanoseconds of a second.
pub const BPS_DENOM_NS: u64 = 1_000_000_000;

/// A bucket holds what its budget gives in this time.
pub const BURST_WINDOW_NS: u64 = 100_000_000;

/// A new bucket starts with what its budget gives in this time.
pub const INIT_WINDOW_NS: u64 = 50_000_000;

/// The share of a limit that is handed out.
pub const RATE_SAFETY_PERCENT: u64 = 95;

/// `a * b`, or the largest value that 64 bits hold.
pub open spec fn sat_mul(a: u64, b: u64) -> u64 {
    if a * b > u64::MAX {
        u64::MAX
    } else {
        (a * b) as u64
    }
}

/// `a * b`, or the largest value that 64 bits hold.
pub fn sat_mul_u64(a: u64, b: u64) -> (r: u64)
    ensures
        r == sat_mul(a, b),
{
    if a == 0 || b == 0 {
        assert(a * b == 0) by (nonlinear_arith)
            requires
                a == 0 || b == 0,
        ;
        return 0;
    }
    let most = u64::MAX / b;
    if a > most {
        assert(a * b > u64::MAX) by (nonlinear_arith)
            requires
                a > most,
                most == u64::MAX / b,
                b > 0,
        ;
        u64::MAX
    } else {
        assert(a * b <= u64::MAX) by (nonlinear_arith)
            requires
                a <= most,
                most == u64::MAX / b,
                b > 0,
        ;
        a * b
    }
}

/// What is handed out of a limit: the safe share of it, and at least something.
pub open spec fn budget_of(raw_budget: u64) -> u64 {
    if raw_budget == 0 {
        0
    } else {
        let scaled = sat_mul(raw_budget, 95) / 100;
        if scaled == 0 {
            1
        } else {
            scaled
        }
    }
}

/// What is handed out of a limit.
pub fn effective_budget(raw_budget: u64) -> (r: u64)
    ensures
        r == budget_of(raw_budget),
{
    if raw_budget == 0 {
        return 0;
    }
    let scaled = sat_mul_u64(raw_budget, RATE_SAFETY_PERCENT) / 100;
    if scaled == 0 {
        1
    } else {
        scaled
    }
}

/// What a budget gives in a time, as far as 64 bits hold it.
pub open spec fn tokens_in(budget_bps: u64, window_ns: u64) -> u64 {
    sat_add(
        sat_mul(budget_bps / 1_000_000_000, window_ns),
        sat_mul(budget_bps % 1_000_000_000, window_ns) / 1_000_000_000,
    )
}

/// What a budget gives in a time.
pub fn tokens_for_window(budget_bps: u64, window_ns: u64) -> (r: u64)
    ensures
        r == tokens_in(budget_bps, window_ns),
{
    if budget_bps == 0 || window_ns == 0 {
        assert(sat_mul(budget_bps / 1_000_000_000, window_ns) == 0 && sat_mul(
            budget_bps % 1_000_000_000,
            window_ns,
        ) == 0) by {
            assert((budget_bps / 1_000_000_000) * window_ns == 0) by (nonlinear_arith)
                requires
                    budget_bps == 0 || window_ns == 0,
            ;
            assert((budget_bps % 1_000_000_000) * window_ns == 0) by (nonlinear_arith)
                requires
                    budget_bps == 0 || window_ns == 0,
            ;
        }
        return 0;
    }
    let whole = budget_bps / BPS_DENOM_NS;
    let frac = budget_bps % BPS_DENOM_NS;
    sat_mul_u64(whole, window_ns).saturating_add(sat_mul_u64(frac, window_ns) / BPS_DENOM_NS)
}

/// In up to a second a budget gives its share of a second, rounded down.
pub proof fn law_tokens_are_share(budget_bps: u64, window_ns: u64)
    requires
        window_ns <= 1_000_000_000,
    ensures
        tokens_in(budget_bps, window_ns) == budget_bps * window_ns / 1_000_000_000,
        tokens_in(budget_bps, window_ns) <= budget_bps,
{
    let whole = budget_bps / 1_000_000_000;
    let frac = budget_bps % 1_000_000_000;
    assert(whole * window_ns <= whole * 1_000_000_000) by (nonlinear_arith)
        requires
            window_ns <= 1_000_000_000,
            whole >= 0,
    ;
    assert(frac * window_ns <= frac * 1_000_000_000) by (nonlinear_arith)
        requires
            window_ns <= 1_000_000_000,
            frac >= 0,
    ;
    assert(budget_bps * window_ns == 1_000_000_000 * (whole * window_ns) + frac * window_ns)
        by (nonlinear_arith)
        requires
            budget_bps == whole * 1_000_000_000 + frac,
    ;
    assert(0 <= whole * window_ns && 0 <= frac * window_ns) by (nonlinear_arith)
        requires
            whole >= 0,
            frac >= 0,
            window_ns >= 0,
    ;
}

/// The tokens of a bucket and the time of its last refill, after a refill at `now_ns`. A refill
/// gives what the budget gives since the last one, in a second at most, up to what the bucket
/// holds; the bucket holds at least the packet. One that gives nothing does not count.
pub open spec fn refilled(
    tokens: u64,
    last_refill_ns: u64,
    budget_bps: u64,
    now_ns: u64,
    pkt_len: u64,
) -> (u64, u64) {
    if now_ns <= last_refill_ns {
        (tokens, last_refill_ns)
    } else {
        let elapsed = (now_ns - last_refill_ns) as u64;
        let capped = if elapsed > 1_000_000_000 {
            1_000_000_000
        } else {
            elapsed
        };
        let refill = tokens_in(budget_bps, capped);
        let window = tokens_in(budget_bps, 100_000_000);
        let cap = if window < pkt_len {
            pkt_len
        } else {
            window
        };
        if refill == 0 {
            (tokens, last_refill_ns)
        } else if sat_add(tokens, refill) > cap {
            (cap, now_ns)
        } else {
            (sat_add(tokens, refill), now_ns)
        }
    }
}

/// Refills a bucket at `now_ns`.
pub fn refill_bucket(
    tokens: &mut u64,
    last_refill_ns: &mut u64,
    budget_bps: u64,
    now_ns: u64,
    pkt_len: u64,
)
    ensures
        (*final(tokens), *final(last_refill_ns)) == refilled(
            *old(tokens),
            *old(last_refill_ns),
            budget_bps,
            now_ns,
            pkt_len,
        ),
{
    let last = *last_refill_ns;
    if now_ns <= last {
        return;
    }
    let elapsed_ns = now_ns - last;
    let capped_elapsed_ns = if elapsed_ns > BPS_DENOM_NS {
        BPS_DENOM_NS
    } else {
        elapsed_ns
    };
    let whole = budget_bps / BPS_DENOM_NS;
    let frac = budget_bps % BPS_DENOM_NS;
    let part1 = sat_mul_u64(whole, capped_elapsed_ns);
    let part2 = sat_mul_u64(frac, capped_elapsed_ns) / BPS_DENOM_NS;
    let refill = part1.saturating_add(part2);
    if refill == 0 {
        return;
    }
    let mut cap = tokens_for_window(budget_bps, BURST_WINDOW_NS);
    if cap < pkt_len {
        cap = pkt_len;
    }
    let next_tokens = (*tokens).saturating_add(refill);
    *tokens = if next_tokens > cap {
        cap
    } else {
        next_tokens
    };
    *last_refill_ns = now_ns;
}

/// The limit of an IP version and direction; none for numbers that stand for neither.
pub open spec fn projected(limit: RateLimitValue, ip_version: u8, direction: u8) -> u64 {
    if ip_version == 4 && direction == 1 {
        limit.up_v4_bps
    } else if ip_version == 6 && direction == 1 {
        limit.up_v6_bps
    } else if ip_version == 4 && direction == 2 {
        limit.down_v4_bps
    } else if ip_version == 6 && direction == 2 {
        limit.down_v6_bps
    } else {
        0
    }
}

/// The limit of an IP version and direction.
pub fn project_budget(limit: &RateLimitValue, ip_version: u8, direction: u8) -> (r: u64)
    ensures
        r == projected(*limit, ip_version, direction),
{
    let v4 = IpVersion::V4.code();
    let v6 = IpVersion::V6.code();
    let ingress = TrafficDirection::Ingress.code();
    let egress = TrafficDirection::Egress.code();
    if ip_version == v4 && direction == ingress {
        limit.up_v4_bps
    } else if ip_version == v6 && direction == ingress {
        limit.up_v6_bps
    } else if ip_version == v4 && direction == egress {
        limit.down_v4_bps
    } else if ip_version == v6 && direction == egress {
        limit.down_v6_bps
    } else {
        0
    }
}

/// The stricter of two limits, where zero stands for none.
pub open spec fn stricter(a: u64, b: u64) -> u64 {
    if a == 0 {
        b
    } else if b == 0 || a < b {
        a
    } else {
        b
    }
}

/// The stricter of two limits for each IP version and direction.
pub open spec fn stricter_limits(a: RateLimitValue, b: RateLimitValue) -> RateLimitValue {
    RateLimitValue {
        down_v4_bps: stricter(a.down_v4_bps, b.down_v4_bps),
        down_v6_bps: stricter(a.down_v6_bps, b.down_v6_bps),
        up_v4_bps: stricter(a.up_v4_bps, b.up_v4_bps),
        up_v6_bps: stricter(a.up_v6_bps, b.up_v6_bps),
    }
}

/// The stricter of two limits, where zero stands for none.
pub fn stricter_field(a: u64, b: u64) -> (r: u64)
    ensures
        r == stricter(a, b),
{
    if a == 0 {
        return b;
    }
    if b == 0 {
        return a;
    }
    if a < b {
        a
    } else {
        b
    }
}

/// The stricter of two limits for each IP version and direction.
pub fn stricter_limit_value(a: RateLimitValue, b: RateLimitValue) -> (r: RateLimitValue)
    ensures
        r == stricter_limits(a, b),
{
    RateLimitValue {
        down_v4_bps: stricter_field(a.down_v4_bps, b.down_v4_bps),
        down_v6_bps: stricter_field(a.down_v6_bps, b.down_v6_bps),
        up_v4_bps: stricter_field(a.up_v4_bps, b.up_v4_bps),
        up_v6_bps: stricter_field(a.up_v6_bps, b.up_v6_bps),
    }
}

/// The tokens and the last refill of an IP version and direction.
pub open spec fn lane(b: RateBucketValue, ip_version: u8, direction: u8) -> (u64, u64) {
    if ip_version == 4 && direction == 1 {
        (b.up_v4_tokens, b.up_v4_last_refill_ns)
    } else if ip_version == 6 && direction == 1 {
        (b.up_v6_tokens, b.up_v6_last_refill_ns)
    } else if ip_version == 4 && direction == 2 {
        (b.down_v4_tokens, b.down_v4_last_refill_ns)
    } else {
        (b.down_v6_tokens, b.down_v6_last_refill_ns)
    }
}

/// `b` with the tokens and the last refill of an IP version and direction.
pub open spec fn with_lane(
    b: RateBucketValue,
    ip_version: u8,
    direction: u8,
    to: (u64, u64),
) -> RateBucketValue {
    if ip_version == 4 && direction == 1 {
        RateBucketValue { up_v4_tokens: to.0, up_v4_last_refill_ns: to.1, ..b }
    } else if ip_version == 6 && direction == 1 {
        RateBucketValue { up_v6_tokens: to.0, up_v6_last_refill_ns: to.1, ..b }
    } else if ip_version == 4 && direction == 2 {
        RateBucketValue { down_v4_tokens: to.0, down_v4_last_refill_ns: to.1, ..b }
    } else {
        RateBucketValue { down_v6_tokens: to.0, down_v6_last_refill_ns: to.1, ..b }
    }
}

fn read_lane(b: &RateBucketValue, ip_version: u8, direction: u8) -> (r: (u64, u64))
    ensures
        r == lane(*b, ip_version, direction),
{
    let ingress = direction == TrafficDirection::Ingress.code();
    if ip_version == IpVersion::V4.code() && ingress {
        (b.up_v4_tokens, b.up_v4_last_refill_ns)
    } else if ip_version == IpVersion::V6.code() && ingress {
        (b.up_v6_tokens, b.up_v6_last_refill_ns)
    } else if ip_version == IpVersion::V4.code() && direction == TrafficDirection::Egress.code() {
        (b.down_v4_tokens, b.down_v4_last_refill_ns)
    } else {
        (b.down_v6_tokens, b.down_v6_last_refill_ns)
    }
}

fn write_lane(b: &mut RateBucketValue, ip_version: u8, direction: u8, to: (u64, u64))
    ensures
        *final(b) == with_lane(*old(b), ip_version, direction, to),
{
    let ingress = direction == TrafficDirection::Ingress.code();
    if ip_version == IpVersion::V4.code() && ingress {
        b.up_v4_tokens = to.0;
        b.up_v4_last_refill_ns = to.1;
    } else if ip_version == IpVersion::V6.code() && ingress {
        b.up_v6_tokens = to.0;
        b.up_v6_last_refill_ns = to.1;
    } else if ip_version == IpVersion::V4.code() && direction == TrafficDirection::Egress.code() {
        b.down_v4_tokens = to.0;
        b.down_v4_last_refill_ns = to.1;
    } else {
        b.down_v6_tokens = to.0;
        b.down_v6_last_refill_ns = to.1;
    }
}

/// A packet and a bucket: whether the packet is dropped for want of tokens, and the tokens that
/// are left. A dropped packet takes none.
pub open spec fn spent(tokens: u64, pkt_len: u64) -> (bool, u64) {
    if tokens >= pkt_len {
        (false, (tokens - pkt_len) as u64)
    } else {
        (true, tokens)
    }
}

/// A packet and an old bucket: whether the packet is dropped, and the bucket after it.
pub open spec fn drawn(
    b: RateBucketValue,
    ip_version: u8,
    direction: u8,
    budget: u64,
    pkt_len: u64,
    now_ns: u64,
) -> (bool, RateBucketValue) {
    let (tokens, last) = lane(b, ip_version, direction);
    let (more, last_refill) = refilled(tokens, last, budget, now_ns, pkt_len);
    let (drop, left) = spent(more, pkt_len);
    (drop, with_lane(b, ip_version, direction, (left, last_refill)))
}

/// A packet and a new bucket: whether the packet is dropped, and the bucket after it.
pub open spec fn drawn_from_new(
    b: RateBucketValue,
    ip_version: u8,
    direction: u8,
    pkt_len: u64,
) -> (bool, RateBucketValue) {
    let (tokens, last) = lane(b, ip_version, direction);
    let (drop, left) = spent(tokens, pkt_len);
    (drop, with_lane(b, ip_version, direction, (left, last)))
}

/// Buckets without tokens.
pub open spec fn empty_buckets(now_ns: u64) -> RateBucketValue {
    RateBucketValue {
        down_v4_tokens: 0,
        down_v6_tokens: 0,
        up_v4_tokens: 0,
        up_v6_tokens: 0,
        down_v4_last_refill_ns: now_ns,
        down_v6_last_refill_ns: now_ns,
        up_v4_last_refill_ns: now_ns,
        up_v6_last_refill_ns: now_ns,
    }
}

/// Buckets with what each limit gives at the start.
pub open spec fn initial_buckets(limit: RateLimitValue, now_ns: u64) -> RateBucketValue {
    RateBucketValue {
        down_v4_tokens: tokens_in(budget_of(limit.down_v4_bps), 50_000_000),
        down_v6_tokens: tokens_in(budget_of(limit.down_v6_bps), 50_000_000),
        up_v4_tokens: tokens_in(budget_of(limit.up_v4_bps), 50_000_000),
        up_v6_tokens: tokens_in(budget_of(limit.up_v6_bps), 50_000_000),
        ..empty_buckets(now_ns)
    }
}

/// A packet and the buckets of an interface.
pub open spec fn iface_drawn(
    found: Option<RateBucketValue>,
    ip_version: u8,
    direction: u8,
    raw_budget: u64,
    pkt_len: u64,
    now_ns: u64,
) -> (bool, RateBucketValue) {
    let budget = budget_of(raw_budget);
    match found {
        Some(b) => drawn(b, ip_version, direction, budget, pkt_len, now_ns),
        None => drawn_from_new(
            with_lane(
                empty_buckets(now_ns),
                ip_version,
                direction,
                (tokens_in(budget, 50_000_000), now_ns),
            ),
            ip_version,
            direction,
            pkt_len,
        ),
    }
}

/// A packet and the buckets of a device.
pub open spec fn device_drawn(
    found: Option<RateBucketValue>,
    limit: RateLimitValue,
    ip_version: u8,
    direction: u8,
    raw_budget: u64,
    pkt_len: u64,
    now_ns: u64,
) -> (bool, RateBucketValue) {
    match found {
        Some(b) => drawn(b, ip_version, direction, budget_of(raw_budget), pkt_len, now_ns),
        None => drawn_from_new(initial_buckets(limit, now_ns), ip_version, direction, pkt_len),
    }
}

fn draw(
    bucket: &mut RateBucketValue,
    ip_version: u8,
    direction: u8,
    budget: u64,
    pkt_len: u64,
    now_ns: u64,
) -> (drop: bool)
    ensures
        (drop, *final(bucket)) == drawn(
            *old(bucket),
            ip_version,
            direction,
            budget,
            pkt_len,
            now_ns,
        ),
{
    let (mut tokens, mut last) = read_lane(bucket, ip_version, direction);
    refill_bucket(&mut tokens, &mut last, budget, now_ns, pkt_len);
    if tokens >= pkt_len {
        write_lane(bucket, ip_version, direction, (tokens - pkt_len, last));
        false
    } else {
        write_lane(bucket, ip_version, direction, (tokens, last));
        true
    }
}

fn draw_from_new(bucket: &mut RateBucketValue, ip_version: u8, direction: u8, pkt_len: u64) -> (drop:
    bool)
    ensures
        (drop, *final(bucket)) == drawn_from_new(*old(bucket), ip_version, direction, pkt_len),
{
    let (tokens, last) = read_lane(bucket, ip_version, direction);
    if tokens >= pkt_len {
        write_lane(bucket, ip_version, direction, (tokens - pkt_len, last));
        false
    } else {
        assert(*bucket == with_lane(*bucket, ip_version, direction, (tokens, last)));
        true
    }
}

/// Draws a packet from the buckets of an interface, which are made where there are none.
pub fn consume_iface_bucket(
    found: Option<RateBucketValue>,
    ip_version: u8,
    direction: u8,
    raw_budget: u64,
    pkt_len: u64,
    now_ns: u64,
) -> (r: (bool, RateBucketValue))
    ensures
        r == iface_drawn(found, ip_version, direction, raw_budget, pkt_len, now_ns),
{
    let budget = effective_budget(raw_budget);
    match found {
        Some(b) => {
            let mut bucket = b;
            let drop = draw(&mut bucket, ip_version, direction, budget, pkt_len, now_ns);
            (drop, bucket)
        },
        None => {
            let mut bucket = RateBucketValue {
                down_v4_tokens: 0,
                down_v6_tokens: 0,
                up_v4_tokens: 0,
                up_v6_tokens: 0,
                down_v4_last_refill_ns: now_ns,
                down_v6_last_refill_ns: now_ns,
                up_v4_last_refill_ns: now_ns,
                up_v6_last_refill_ns: now_ns,
            };
            let tokens = tokens_for_window(budget, INIT_WINDOW_NS);
            write_lane(&mut bucket, ip_version, direction, (tokens, now_ns));
            let drop = draw_from_new(&mut bucket, ip_version, direction, pkt_len);
            (drop, bucket)
        },
    }
}

/// Draws a packet from the buckets of a device, which are made where there are none.
pub fn consume_device_bucket(
    found: Option<RateBucketValue>,
    limit: &RateLimitValue,
    ip_version: u8,
    direction: u8,
    raw_budget: u64,
    pkt_len: u64,
    now_ns: u64,
) -> (r: (bool, RateBucketValue))
    ensures
        r == device_drawn(found, *limit, ip_version, direction, raw_budget, pkt_len, now_ns),
{
    match found {
        Some(b) => {
            let mut bucket = b;
            let budget = effective_budget(raw_budget);
            let drop = draw(&mut bucket, ip_version, direction, budget, pkt_len, now_ns);
            (drop, bucket)
        },
        None => {
            let mut bucket = RateBucketValue {
                down_v4_tokens: tokens_for_window(
                    effective_budget(limit.down_v4_bps),
                    INIT_WINDOW_NS,
                ),
                down_v6_tokens: tokens_for_window(
                    effective_budget(limit.down_v6_bps),
                    INIT_WINDOW_NS,
                ),
                up_v4_tokens: tokens_for_window(effective_budget(limit.up_v4_bps), INIT_WINDOW_NS),
                up_v6_tokens: tokens_for_window(effective_budget(limit.up_v6_bps), INIT_WINDOW_NS),
                down_v4_last_refill_ns: now_ns,
                down_v6_last_refill_ns: now_ns,
                up_v4_last_refill_ns: now_ns,
                up_v6_last_refill_ns: now_ns,
            };
            let drop = draw_from_new(&mut bucket, ip_version, direction, pkt_len);
            (drop, bucket)
        },
    }
}

/// What the tables hold for a packet: the limit and the buckets of its interface, the limits of
/// its device, on all interfaces and on this one, and the buckets of its device.
#[derive(Clone, Copy, Debug)]
pub struct LimitsFound {
    pub iface_limit: Option<RateLimitValue>,
    pub iface_bucket: Option<RateBucketValue>,
    pub device_global: Option<RateLimitValue>,
    pub device_iface: Option<RateLimitValue>,
    pub device_bucket: Option<RateBucketValue>,
}

/// What becomes of a packet, and the buckets that are to be stored.
#[derive(Clone, Copy, Debug)]
pub struct RateVerdict {
    pub drop: bool,
    pub iface_bucket: Option<RateBucketValue>,
    pub device_bucket: Option<RateBucketValue>,
}

/// The limit of a device: the stricter of those on all interfaces and on this one.
pub open spec fn device_limit(found: LimitsFound) -> Option<RateLimitValue> {
    match (found.device_global, found.device_iface) {
        (Some(a), Some(b)) => Some(stricter_limits(a, b)),
        (Some(a), None) => Some(a),
        (None, b) => b,
    }
}

/// What the limit of its interface makes of a packet: nothing where there is none.
pub open spec fn iface_verdict(
    found: LimitsFound,
    ip_version: u8,
    direction: u8,
    pkt_len: u64,
    now_ns: u64,
) -> Option<(bool, RateBucketValue)> {
    match found.iface_limit {
        Some(limit) => {
            let raw = projected(limit, ip_version, direction);
            if raw == 0 {
                None
            } else {
                Some(
                    iface_drawn(found.iface_bucket, ip_version, direction, raw, pkt_len, now_ns),
                )
            }
        },
        None => None,
    }
}

/// What the limit of its device makes of a packet: nothing where there is none.
pub open spec fn device_verdict(
    found: LimitsFound,
    ip_version: u8,
    direction: u8,
    pkt_len: u64,
    now_ns: u64,
) -> Option<(bool, RateBucketValue)> {
    match device_limit(found) {
        Some(limit) => {
            let raw = projected(limit, ip_version, direction);
            if raw == 0 {
                None
            } else {
                Some(
                    device_drawn(
                        found.device_bucket,
                        limit,
                        ip_version,
                        direction,
                        raw,
                        pkt_len,
                        now_ns,
                    ),
                )
            }
        },
        None => None,
    }
}

/// What becomes of a packet: dropped by the limit of its interface, or else by that of its
/// device, where the device is known.
pub open spec fn verdict(
    found: LimitsFound,
    device_known: bool,
    ip_version: u8,
    direction: u8,
    pkt_len: u64,
    iface_now_ns: u64,
    device_now_ns: u64,
) -> RateVerdict {
    let first = iface_verdict(found, ip_version, direction, pkt_len, iface_now_ns);
    let iface_bucket = match first {
        Some((_, b)) => Some(b),
        None => None,
    };
    if first matches Some((drop, _)) && drop {
        RateVerdict { drop: true, iface_bucket, device_bucket: None }
    } else if !device_known {
        RateVerdict { drop: false, iface_bucket, device_bucket: None }
    } else {
        match device_verdict(found, ip_version, direction, pkt_len, device_now_ns) {
            Some((drop, b)) => RateVerdict { drop, iface_bucket, device_bucket: Some(b) },
            None => RateVerdict { drop: false, iface_bucket, device_bucket: None },
        }
    }
}

/// Decides what becomes of a packet.
pub fn should_drop_by_rate_limit(
    found: &LimitsFound,
    device_known: bool,
    ip_version: u8,
    direction: u8,
    pkt_len: u64,
    iface_now_ns: u64,
    device_now_ns: u64,
) -> (r: RateVerdict)
    ensures
        r == verdict(
            *found,
            device_known,
            ip_version,
            direction,
            pkt_len,
            iface_now_ns,
            device_now_ns,
        ),
{
    let mut iface_bucket: Option<RateBucketValue> = None;
    if let Some(limit) = found.iface_limit {
        let raw_budget = project_budget(&limit, ip_version, direction);
        if raw_budget > 0 {
            let (drop, bucket) = consume_iface_bucket(
                found.iface_bucket,
                ip_version,
                direction,
                raw_budget,
                pkt_len,
                iface_now_ns,
            );
            iface_bucket = Some(bucket);
            if drop {
                return RateVerdict { drop: true, iface_bucket, device_bucket: None };
            }
        }
    }
    if !device_known {
        return RateVerdict { drop: false, iface_bucket, device_bucket: None };
    }
    let mut limit: Option<RateLimitValue> = found.device_global;
    if let Some(v) = found.device_iface {
        limit = Some(
            match limit {
                Some(current) => stricter_limit_value(current, v),
                None => v,
            },
        );
    }
    match limit {
        Some(limit) => {
            let raw_budget = project_budget(&limit, ip_version, direction);
            if raw_budget == 0 {
                return RateVerdict { drop: false, iface_bucket, device_bucket: None };
            }
            let (drop, bucket) = consume_device_bucket(
                found.device_bucket,
                &limit,
                ip_version,
                direction,
                raw_budget,
                pkt_len,
                device_now_ns,
            );
            RateVerdict { drop, iface_bucket, device_bucket: Some(bucket) }
        },
        None => RateVerdict { drop: false, iface_bucket, device_bucket: None },
    }
}

/// Of two limits the stricter is never looser than either, and there is one where there is one
/// of them.
pub proof fn law_stricter_binds(a: u64, b: u64)
    ensures
        a > 0 ==> 0 < stricter(a, b) <= a,
        b > 0 ==> 0 < stricter(a, b) <= b,
        stricter(a, b) == a || stricter(a, b) == b,
        stricter(a, b) == 0 <==> a == 0 && b == 0,
{
}

/// It does not matter in which order limits are made stricter.
pub proof fn law_stricter_orderless(a: RateLimitValue, b: RateLimitValue, c: RateLimitValue)
    ensures
        stricter_limits(a, b) == stricter_limits(b, a),
        stricter_limits(stricter_limits(a, b), c) == stricter_limits(a, stricter_limits(b, c)),
        stricter_limits(a, a) == a,
{
}

/// What is handed out of a limit is something, and never more than the limit.
pub proof fn law_budget_within_limit(raw_budget: u64)
    ensures
        budget_of(raw_budget) <= raw_budget,
        raw_budget > 0 ==> budget_of(raw_budget) > 0,
{
}

/// A packet without a limit is never dropped, and nothing is stored for it.
pub proof fn law_no_limit_no_drop(
    found: LimitsFound,
    device_known: bool,
    ip_version: u8,
    direction: u8,
    pkt_len: u64,
    iface_now_ns: u64,
    device_now_ns: u64,
)
    requires
        found.iface_limit matches Some(l) ==> projected(l, ip_version, direction) == 0,
        device_known ==> (found.device_global matches Some(l) ==> projected(
            l,
            ip_version,
            direction,
        ) == 0),
        device_known ==> (found.device_iface matches Some(l) ==> projected(
            l,
            ip_version,
            direction,
        ) == 0),
    ensures
        verdict(
            found,
            device_known,
            ip_version,
            direction,
            pkt_len,
            iface_now_ns,
            device_now_ns,
        ) == (RateVerdict { drop: false, iface_bucket: None, device_bucket: None }),
{
}

/// A packet is dropped just where the refilled bucket has fewer tokens than the packet has
/// bytes; a dropped packet takes no tokens, any other as many as it has bytes.
pub proof fn law_drop_for_want_of_tokens(
    b: RateBucketValue,
    ip_version: u8,
    direction: u8,
    budget: u64,
    pkt_len: u64,
    now_ns: u64,
)
    ensures
        ({
            let (tokens, last) = lane(b, ip_version, direction);
            let more = refilled(tokens, last, budget, now_ns, pkt_len).0;
            let (drop, after) = drawn(b, ip_version, direction, budget, pkt_len, now_ns);
            let left = lane(after, ip_version, direction).0;
            &&& drop <==> more < pkt_len
            &&& drop ==> left == more
            &&& !drop ==> left + pkt_len == more
        }),
{
}

/// Drawing from the bucket of one IP version and direction leaves the others as they are.
pub proof fn law_lanes_are_apart(
    b: RateBucketValue,
    ip_version: u8,
    direction: u8,
    to: (u64, u64),
    other_version: u8,
    other_direction: u8,
)
    requires
        ip_version == 4 || ip_version == 6,
        other_version == 4 || other_version == 6,
        direction == 1 || direction == 2,
        other_direction == 1 || other_direction == 2,
    ensures
        lane(with_lane(b, ip_version, direction, to), ip_version, direction) == to,
        (ip_version, direction) != (other_version, other_direction) ==> lane(
            with_lane(b, ip_version, direction, to),
            other_version,
            other_direction,
        ) == lane(b, other_version, other_direction),
{
}

/// A refill leaves no more tokens than the bucket holds: what the budget gives in a tenth of a
/// second, or one packet where that is more.
pub proof fn law_refill_is_capped(
    tokens: u64,
    last_refill_ns: u64,
    budget_bps: u64,
    now_ns: u64,
    pkt_len: u64,
)
    requires
        tokens <= tokens_in(budget_bps, 100_000_000) || tokens <= pkt_len,
    ensures
        refilled(tokens, last_refill_ns, budget_bps, now_ns, pkt_len).0 <= tokens_in(
            budget_bps,
            100_000_000,
        ) || refilled(tokens, last_refill_ns, budget_bps, now_ns, pkt_len).0 <= pkt_len,
{
}

/// Packets at a bucket, one after the other: the bytes that were let through, and the tokens
/// and the last refill after them. A packet is its time and its length.
pub open spec fn let_through(
    start: (u64, u64),
    budget_bps: u64,
    packets: Seq<(u64, u64)>,
) -> (nat, (u64, u64))
    decreases packets.len(),
{
    if packets.len() == 0 {
        (0, start)
    } else {
        let (bytes, (tokens, last)) = let_through(start, budget_bps, packets.drop_last());
        let (now_ns, pkt_len) = packets.last();
        let (more, last_refill) = refilled(tokens, last, budget_bps, now_ns, pkt_len);
        let (drop, left) = spent(more, pkt_len);
        (
            if drop {
                bytes
            } else {
                bytes + pkt_len as nat
            },
            (left, last_refill),
        )
    }
}

/// A limit holds over time: the bytes let through, and the tokens that are left, are never more
/// than the tokens at the start and what the budget gives from then to the last refill.
pub proof fn law_rate_holds(start: (u64, u64), budget_bps: u64, packets: Seq<(u64, u64)>)
    ensures
        ({
            let (bytes, (tokens, last)) = let_through(start, budget_bps, packets);
            &&& last >= start.1
            &&& (bytes + tokens as nat) * 1_000_000_000 <= start.0 * 1_000_000_000 + budget_bps * (
            last - start.1)
        }),
    decreases packets.len(),
{
    if packets.len() == 0 {
        assert(budget_bps * (start.1 - start.1) == 0) by (nonlinear_arith);
    } else {
        law_rate_holds(start, budget_bps, packets.drop_last());
        let (bytes, (tokens, last)) = let_through(start, budget_bps, packets.drop_last());
        let (now_ns, pkt_len) = packets.last();
        if now_ns > last {
            let elapsed = (now_ns - last) as u64;
            let capped: u64 = if elapsed > 1_000_000_000 {
                1_000_000_000
            } else {
                elapsed
            };
            law_tokens_are_share(budget_bps, capped);
            assert(budget_bps * (last - start.1) + budget_bps * elapsed == budget_bps * (now_ns
                - start.1)) by (nonlinear_arith)
                requires
                    elapsed == now_ns - last,
            ;
            assert(budget_bps * capped <= budget_bps * elapsed) by (nonlinear_arith)
                requires
                    capped <= elapsed,
                    budget_bps >= 0,
            ;
        }
    }
}

/// The limit that a table entry sets for an IP version and direction: zero where there is no
/// entry, or none for them.
pub open spec fn limit_for(limit: Option<RateLimitValue>, ip_version: u8, direction: u8) -> int {
    match limit {
        None => 0,
        Some(l) => match (ip_version, direction) {
            (4, 1) => l.up_v4_bps as int,
            (4, 2) => l.down_v4_bps as int,
            (6, 1) => l.up_v6_bps as int,
            (6, 2) => l.down_v6_bps as int,
            _ => 0,
        },
    }
}

/// The tokens of a bucket for an IP version and direction.
pub open spec fn tokens_for(b: RateBucketValue, ip_version: u8, direction: u8) -> int {
    match (ip_version, direction) {
        (4, 1) => b.up_v4_tokens as int,
        (4, 2) => b.down_v4_tokens as int,
        (6, 1) => b.up_v6_tokens as int,
        (6, 2) => b.down_v6_tokens as int,
        _ => 0,
    }
}

/// When a bucket was last refilled for an IP version and direction.
pub open spec fn refill_time(b: RateBucketValue, ip_version: u8, direction: u8) -> int {
    match (ip_version, direction) {
        (4, 1) => b.up_v4_last_refill_ns as int,
        (4, 2) => b.down_v4_last_refill_ns as int,
        (6, 1) => b.up_v6_last_refill_ns as int,
        (6, 2) => b.down_v6_last_refill_ns as int,
        _ => 0,
    }
}

/// The smaller of two limits, of which zero is none.
pub open spec fn tighter(a: int, b: int) -> int {
    if a > 0 && (b <= 0 || a <= b) {
        a
    } else {
        b
    }
}

/// Bytes in a second out of a limit: 95 percent of it, as far as 64 bits hold the product, and at
/// least one where there is a limit.
pub open spec fn allowance(limit: int) -> int {
    let product = if 95 * limit > u64::MAX {
        u64::MAX as int
    } else {
        95 * limit
    };
    if limit > 0 && product / 100 == 0 {
        1
    } else {
        product / 100
    }
}

/// The tokens that a packet finds: in a new bucket what the limit gives in 50 ms; in an old one
/// what was left, and what the limit gives since the last refill, in a second at most, up to what
/// it gives in 100 ms or to the length of the packet.
pub open spec fn available(
    tokens: Option<(int, int)>,
    limit: int,
    pkt_len: u64,
    now_ns: u64,
) -> int {
    let rate = allowance(limit);
    match tokens {
        None => rate * 50_000_000 / 1_000_000_000,
        Some((left, last)) => {
            let elapsed = if now_ns - last > 1_000_000_000 {
                1_000_000_000int
            } else {
                now_ns - last
            };
            let refill = rate * elapsed / 1_000_000_000;
            let window = rate * 100_000_000 / 1_000_000_000;
            let most = if window < pkt_len {
                pkt_len as int
            } else {
                window
            };
            if elapsed <= 0 || refill == 0 {
                left
            } else if left + refill > most {
                most
            } else {
                left + refill
            }
        },
    }
}

/// The tokens and the last refill of a bucket that was found.
pub open spec fn held(
    found: Option<RateBucketValue>,
    ip_version: u8,
    direction: u8,
) -> Option<(int, int)> {
    match found {
        Some(b) => Some((tokens_for(b, ip_version, direction), refill_time(b, ip_version, direction))),
        None => None,
    }
}

proof fn lemma_allowance(raw: u64)
    ensures
        budget_of(raw) == allowance(raw as int),
{
    assert(raw * 95 == 95 * raw);
}

proof fn lemma_available(
    b: RateBucketValue,
    ip_version: u8,
    direction: u8,
    raw: u64,
    pkt_len: u64,
    now_ns: u64,
)
    requires
        ip_version == 4 || ip_version == 6,
        direction == 1 || direction == 2,
    ensures
        ({
            let (drop, after) = drawn(b, ip_version, direction, budget_of(raw), pkt_len, now_ns);
            let found = available(
                held(Some(b), ip_version, direction),
                raw as int,
                pkt_len,
                now_ns,
            );
            &&& drop <==> found < pkt_len
            &&& tokens_for(after, ip_version, direction) == if drop {
                found
            } else {
                found - pkt_len
            }
            &&& refill_time(b, ip_version, direction) <= refill_time(after, ip_version, direction)
        }),
{
    lemma_allowance(raw);
    law_tokens_are_share(budget_of(raw), 100_000_000);
    let (tokens, last) = lane(b, ip_version, direction);
    if now_ns > last {
        let elapsed = (now_ns - last) as u64;
        let capped: u64 = if elapsed > 1_000_000_000 {
            1_000_000_000
        } else {
            elapsed
        };
        law_tokens_are_share(budget_of(raw), capped);
    }
}

/// The limit of the interface of a packet: where it is not zero for the version and direction of
/// the packet, a bucket is stored for the interface, and the packet is dropped on its account just
/// where it finds fewer tokens than it has bytes. A dropped packet takes none, any other as many
/// as it has bytes, and the device is then not asked.
#[verifier::spinoff_prover]
pub proof fn law_interface_limit_applies(
    found: LimitsFound,
    device_known: bool,
    ip_version: u8,
    direction: u8,
    pkt_len: u64,
    iface_now_ns: u64,
    device_now_ns: u64,
)
    requires
        ip_version == 4 || ip_version == 6,
        direction == 1 || direction == 2,
    ensures
        ({
            let r = verdict(
                found,
                device_known,
                ip_version,
                direction,
                pkt_len,
                iface_now_ns,
                device_now_ns,
            );
            let limit = limit_for(found.iface_limit, ip_version, direction);
            let tokens = available(
                held(found.iface_bucket, ip_version, direction),
                limit,
                pkt_len,
                iface_now_ns,
            );
            &&& r.iface_bucket is Some <==> limit > 0
            &&& limit > 0 && tokens < pkt_len ==> r.drop && r.device_bucket is None
            &&& limit == 0 || tokens >= pkt_len ==> (!device_known ==> !r.drop
                && r.device_bucket is None)
            &&& r.iface_bucket matches Some(after) ==> tokens_for(after, ip_version, direction)
                == if tokens < pkt_len {
                tokens
            } else {
                tokens - pkt_len
            }
        }),
{
    if let Some(l) = found.iface_limit {
        let raw = projected(l, ip_version, direction);
        lemma_allowance(raw);
        law_tokens_are_share(budget_of(raw), 50_000_000);
        if let Some(b) = found.iface_bucket {
            lemma_available(b, ip_version, direction, raw, pkt_len, iface_now_ns);
        }
    }
}

/// The limits of the device of a packet, on all interfaces and on this one: where the device is
/// known, the interface lets the packet through, and either limit is not zero for its version and
/// direction, a bucket is stored for the device, and the packet is dropped just where it finds
/// fewer tokens of the smaller limit than it has bytes. One of the two limits is enough.
#[verifier::spinoff_prover]
pub proof fn law_device_limit_applies(
    found: LimitsFound,
    ip_version: u8,
    direction: u8,
    pkt_len: u64,
    iface_now_ns: u64,
    device_now_ns: u64,
)
    requires
        ip_version == 4 || ip_version == 6,
        direction == 1 || direction == 2,
        !verdict(
            found,
            false,
            ip_version,
            direction,
            pkt_len,
            iface_now_ns,
            device_now_ns,
        ).drop,
    ensures
        ({
            let r = verdict(
                found,
                true,
                ip_version,
                direction,
                pkt_len,
                iface_now_ns,
                device_now_ns,
            );
            let limit = tighter(
                limit_for(found.device_global, ip_version, direction),
                limit_for(found.device_iface, ip_version, direction),
            );
            let tokens = available(
                held(found.device_bucket, ip_version, direction),
                limit,
                pkt_len,
                device_now_ns,
            );
            &&& r.device_bucket is Some <==> limit > 0
            &&& r.drop <==> limit > 0 && tokens < pkt_len
            &&& r.device_bucket matches Some(after) ==> tokens_for(after, ip_version, direction)
                == if r.drop {
                tokens
            } else {
                tokens - pkt_len
            }
        }),
{
    if let Some(l) = device_limit(found) {
        let raw = projected(l, ip_version, direction);
        lemma_allowance(raw);
        law_tokens_are_share(budget_of(raw), 50_000_000);
        if let Some(b) = found.device_bucket {
            lemma_available(b, ip_version, direction, raw, pkt_len, device_now_ns);
        }
    }
}

proof fn lemma_other_lane_of_old(
    b: RateBucketValue,
    ip_version: u8,
    direction: u8,
    budget: u64,
    pkt_len: u64,
    now_ns: u64,
    other_version: u8,
    other_direction: u8,
)
    requires
        ip_version == 4 || ip_version == 6,
        direction == 1 || direction == 2,
        other_version == 4 || other_version == 6,
        other_direction == 1 || other_direction == 2,
        (ip_version, direction) != (other_version, other_direction),
    ensures
        ({
            let after = drawn(b, ip_version, direction, budget, pkt_len, now_ns).1;
            &&& tokens_for(after, other_version, other_direction) == tokens_for(
                b,
                other_version,
                other_direction,
            )
            &&& refill_time(after, other_version, other_direction) == refill_time(
                b,
                other_version,
                other_direction,
            )
        }),
{
}

proof fn lemma_other_lane_of_new(
    limit: RateLimitValue,
    tokens: u64,
    ip_version: u8,
    direction: u8,
    pkt_len: u64,
    now_ns: u64,
    other_version: u8,
    other_direction: u8,
)
    requires
        ip_version == 4 || ip_version == 6,
        direction == 1 || direction == 2,
        other_version == 4 || other_version == 6,
        other_direction == 1 || other_direction == 2,
        (ip_version, direction) != (other_version, other_direction),
    ensures
        ({
            let of_iface = drawn_from_new(
                with_lane(empty_buckets(now_ns), ip_version, direction, (tokens, now_ns)),
                ip_version,
                direction,
                pkt_len,
            ).1;
            let of_device = drawn_from_new(
                initial_buckets(limit, now_ns),
                ip_version,
                direction,
                pkt_len,
            ).1;
            &&& tokens_for(of_iface, other_version, other_direction) == 0
            &&& refill_time(of_iface, other_version, other_direction) == now_ns
            &&& refill_time(of_iface, ip_version, direction) == now_ns
            &&& tokens_for(of_device, other_version, other_direction) == tokens_in(
                budget_of(limit_for(Some(limit), other_version, other_direction) as u64),
                50_000_000,
            )
            &&& refill_time(of_device, other_version, other_direction) == now_ns
            &&& refill_time(of_device, ip_version, direction) == now_ns
        }),
{
}

/// A packet leaves the tokens and refills of other versions and directions in the bucket of its
/// interface as they are. A new bucket has no tokens for them, and is refilled now.
#[verifier::spinoff_prover]
pub proof fn law_other_lanes_of_interface(
    found: LimitsFound,
    device_known: bool,
    ip_version: u8,
    direction: u8,
    pkt_len: u64,
    iface_now_ns: u64,
    device_now_ns: u64,
    other_version: u8,
    other_direction: u8,
)
    requires
        ip_version == 4 || ip_version == 6,
        direction == 1 || direction == 2,
        other_version == 4 || other_version == 6,
        other_direction == 1 || other_direction == 2,
        (ip_version, direction) != (other_version, other_direction),
    ensures
        ({
            let r = verdict(
                found,
                device_known,
                ip_version,
                direction,
                pkt_len,
                iface_now_ns,
                device_now_ns,
            );
            r.iface_bucket matches Some(after) ==> match found.iface_bucket {
                Some(b) => {
                    &&& tokens_for(after, other_version, other_direction) == tokens_for(
                        b,
                        other_version,
                        other_direction,
                    )
                    &&& refill_time(after, other_version, other_direction) == refill_time(
                        b,
                        other_version,
                        other_direction,
                    )
                },
                None => {
                    &&& tokens_for(after, other_version, other_direction) == 0
                    &&& refill_time(after, other_version, other_direction) == iface_now_ns
                    &&& refill_time(after, ip_version, direction) == iface_now_ns
                },
            }
        }),
{
    let r = verdict(
        found,
        device_known,
        ip_version,
        direction,
        pkt_len,
        iface_now_ns,
        device_now_ns,
    );
    let first = iface_verdict(found, ip_version, direction, pkt_len, iface_now_ns);
    assert(r.iface_bucket == match first {
        Some((_, b)) => Some(b),
        None => None,
    });
    if let Some(l) = found.iface_limit {
        let budget = budget_of(projected(l, ip_version, direction));
        if let Some(b) = found.iface_bucket {
            lemma_other_lane_of_old(
                b,
                ip_version,
                direction,
                budget,
                pkt_len,
                iface_now_ns,
                other_version,
                other_direction,
            );
        } else {
            lemma_other_lane_of_new(
                l,
                tokens_in(budget, 50_000_000),
                ip_version,
                direction,
                pkt_len,
                iface_now_ns,
                other_version,
                other_direction,
            );
        }
    }
}

/// A packet leaves the tokens and refills of other versions and directions in the bucket of its
/// device as they are. A new bucket has for each of them what the smaller limit gives in 50 ms,
/// and is refilled now.
#[verifier::spinoff_prover]
pub proof fn law_other_lanes_of_device(
    found: LimitsFound,
    device_known: bool,
    ip_version: u8,
    direction: u8,
    pkt_len: u64,
    iface_now_ns: u64,
    device_now_ns: u64,
    other_version: u8,
    other_direction: u8,
)
    requires
        ip_version == 4 || ip_version == 6,
        direction == 1 || direction == 2,
        other_version == 4 || other_version == 6,
        other_direction == 1 || other_direction == 2,
        (ip_version, direction) != (other_version, other_direction),
    ensures
        ({
            let r = verdict(
                found,
                device_known,
                ip_version,
                direction,
                pkt_len,
                iface_now_ns,
                device_now_ns,
            );
            r.device_bucket matches Some(after) ==> match found.device_bucket {
                Some(b) => {
                    &&& tokens_for(after, other_version, other_direction) == tokens_for(
                        b,
                        other_version,
                        other_direction,
                    )
                    &&& refill_time(after, other_version, other_direction) == refill_time(
                        b,
                        other_version,
                        other_direction,
                    )
                },
                None => {
                    &&& tokens_for(after, other_version, other_direction) == available(
                        None,
                        tighter(
                            limit_for(found.device_global, other_version, other_direction),
                            limit_for(found.device_iface, other_version, other_direction),
                        ),
                        pkt_len,
                        device_now_ns,
                    )
                    &&& refill_time(after, other_version, other_direction) == device_now_ns
                    &&& refill_time(after, ip_version, direction) == device_now_ns
                },
            }
        }),
{
    let r = verdict(
        found,
        device_known,
        ip_version,
        direction,
        pkt_len,
        iface_now_ns,
        device_now_ns,
    );
    let second = device_verdict(found, ip_version, direction, pkt_len, device_now_ns);
    assert(r.device_bucket matches Some(b) ==> second matches Some(v) && v.1 == b);
    if let Some(l) = device_limit(found) {
        if let Some(b) = found.device_bucket {
            lemma_other_lane_of_old(
                b,
                ip_version,
                direction,
                budget_of(projected(l, ip_version, direction)),
                pkt_len,
                device_now_ns,
                other_version,
                other_direction,
            );
        } else {
            let other = limit_for(Some(l), other_version, other_direction) as u64;
            lemma_other_lane_of_new(
                l,
                0,
                ip_version,
                direction,
                pkt_len,
                device_now_ns,
                other_version,
                other_direction,
            );
            assert(other == tighter(
                limit_for(found.device_global, other_version, other_direction),
                limit_for(found.device_iface, other_version, other_direction),
            ));
            lemma_allowance(other);
            law_tokens_are_share(budget_of(other), 50_000_000);
        }
    }
}

/// The refill of a bucket counts from now where it gave something, and is left to count on where
/// it gave nothing.
pub proof fn law_refill_counts_on(
    b: RateBucketValue,
    ip_version: u8,
    direction: u8,
    budget: u64,
    pkt_len: u64,
    now_ns: u64,
)
    requires
        ip_version == 4 || ip_version == 6,
        direction == 1 || direction == 2,
        budget <= 1_000_000_000_000_000,
    ensures
        ({
            let last = refill_time(b, ip_version, direction);
            let elapsed = if now_ns - last > 1_000_000_000 {
                1_000_000_000int
            } else {
                now_ns - last
            };
            let after = drawn(b, ip_version, direction, budget, pkt_len, now_ns).1;
            refill_time(after, ip_version, direction) == if elapsed > 0 && budget * elapsed
                >= 1_000_000_000 {
                now_ns as int
            } else {
                last
            }
        }),
{
    let (tokens, last) = lane(b, ip_version, direction);
    if now_ns > last {
        let elapsed = (now_ns - last) as u64;
        let capped: u64 = if elapsed > 1_000_000_000 {
            1_000_000_000
        } else {
            elapsed
        };
        law_tokens_are_share(budget, capped);
        assert(budget * capped >= 0) by (nonlinear_arith)
            requires
                budget >= 0,
                capped >= 0,
        ;
    }
}


} // verus!
