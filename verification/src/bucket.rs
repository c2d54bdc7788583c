//! Aggregated traffic buckets.
use vstd::prelude::*;

use crate::binary64::{law_ratio_rounds_half_up, law_ratio_within, round_ratio, rounded_ratio};
use crate::counters::{
    bytes_in, capped, is_lane, law_lanes_add, rate_in, sat_add, zero_quad, CounterQuad,
};
use crate::sort::{
    ascending, insert_keyed, law_sort_orders, law_sort_permutes, sort_values, stable_sort,
};

verus! {

/// Traffic of one series over one local hour or day: byte totals, and the average, minimum,
/// maximum and 95th percentile of the sampled rates.
#[derive(Debug, Clone, Copy)]
pub struct AggregatedBucket {
    pub start_ts_ms: u64,
    pub end_ts_ms: u64,
    pub up_v4_bytes: u64,
    pub down_v4_bytes: u64,
    pub up_v6_bytes: u64,
    pub down_v6_bytes: u64,
    pub up_v4_bps_avg: u64,
    pub up_v4_bps_min: u64,
    pub up_v4_bps_max: u64,
    pub up_v4_bps_p95: u64,
    pub down_v4_bps_avg: u64,
    pub down_v4_bps_min: u64,
    pub down_v4_bps_max: u64,
    pub down_v4_bps_p95: u64,
    pub up_v6_bps_avg: u64,
    pub up_v6_bps_min: u64,
    pub up_v6_bps_max: u64,
    pub up_v6_bps_p95: u64,
    pub down_v6_bps_avg: u64,
    pub down_v6_bps_min: u64,
    pub down_v6_bps_max: u64,
    pub down_v6_bps_p95: u64,
}

/// A bucket with nothing in it.
pub open spec fn empty_bucket() -> AggregatedBucket {
    AggregatedBucket {
        start_ts_ms: 0,
        end_ts_ms: 0,
        up_v4_bytes: 0,
        down_v4_bytes: 0,
        up_v6_bytes: 0,
        down_v6_bytes: 0,
        up_v4_bps_avg: 0,
        up_v4_bps_min: 0,
        up_v4_bps_max: 0,
        up_v4_bps_p95: 0,
        down_v4_bps_avg: 0,
        down_v4_bps_min: 0,
        down_v4_bps_max: 0,
        down_v4_bps_p95: 0,
        up_v6_bps_avg: 0,
        up_v6_bps_min: 0,
        up_v6_bps_max: 0,
        up_v6_bps_p95: 0,
        down_v6_bps_avg: 0,
        down_v6_bps_min: 0,
        down_v6_bps_max: 0,
        down_v6_bps_p95: 0,
    }
}

impl Default for AggregatedBucket {
    fn default() -> (b: Self)
        ensures
            b == empty_bucket(),
    {
        AggregatedBucket {
            start_ts_ms: 0,
            end_ts_ms: 0,
            up_v4_bytes: 0,
            down_v4_bytes: 0,
            up_v6_bytes: 0,
            down_v6_bytes: 0,
            up_v4_bps_avg: 0,
            up_v4_bps_min: 0,
            up_v4_bps_max: 0,
            up_v4_bps_p95: 0,
            down_v4_bps_avg: 0,
            down_v4_bps_min: 0,
            down_v4_bps_max: 0,
            down_v4_bps_p95: 0,
            up_v6_bps_avg: 0,
            up_v6_bps_min: 0,
            up_v6_bps_max: 0,
            up_v6_bps_p95: 0,
            down_v6_bps_avg: 0,
            down_v6_bps_min: 0,
            down_v6_bps_max: 0,
            down_v6_bps_p95: 0,
        }
    }
}

/// The sum of `v`.
pub open spec fn total(v: Seq<u64>) -> nat
    decreases v.len(),
{
    if v.len() == 0 {
        0
    } else {
        total(v.drop_last()) + v.last() as nat
    }
}

/// The sum of `v`, or the largest value that 64 bits hold.
pub open spec fn sat_total(v: Seq<u64>) -> u64 {
    if total(v) > u64::MAX {
        u64::MAX
    } else {
        total(v) as u64
    }
}

/// The average of `v`: the sum, kept to 64 bits, over the number of values, in binary64
/// arithmetic, rounded to an integer.
pub open spec fn mean(v: Seq<u64>) -> u64 {
    rounded_ratio(total(v) % 0x1_0000_0000_0000_0000, v.len())
}

/// Average, minimum, maximum and 95th percentile of `v`; zeros where there is no value.
pub open spec fn stats_of(v: Seq<u64>) -> (u64, u64, u64, u64) {
    if v.len() == 0 {
        (0, 0, 0, 0)
    } else {
        (
            mean(v),
            ascending(v)[0],
            ascending(v)[v.len() - 1],
            ascending(v)[(19 * v.len() / 20) as int],
        )
    }
}

/// Average, minimum, maximum and 95th percentile of the sampled rates.
pub fn bps_stats(v: &[u64]) -> (r: (u64, u64, u64, u64))
    ensures
        r == stats_of(v@),
{
    let n = v.len();
    if n == 0 {
        return (0, 0, 0, 0);
    }
    let sorted = sort_values(v);
    let mut sum: u64 = 0;
    let mut i: usize = 0;
    while i < n
        invariant
            i <= n,
            n == v@.len(),
            sum == total(v@.take(i as int)) % 0x1_0000_0000_0000_0000,
        decreases n - i,
    {
        proof {
            assert(v@.take(i + 1).drop_last() =~= v@.take(i as int));
            vstd::arithmetic::div_mod::lemma_add_mod_noop(
                total(v@.take(i as int)) as int,
                v@[i as int] as int,
                0x1_0000_0000_0000_0000,
            );
            vstd::arithmetic::div_mod::lemma_small_mod(
                v@[i as int] as nat,
                0x1_0000_0000_0000_0000,
            );
        }
        sum = sum.wrapping_add(v[i]);
        i += 1;
    }
    assert(v@.take(i as int) =~= v@);
    let avg = round_ratio(sum, n as u64);
    let p95_idx = n - 1 - (n - 1) / 20;
    assert(p95_idx == 19 * n / 20) by {
        let q = (n - 1) / 20;
        let r = (n - 1) % 20;
        assert(n == 20 * q + r + 1);
    }
    (avg, sorted[0], sorted[n - 1], sorted[p95_idx])
}

/// Running totals of a bucket, with the sampled rates.
pub struct BucketAccum {
    pub start_ts_ms: u64,
    pub end_ts_ms: u64,
    pub up_v4_bytes: u64,
    pub down_v4_bytes: u64,
    pub up_v6_bytes: u64,
    pub down_v6_bytes: u64,
    pub up_v4_bps: Vec<u64>,
    pub down_v4_bps: Vec<u64>,
    pub up_v6_bps: Vec<u64>,
    pub down_v6_bps: Vec<u64>,
}

/// A bucket with the given bounds, byte totals and sampled rates.
pub open spec fn bucket_with(
    start_ts_ms: u64,
    end_ts_ms: u64,
    bytes: (u64, u64, u64, u64),
    up_v4: (u64, u64, u64, u64),
    down_v4: (u64, u64, u64, u64),
    up_v6: (u64, u64, u64, u64),
    down_v6: (u64, u64, u64, u64),
) -> AggregatedBucket {
    AggregatedBucket {
        start_ts_ms,
        end_ts_ms,
        up_v4_bytes: bytes.0,
        down_v4_bytes: bytes.1,
        up_v6_bytes: bytes.2,
        down_v6_bytes: bytes.3,
        up_v4_bps_avg: up_v4.0,
        up_v4_bps_min: up_v4.1,
        up_v4_bps_max: up_v4.2,
        up_v4_bps_p95: up_v4.3,
        down_v4_bps_avg: down_v4.0,
        down_v4_bps_min: down_v4.1,
        down_v4_bps_max: down_v4.2,
        down_v4_bps_p95: down_v4.3,
        up_v6_bps_avg: up_v6.0,
        up_v6_bps_min: up_v6.1,
        up_v6_bps_max: up_v6.2,
        up_v6_bps_p95: up_v6.3,
        down_v6_bps_avg: down_v6.0,
        down_v6_bps_min: down_v6.1,
        down_v6_bps_max: down_v6.2,
        down_v6_bps_p95: down_v6.3,
    }
}

/// The bucket that an accumulator stands for.
pub fn bucket_accum_to_aggregated(a: BucketAccum) -> (b: AggregatedBucket)
    ensures
        b == bucket_with(
            a.start_ts_ms,
            a.end_ts_ms,
            (a.up_v4_bytes, a.down_v4_bytes, a.up_v6_bytes, a.down_v6_bytes),
            stats_of(a.up_v4_bps@),
            stats_of(a.down_v4_bps@),
            stats_of(a.up_v6_bps@),
            stats_of(a.down_v6_bps@),
        ),
{
    let up_v4 = bps_stats(a.up_v4_bps.as_slice());
    let down_v4 = bps_stats(a.down_v4_bps.as_slice());
    let up_v6 = bps_stats(a.up_v6_bps.as_slice());
    let down_v6 = bps_stats(a.down_v6_bps.as_slice());
    AggregatedBucket {
        start_ts_ms: a.start_ts_ms,
        end_ts_ms: a.end_ts_ms,
        up_v4_bytes: a.up_v4_bytes,
        down_v4_bytes: a.down_v4_bytes,
        up_v6_bytes: a.up_v6_bytes,
        down_v6_bytes: a.down_v6_bytes,
        up_v4_bps_avg: up_v4.0,
        up_v4_bps_min: up_v4.1,
        up_v4_bps_max: up_v4.2,
        up_v4_bps_p95: up_v4.3,
        down_v4_bps_avg: down_v4.0,
        down_v4_bps_min: down_v4.1,
        down_v4_bps_max: down_v4.2,
        down_v4_bps_p95: down_v4.3,
        up_v6_bps_avg: up_v6.0,
        up_v6_bps_min: up_v6.1,
        up_v6_bps_max: up_v6.2,
        up_v6_bps_p95: up_v6.3,
        down_v6_bps_avg: down_v6.0,
        down_v6_bps_min: down_v6.1,
        down_v6_bps_max: down_v6.2,
        down_v6_bps_p95: down_v6.3,
    }
}

/// What one moment of the current hour added to a series.
#[derive(Debug, Clone, Copy)]
pub struct CurrentHourPointState {
    pub ts_ms: u64,
    pub metrics: CounterQuad,
}

/// The `up_v4_bytes` of each sample.
pub open spec fn up_v4_bytes_of(s: Seq<CounterQuad>) -> Seq<u64> {
    s.map_values(|q: CounterQuad| q.up_v4_bytes)
}

/// The `up_v4_bps` of each sample.
pub open spec fn up_v4_bps_of(s: Seq<CounterQuad>) -> Seq<u64> {
    s.map_values(|q: CounterQuad| q.up_v4_bps)
}

/// The `down_v4_bytes` of each sample.
pub open spec fn down_v4_bytes_of(s: Seq<CounterQuad>) -> Seq<u64> {
    s.map_values(|q: CounterQuad| q.down_v4_bytes)
}

/// The `down_v4_bps` of each sample.
pub open spec fn down_v4_bps_of(s: Seq<CounterQuad>) -> Seq<u64> {
    s.map_values(|q: CounterQuad| q.down_v4_bps)
}

/// The `up_v6_bytes` of each sample.
pub open spec fn up_v6_bytes_of(s: Seq<CounterQuad>) -> Seq<u64> {
    s.map_values(|q: CounterQuad| q.up_v6_bytes)
}

/// The `up_v6_bps` of each sample.
pub open spec fn up_v6_bps_of(s: Seq<CounterQuad>) -> Seq<u64> {
    s.map_values(|q: CounterQuad| q.up_v6_bps)
}

/// The `down_v6_bytes` of each sample.
pub open spec fn down_v6_bytes_of(s: Seq<CounterQuad>) -> Seq<u64> {
    s.map_values(|q: CounterQuad| q.down_v6_bytes)
}

/// The `down_v6_bps` of each sample.
pub open spec fn down_v6_bps_of(s: Seq<CounterQuad>) -> Seq<u64> {
    s.map_values(|q: CounterQuad| q.down_v6_bps)
}

/// The bucket of a series of samples: the bytes add up, the rates are summarised.
pub open spec fn summary(start_ts_ms: u64, end_ts_ms: u64, s: Seq<CounterQuad>) -> AggregatedBucket {
    bucket_with(
        start_ts_ms,
        end_ts_ms,
        (
            sat_total(up_v4_bytes_of(s)),
            sat_total(down_v4_bytes_of(s)),
            sat_total(up_v6_bytes_of(s)),
            sat_total(down_v6_bytes_of(s)),
        ),
        stats_of(up_v4_bps_of(s)),
        stats_of(down_v4_bps_of(s)),
        stats_of(up_v6_bps_of(s)),
        stats_of(down_v6_bps_of(s)),
    )
}

pub proof fn lemma_sat_total_push(v: Seq<u64>, x: u64)
    ensures
        sat_total(v.push(x)) == sat_add(sat_total(v), x),
{
    assert(v.push(x).drop_last() =~= v);
}

impl BucketAccum {
    /// The accumulator has taken in the samples `s`, in this order.
    pub open spec fn holds(self, s: Seq<CounterQuad>) -> bool {
        &&& self.up_v4_bytes == sat_total(up_v4_bytes_of(s))
        &&& self.up_v4_bps@ == up_v4_bps_of(s)
        &&& self.down_v4_bytes == sat_total(down_v4_bytes_of(s))
        &&& self.down_v4_bps@ == down_v4_bps_of(s)
        &&& self.up_v6_bytes == sat_total(up_v6_bytes_of(s))
        &&& self.up_v6_bps@ == up_v6_bps_of(s)
        &&& self.down_v6_bytes == sat_total(down_v6_bytes_of(s))
        &&& self.down_v6_bps@ == down_v6_bps_of(s)
    }

    /// An accumulator without samples.
    pub fn new(start_ts_ms: u64, end_ts_ms: u64) -> (a: BucketAccum)
        ensures
            a.start_ts_ms == start_ts_ms,
            a.end_ts_ms == end_ts_ms,
            a.holds(Seq::empty()),
    {
        let a = BucketAccum {
            start_ts_ms,
            end_ts_ms,
            up_v4_bytes: 0,
            down_v4_bytes: 0,
            up_v6_bytes: 0,
            down_v6_bytes: 0,
            up_v4_bps: Vec::new(),
            down_v4_bps: Vec::new(),
            up_v6_bps: Vec::new(),
            down_v6_bps: Vec::new(),
        };
        proof {
            let none = Seq::<CounterQuad>::empty();
            assert(up_v4_bps_of(none) =~= Seq::empty());
            assert(down_v4_bps_of(none) =~= Seq::empty());
            assert(up_v6_bps_of(none) =~= Seq::empty());
            assert(down_v6_bps_of(none) =~= Seq::empty());
        }
        a
    }

    /// Takes in one more sample.
    fn add_sample(&mut self, m: &CounterQuad, Ghost(s): Ghost<Seq<CounterQuad>>)
        requires
            old(self).holds(s),
        ensures
            final(self).holds(s.push(*m)),
            final(self).start_ts_ms == old(self).start_ts_ms,
            final(self).end_ts_ms == old(self).end_ts_ms,
    {
        proof {
            assert(up_v4_bytes_of(s.push(*m)) =~= up_v4_bytes_of(s).push(m.up_v4_bytes));
            assert(up_v4_bps_of(s.push(*m)) =~= up_v4_bps_of(s).push(m.up_v4_bps));
            lemma_sat_total_push(up_v4_bytes_of(s), m.up_v4_bytes);
            assert(down_v4_bytes_of(s.push(*m)) =~= down_v4_bytes_of(s).push(m.down_v4_bytes));
            assert(down_v4_bps_of(s.push(*m)) =~= down_v4_bps_of(s).push(m.down_v4_bps));
            lemma_sat_total_push(down_v4_bytes_of(s), m.down_v4_bytes);
            assert(up_v6_bytes_of(s.push(*m)) =~= up_v6_bytes_of(s).push(m.up_v6_bytes));
            assert(up_v6_bps_of(s.push(*m)) =~= up_v6_bps_of(s).push(m.up_v6_bps));
            lemma_sat_total_push(up_v6_bytes_of(s), m.up_v6_bytes);
            assert(down_v6_bytes_of(s.push(*m)) =~= down_v6_bytes_of(s).push(m.down_v6_bytes));
            assert(down_v6_bps_of(s.push(*m)) =~= down_v6_bps_of(s).push(m.down_v6_bps));
            lemma_sat_total_push(down_v6_bytes_of(s), m.down_v6_bytes);
        }
        self.up_v4_bytes = self.up_v4_bytes.saturating_add(m.up_v4_bytes);
        self.up_v4_bps.push(m.up_v4_bps);
        self.down_v4_bytes = self.down_v4_bytes.saturating_add(m.down_v4_bytes);
        self.down_v4_bps.push(m.down_v4_bps);
        self.up_v6_bytes = self.up_v6_bytes.saturating_add(m.up_v6_bytes);
        self.up_v6_bps.push(m.up_v6_bps);
        self.down_v6_bytes = self.down_v6_bytes.saturating_add(m.down_v6_bytes);
        self.down_v6_bps.push(m.down_v6_bps);
    }
}

/// The samples of a series of points.
pub open spec fn metrics_of(points: Seq<CurrentHourPointState>) -> Seq<CounterQuad> {
    points.map_values(|p: CurrentHourPointState| p.metrics)
}

/// The bucket of the points of an hour that ends at `end_ms`.
pub fn points_to_bucket_until(
    start_ms: u64,
    end_ms: u64,
    points: &[CurrentHourPointState],
) -> (b: AggregatedBucket)
    ensures
        b == summary(start_ms, end_ms, metrics_of(points@)),
{
    let mut accum = BucketAccum::new(start_ms, end_ms);
    let n = points.len();
    let mut i: usize = 0;
    assert(metrics_of(points@.take(0)) =~= Seq::empty());
    while i < n
        invariant
            i <= n,
            n == points@.len(),
            accum.start_ts_ms == start_ms,
            accum.end_ts_ms == end_ms,
            accum.holds(metrics_of(points@.take(i as int))),
        decreases n - i,
    {
        let ghost s = metrics_of(points@.take(i as int));
        accum.add_sample(&points[i].metrics, Ghost(s));
        i += 1;
        assert(metrics_of(points@.take(i as int)) =~= s.push(points@[i - 1].metrics));
    }
    assert(points@.take(i as int) =~= points@);
    bucket_accum_to_aggregated(accum)
}

/// The sample that an hourly bucket gives to the bucket of its day: its bytes and its average
/// rates.
pub open spec fn hour_sample(b: AggregatedBucket) -> CounterQuad {
    CounterQuad {
        up_v4_bps: b.up_v4_bps_avg,
        down_v4_bps: b.down_v4_bps_avg,
        up_v6_bps: b.up_v6_bps_avg,
        down_v6_bps: b.down_v6_bps_avg,
        up_v4_bytes: b.up_v4_bytes,
        down_v4_bytes: b.down_v4_bytes,
        up_v6_bytes: b.up_v6_bytes,
        down_v6_bytes: b.down_v6_bytes,
    }
}

/// The samples that hourly buckets give to the bucket of their day.
pub open spec fn hour_samples(buckets: Seq<AggregatedBucket>) -> Seq<CounterQuad> {
    buckets.map_values(|b: AggregatedBucket| hour_sample(b))
}

/// The bucket of a day with the given bounds, made of the buckets of its hours.
pub open spec fn day_bucket(bounds: (u64, u64), buckets: Seq<AggregatedBucket>) -> AggregatedBucket {
    if buckets.len() == 0 {
        empty_bucket()
    } else {
        summary(bounds.0, bounds.1, hour_samples(buckets))
    }
}

/// Merges the buckets of the hours of a day with the given bounds.
pub fn merge_buckets_within(bounds: (u64, u64), buckets: &[AggregatedBucket]) -> (b:
    AggregatedBucket)
    ensures
        b == day_bucket(bounds, buckets@),
{
    let n = buckets.len();
    if n == 0 {
        return AggregatedBucket::default();
    }
    let mut accum = BucketAccum::new(bounds.0, bounds.1);
    let mut i: usize = 0;
    assert(hour_samples(buckets@.take(0)) =~= Seq::empty());
    while i < n
        invariant
            i <= n,
            n == buckets@.len(),
            accum.start_ts_ms == bounds.0,
            accum.end_ts_ms == bounds.1,
            accum.holds(hour_samples(buckets@.take(i as int))),
        decreases n - i,
    {
        let bucket = &buckets[i];
        let sample = CounterQuad {
            up_v4_bps: bucket.up_v4_bps_avg,
            down_v4_bps: bucket.down_v4_bps_avg,
            up_v6_bps: bucket.up_v6_bps_avg,
            down_v6_bps: bucket.down_v6_bps_avg,
            up_v4_bytes: bucket.up_v4_bytes,
            down_v4_bytes: bucket.down_v4_bytes,
            up_v6_bytes: bucket.up_v6_bytes,
            down_v6_bytes: bucket.down_v6_bytes,
        };
        let ghost s = hour_samples(buckets@.take(i as int));
        accum.add_sample(&sample, Ghost(s));
        i += 1;
        assert(hour_samples(buckets@.take(i as int)) =~= s.push(sample));
    }
    assert(buckets@.take(i as int) =~= buckets@);
    bucket_accum_to_aggregated(accum)
}

/// `q` with the bytes of a bucket added.
pub open spec fn bytes_added(q: CounterQuad, b: AggregatedBucket) -> CounterQuad {
    CounterQuad {
        up_v4_bytes: sat_add(q.up_v4_bytes, b.up_v4_bytes),
        down_v4_bytes: sat_add(q.down_v4_bytes, b.down_v4_bytes),
        up_v6_bytes: sat_add(q.up_v6_bytes, b.up_v6_bytes),
        down_v6_bytes: sat_add(q.down_v6_bytes, b.down_v6_bytes),
        ..q
    }
}

/// The bytes of all buckets together.
pub open spec fn bucket_bytes_total(buckets: Seq<AggregatedBucket>) -> CounterQuad
    decreases buckets.len(),
{
    if buckets.len() == 0 {
        zero_quad()
    } else {
        bytes_added(bucket_bytes_total(buckets.drop_last()), buckets.last())
    }
}

/// Adds the bytes of a bucket.
pub fn add_bucket_bytes(dst: &mut CounterQuad, bucket: &AggregatedBucket)
    ensures
        *final(dst) == bytes_added(*old(dst), *bucket),
{
    dst.up_v4_bytes = dst.up_v4_bytes.saturating_add(bucket.up_v4_bytes);
    dst.down_v4_bytes = dst.down_v4_bytes.saturating_add(bucket.down_v4_bytes);
    dst.up_v6_bytes = dst.up_v6_bytes.saturating_add(bucket.up_v6_bytes);
    dst.down_v6_bytes = dst.down_v6_bytes.saturating_add(bucket.down_v6_bytes);
}

/// The bytes of all buckets together.
pub fn cumulative_from_buckets(buckets: &[AggregatedBucket]) -> (q: CounterQuad)
    ensures
        q == bucket_bytes_total(buckets@),
{
    let mut q = CounterQuad::default();
    let n = buckets.len();
    let mut i: usize = 0;
    while i < n
        invariant
            i <= n,
            n == buckets@.len(),
            q == bucket_bytes_total(buckets@.take(i as int)),
        decreases n - i,
    {
        add_bucket_bytes(&mut q, &buckets[i]);
        i += 1;
        assert(buckets@.take(i as int).drop_last() =~= buckets@.take(i - 1));
    }
    assert(buckets@.take(i as int) =~= buckets@);
    q
}

/// Which IP versions a query asks for.
#[derive(Debug, Clone, Copy, PartialEq, Eq, Structural)]
pub enum HistoryTrafficType {
    All,
    Ipv4,
    Ipv6,
}

/// Which directions a query asks for.
#[derive(Debug, Clone, Copy, PartialEq, Eq, Structural)]
pub enum HistoryDirection {
    Both,
    Up,
    Down,
}

/// `q` without the counters of the IP version that is not asked for.
pub open spec fn quad_only(q: CounterQuad, traffic_type: HistoryTrafficType) -> CounterQuad {
    match traffic_type {
        HistoryTrafficType::All => q,
        HistoryTrafficType::Ipv4 => CounterQuad {
            up_v6_bps: 0,
            down_v6_bps: 0,
            up_v6_bytes: 0,
            down_v6_bytes: 0,
            ..q
        },
        HistoryTrafficType::Ipv6 => CounterQuad {
            up_v4_bps: 0,
            down_v4_bps: 0,
            up_v4_bytes: 0,
            down_v4_bytes: 0,
            ..q
        },
    }
}

/// Clears the counters of the IP version that is not asked for.
pub fn zero_out_quad_for_traffic_type(
    quad: CounterQuad,
    traffic_type: HistoryTrafficType,
) -> (r: CounterQuad)
    ensures
        r == quad_only(quad, traffic_type),
{
    let mut quad = quad;
    match traffic_type {
        HistoryTrafficType::All => {},
        HistoryTrafficType::Ipv4 => {
            quad.up_v6_bytes = 0;
            quad.down_v6_bytes = 0;
            quad.up_v6_bps = 0;
            quad.down_v6_bps = 0;
        },
        HistoryTrafficType::Ipv6 => {
            quad.up_v4_bytes = 0;
            quad.down_v4_bytes = 0;
            quad.up_v4_bps = 0;
            quad.down_v4_bps = 0;
        },
    }
    quad
}

/// `b` without the bytes and rates of the IP version that is not asked for.
pub open spec fn bucket_only(
    b: AggregatedBucket,
    traffic_type: HistoryTrafficType,
) -> AggregatedBucket {
    match traffic_type {
        HistoryTrafficType::All => b,
        HistoryTrafficType::Ipv4 => AggregatedBucket {
            up_v6_bytes: 0,
            up_v6_bps_avg: 0,
            up_v6_bps_min: 0,
            up_v6_bps_max: 0,
            up_v6_bps_p95: 0,
            down_v6_bytes: 0,
            down_v6_bps_avg: 0,
            down_v6_bps_min: 0,
            down_v6_bps_max: 0,
            down_v6_bps_p95: 0,
            ..b
        },
        HistoryTrafficType::Ipv6 => AggregatedBucket {
            up_v4_bytes: 0,
            up_v4_bps_avg: 0,
            up_v4_bps_min: 0,
            up_v4_bps_max: 0,
            up_v4_bps_p95: 0,
            down_v4_bytes: 0,
            down_v4_bps_avg: 0,
            down_v4_bps_min: 0,
            down_v4_bps_max: 0,
            down_v4_bps_p95: 0,
            ..b
        },
    }
}

impl AggregatedBucket {
    /// The bucket without the bytes and rates of the IP version that is not asked for.
    pub fn with_traffic_type(self, traffic_type: HistoryTrafficType) -> (r: AggregatedBucket)
        ensures
            r == bucket_only(self, traffic_type),
    {
        let mut b = self;
        match traffic_type {
            HistoryTrafficType::All => {},
            HistoryTrafficType::Ipv4 => {
                b.up_v6_bytes = 0;
                b.up_v6_bps_avg = 0;
                b.up_v6_bps_min = 0;
                b.up_v6_bps_max = 0;
                b.up_v6_bps_p95 = 0;
                b.down_v6_bytes = 0;
                b.down_v6_bps_avg = 0;
                b.down_v6_bps_min = 0;
                b.down_v6_bps_max = 0;
                b.down_v6_bps_p95 = 0;
            },
            HistoryTrafficType::Ipv6 => {
                b.up_v4_bytes = 0;
                b.up_v4_bps_avg = 0;
                b.up_v4_bps_min = 0;
                b.up_v4_bps_max = 0;
                b.up_v4_bps_p95 = 0;
                b.down_v4_bytes = 0;
                b.down_v4_bps_avg = 0;
                b.down_v4_bps_min = 0;
                b.down_v4_bps_max = 0;
                b.down_v4_bps_p95 = 0;
            },
        }
        b
    }
}

/// The minimum of sampled rates is at most their 95th percentile, and that at most their
/// maximum.
pub proof fn law_stats_ordered(v: Seq<u64>)
    ensures
        stats_of(v).1 <= stats_of(v).3 <= stats_of(v).2,
{
    let keyed = v.map_values(|x: u64| (x, ()));
    law_sort_orders(keyed);
    if v.len() > 0 {
        let s = stable_sort(keyed);
        let p = 19 * v.len() / 20;
        assert(p < v.len());
        assert(s[0].0 <= s[p as int].0 <= s[v.len() - 1].0);
    }
}

proof fn lemma_total_within(v: Seq<u64>, low: u64, high: u64)
    requires
        forall|i: int| 0 <= i < v.len() ==> low <= #[trigger] v[i] <= high,
    ensures
        low * v.len() <= total(v) <= high * v.len(),
    decreases v.len(),
{
    if v.len() > 0 {
        let rest = v.drop_last();
        assert forall|i: int| 0 <= i < rest.len() implies low <= #[trigger] rest[i] <= high by {
            assert(rest[i] == v[i]);
        }
        lemma_total_within(rest, low, high);
        assert(low <= v[v.len() - 1] <= high);
        assert(low * v.len() == low * rest.len() + low) by (nonlinear_arith)
            requires
                v.len() == rest.len() + 1,
        ;
        assert(high * v.len() == high * rest.len() + high) by (nonlinear_arith)
            requires
                v.len() == rest.len() + 1,
        ;
    }
}

/// The average of sampled rates lies between their minimum and their maximum, as long as 53 bits
/// hold the sum and the number of samples.
pub proof fn law_mean_between(v: Seq<u64>)
    requires
        total(v) < 0x20_0000_0000_0000,
        v.len() < 0x20_0000_0000_0000,
    ensures
        stats_of(v).1 <= stats_of(v).0 <= stats_of(v).2,
{
    let keyed = v.map_values(|x: u64| (x, ()));
    law_sort_orders(keyed);
    law_sort_permutes(keyed);
    if v.len() > 0 {
        let s = stable_sort(keyed);
        let low = s[0].0;
        let high = s[v.len() - 1].0;
        assert forall|i: int| 0 <= i < v.len() implies low <= #[trigger] v[i] <= high by {
            broadcast use vstd::seq_lib::group_to_multiset_ensures;

            assert(keyed[i] == (v[i], ()));
            assert(keyed.to_multiset().count(keyed[i]) > 0);
            let j = choose|j: int| 0 <= j < s.len() && s[j] == keyed[i];
            assert(s[0].0 <= s[j].0 <= s[v.len() - 1].0);
        }
        lemma_total_within(v, low, high);
        law_ratio_within(total(v), v.len(), low, high);
    }
}

proof fn lemma_total_concat(a: Seq<u64>, b: Seq<u64>)
    ensures
        total(a + b) == total(a) + total(b),
    decreases b.len(),
{
    if b.len() == 0 {
        assert(a + b =~= a);
    } else {
        lemma_total_concat(a, b.drop_last());
        assert((a + b).drop_last() =~= a + b.drop_last());
    }
}

/// The bytes of a bucket of two runs of samples together are those of the buckets of each run
/// added up, whatever their bounds: no byte is lost or counted twice where a run is split.
pub proof fn law_summary_splits(
    before: CounterQuad,
    a: Seq<CounterQuad>,
    b: Seq<CounterQuad>,
    whole: (u64, u64),
    first: (u64, u64),
    second: (u64, u64),
)
    ensures
        bytes_added(before, summary(whole.0, whole.1, a + b)) == bytes_added(
            bytes_added(before, summary(first.0, first.1, a)),
            summary(second.0, second.1, b),
        ),
{
    assert(up_v4_bytes_of(a + b) =~= up_v4_bytes_of(a) + up_v4_bytes_of(b));
    lemma_total_concat(up_v4_bytes_of(a), up_v4_bytes_of(b));
    assert(down_v4_bytes_of(a + b) =~= down_v4_bytes_of(a) + down_v4_bytes_of(b));
    lemma_total_concat(down_v4_bytes_of(a), down_v4_bytes_of(b));
    assert(up_v6_bytes_of(a + b) =~= up_v6_bytes_of(a) + up_v6_bytes_of(b));
    lemma_total_concat(up_v6_bytes_of(a), up_v6_bytes_of(b));
    assert(down_v6_bytes_of(a + b) =~= down_v6_bytes_of(a) + down_v6_bytes_of(b));
    lemma_total_concat(down_v6_bytes_of(a), down_v6_bytes_of(b));
}

/// Leaving out one IP version from the buckets leaves it out of their total, and nothing else.
pub proof fn law_total_of_one_version(
    buckets: Seq<AggregatedBucket>,
    traffic_type: HistoryTrafficType,
)
    ensures
        bucket_bytes_total(
            buckets.map_values(|b: AggregatedBucket| bucket_only(b, traffic_type)),
        ) == quad_only(bucket_bytes_total(buckets), traffic_type),
    decreases buckets.len(),
{
    let kept = buckets.map_values(|b: AggregatedBucket| bucket_only(b, traffic_type));
    lemma_bytes_only(buckets);
    if buckets.len() > 0 {
        let init = buckets.drop_last();
        law_total_of_one_version(init, traffic_type);
        assert(kept.drop_last() =~= init.map_values(
            |b: AggregatedBucket| bucket_only(b, traffic_type),
        ));
    }
}

proof fn lemma_bytes_only(buckets: Seq<AggregatedBucket>)
    ensures
        bucket_bytes_total(buckets).up_v4_bps == 0,
        bucket_bytes_total(buckets).down_v4_bps == 0,
        bucket_bytes_total(buckets).up_v6_bps == 0,
        bucket_bytes_total(buckets).down_v6_bps == 0,
    decreases buckets.len(),
{
    if buckets.len() > 0 {
        lemma_bytes_only(buckets.drop_last());
    }
}

/// What some samples have of something, added up.
pub open spec fn sum_of(s: Seq<CounterQuad>, what: spec_fn(CounterQuad) -> u64) -> int
    decreases s.len(),
{
    if s.len() == 0 {
        0
    } else {
        sum_of(s.drop_last(), what) + what(s.last())
    }
}

/// How many of some samples have a rate of at most `x`.
pub open spec fn how_many_upto(
    s: Seq<CounterQuad>,
    rate: spec_fn(CounterQuad) -> u64,
    x: int,
) -> int
    decreases s.len(),
{
    if s.len() == 0 {
        0
    } else {
        how_many_upto(s.drop_last(), rate, x) + if rate(s.last()) <= x {
            1int
        } else {
            0
        }
    }
}

/// Average, minimum, maximum and 95th percentile stand for the rates of some samples. The
/// smallest and the largest rate are the minimum and the maximum, the percentile is a rate that
/// more than 19 of 20 samples do not exceed and that no smaller rate could be, and the average is
/// the sum over the number, rounded, as far as binary64 holds both exactly.
pub open spec fn stands_for(
    s: Seq<CounterQuad>,
    rate: spec_fn(CounterQuad) -> u64,
    avg: u64,
    min: u64,
    max: u64,
    p95: u64,
) -> bool {
    if s.len() == 0 {
        avg == 0 && min == 0 && max == 0 && p95 == 0
    } else {
        &&& forall|i: int| 0 <= i < s.len() ==> min <= rate(#[trigger] s[i]) <= max
        &&& exists|i: int| 0 <= i < s.len() && rate(#[trigger] s[i]) == min
        &&& exists|i: int| 0 <= i < s.len() && rate(#[trigger] s[i]) == max
        &&& exists|i: int| 0 <= i < s.len() && rate(#[trigger] s[i]) == p95
        &&& min <= p95 <= max
        &&& how_many_upto(s, rate, p95 as int) > 19 * s.len() / 20
        &&& how_many_upto(s, rate, p95 - 1) <= 19 * s.len() / 20
        &&& sum_of(s, rate) < 0x20_0000_0000_0000 && s.len() < 0x20_0000_0000_0000 ==> min <= avg
            <= max
        &&& sum_of(s, rate) < 0x10_0000_0000_0000 && s.len() < 0x20_0000_0000_0000 ==> avg == (2
            * sum_of(s, rate) + s.len()) / (2 * s.len() as int)
    }
}

/// `bytes` are those of some samples together, or the most that 64 bits hold.
pub open spec fn adds_up(
    s: Seq<CounterQuad>,
    what: spec_fn(CounterQuad) -> u64,
    bytes: u64,
) -> bool {
    bytes == if sum_of(s, what) > u64::MAX {
        u64::MAX as int
    } else {
        sum_of(s, what)
    }
}

proof fn lemma_sum_of(s: Seq<CounterQuad>, what: spec_fn(CounterQuad) -> u64)
    ensures
        total(s.map_values(what)) == sum_of(s, what),
    decreases s.len(),
{
    if s.len() > 0 {
        lemma_sum_of(s.drop_last(), what);
        assert(s.map_values(what).drop_last() =~= s.drop_last().map_values(what));
    }
}

/// How many keys are at most `x`.
spec fn keys_upto(s: Seq<(u64, ())>, x: int) -> int
    decreases s.len(),
{
    if s.len() == 0 {
        0
    } else {
        keys_upto(s.drop_last(), x) + if s.last().0 <= x {
            1int
        } else {
            0
        }
    }
}

proof fn lemma_keys_of(s: Seq<CounterQuad>, rate: spec_fn(CounterQuad) -> u64, x: int)
    ensures
        keys_upto(s.map_values(|q: CounterQuad| (rate(q), ())), x) == how_many_upto(s, rate, x),
    decreases s.len(),
{
    let keyed = s.map_values(|q: CounterQuad| (rate(q), ()));
    if s.len() > 0 {
        lemma_keys_of(s.drop_last(), rate, x);
        assert(keyed.drop_last() =~= s.drop_last().map_values(|q: CounterQuad| (rate(q), ())));
    }
}

proof fn lemma_keys_insert(s: Seq<(u64, ())>, e: (u64, ()), x: int)
    ensures
        keys_upto(insert_keyed(s, e), x) == keys_upto(s, x) + if e.0 <= x {
            1int
        } else {
            0
        },
    decreases s.len(),
{
    if s.len() == 0 || s.last().0 <= e.0 {
        assert(s.push(e).drop_last() =~= s);
    } else {
        lemma_keys_insert(s.drop_last(), e, x);
        let r = insert_keyed(s.drop_last(), e).push(s.last());
        assert(r.drop_last() =~= insert_keyed(s.drop_last(), e));
    }
}

proof fn lemma_keys_sorted(s: Seq<(u64, ())>, x: int)
    ensures
        keys_upto(stable_sort(s), x) == keys_upto(s, x),
    decreases s.len(),
{
    if s.len() > 0 {
        lemma_keys_sorted(s.drop_last(), x);
        lemma_keys_insert(stable_sort(s.drop_last()), s.last(), x);
    }
}

proof fn lemma_keys_below(s: Seq<(u64, ())>, x: int, at: int)
    requires
        0 <= at <= s.len(),
        forall|i: int| 0 <= i < at ==> (#[trigger] s[i]).0 <= x,
    ensures
        at <= keys_upto(s, x) <= s.len(),
    decreases s.len(),
{
    if s.len() > 0 {
        let init = s.drop_last();
        let k = if at < s.len() {
            at
        } else {
            at - 1
        };
        assert forall|i: int| 0 <= i < k implies (#[trigger] init[i]).0 <= x by {
            assert(s[i].0 <= x);
        }
        lemma_keys_below(init, x, k);
        if at == s.len() {
            assert(s[at - 1].0 <= x);
        }
    }
}

proof fn lemma_keys_above(s: Seq<(u64, ())>, x: int, at: int)
    requires
        0 <= at <= s.len(),
        forall|i: int| at <= i < s.len() ==> (#[trigger] s[i]).0 > x,
    ensures
        keys_upto(s, x) <= at,
    decreases s.len(),
{
    lemma_keys_below(s, x, 0);
    if s.len() > at {
        let init = s.drop_last();
        assert forall|i: int| at <= i < init.len() implies (#[trigger] init[i]).0 > x by {
            assert(s[i].0 > x);
        }
        lemma_keys_above(init, x, at);
        assert(s[s.len() - 1].0 > x);
    }
}

proof fn lemma_stats_stand_for(s: Seq<CounterQuad>, rate: spec_fn(CounterQuad) -> u64)
    ensures
        ({
            let (avg, min, max, p95) = stats_of(s.map_values(rate));
            stands_for(s, rate, avg, min, max, p95)
        }),
{
    broadcast use vstd::seq_lib::group_to_multiset_ensures;

    let v = s.map_values(rate);
    let keyed = v.map_values(|x: u64| (x, ()));
    let sorted = stable_sort(keyed);
    let (avg, min, max, p95) = stats_of(v);
    law_sort_orders(keyed);
    law_sort_permutes(keyed);
    if s.len() > 0 {
        let n = s.len() as int;
        let at = 19 * n / 20;
        assert(keyed =~= s.map_values(|q: CounterQuad| (rate(q), ())));
        assert(min == sorted[0].0 && max == sorted[n - 1].0 && p95 == sorted[at].0);
        assert forall|i: int| 0 <= i < n implies min <= rate(#[trigger] s[i]) <= max by {
            assert(keyed[i] == (rate(s[i]), ()));
            assert(keyed.to_multiset().count(keyed[i]) > 0);
            let j = choose|j: int| 0 <= j < sorted.len() && sorted[j] == keyed[i];
            assert(sorted[0].0 <= sorted[j].0 <= sorted[n - 1].0);
        }
        assert forall|k: int| 0 <= k < n implies exists|i: int|
            0 <= i < s.len() && rate(#[trigger] s[i]) == (#[trigger] sorted[k]).0 by {
            assert(sorted.contains(sorted[k]));
            assert(keyed.to_multiset().count(sorted[k]) > 0);
            let i = keyed.index_of(sorted[k]);
            assert(keyed[i] == sorted[k]);
            assert(rate(s[i]) == sorted[k].0);
        }
        assert(sorted[0].0 == min && sorted[n - 1].0 == max && sorted[at].0 == p95);
        assert(sorted[0].0 <= sorted[at].0 <= sorted[n - 1].0);
        lemma_keys_of(s, rate, p95 as int);
        lemma_keys_sorted(keyed, p95 as int);
        assert forall|i: int| 0 <= i < at + 1 implies (#[trigger] sorted[i]).0 <= p95 by {
            assert(sorted[i].0 <= sorted[at].0);
        }
        lemma_keys_below(sorted, p95 as int, at + 1);
        lemma_keys_of(s, rate, p95 - 1);
        lemma_keys_sorted(keyed, p95 - 1);
        assert forall|i: int| at <= i < sorted.len() implies (#[trigger] sorted[i]).0 > p95 - 1 by {
            assert(sorted[at].0 <= sorted[i].0);
        }
        lemma_keys_above(sorted, p95 - 1, at);
        lemma_sum_of(s, rate);
        if total(v) < 0x20_0000_0000_0000 && s.len() < 0x20_0000_0000_0000 {
            law_mean_between(v);
        }
        if total(v) < 0x10_0000_0000_0000 && s.len() < 0x20_0000_0000_0000 {
            law_ratio_rounds_half_up(total(v), s.len());
        }
    }
}

/// A bucket made of samples has the bounds it is given, the bytes of all samples of each kind,
/// and for each kind the average, minimum, maximum and 95th percentile of the sampled rates of
/// that kind.
pub proof fn law_bucket_of_samples(start_ts_ms: u64, end_ts_ms: u64, s: Seq<CounterQuad>)
    ensures
        ({
            let b = summary(start_ts_ms, end_ts_ms, s);
            &&& (b.start_ts_ms, b.end_ts_ms) == (start_ts_ms, end_ts_ms)
            &&& adds_up(s, |q: CounterQuad| q.up_v4_bytes, b.up_v4_bytes)
            &&& adds_up(s, |q: CounterQuad| q.down_v4_bytes, b.down_v4_bytes)
            &&& adds_up(s, |q: CounterQuad| q.up_v6_bytes, b.up_v6_bytes)
            &&& adds_up(s, |q: CounterQuad| q.down_v6_bytes, b.down_v6_bytes)
            &&& stands_for(
                s,
                |q: CounterQuad| q.up_v4_bps,
                b.up_v4_bps_avg,
                b.up_v4_bps_min,
                b.up_v4_bps_max,
                b.up_v4_bps_p95,
            )
            &&& stands_for(
                s,
                |q: CounterQuad| q.down_v4_bps,
                b.down_v4_bps_avg,
                b.down_v4_bps_min,
                b.down_v4_bps_max,
                b.down_v4_bps_p95,
            )
            &&& stands_for(
                s,
                |q: CounterQuad| q.up_v6_bps,
                b.up_v6_bps_avg,
                b.up_v6_bps_min,
                b.up_v6_bps_max,
                b.up_v6_bps_p95,
            )
            &&& stands_for(
                s,
                |q: CounterQuad| q.down_v6_bps,
                b.down_v6_bps_avg,
                b.down_v6_bps_min,
                b.down_v6_bps_max,
                b.down_v6_bps_p95,
            )
        }),
{
    let up_v4 = |q: CounterQuad| q.up_v4_bps;
    let down_v4 = |q: CounterQuad| q.down_v4_bps;
    let up_v6 = |q: CounterQuad| q.up_v6_bps;
    let down_v6 = |q: CounterQuad| q.down_v6_bps;
    assert(up_v4_bps_of(s) =~= s.map_values(up_v4));
    assert(down_v4_bps_of(s) =~= s.map_values(down_v4));
    assert(up_v6_bps_of(s) =~= s.map_values(up_v6));
    assert(down_v6_bps_of(s) =~= s.map_values(down_v6));
    lemma_stats_stand_for(s, up_v4);
    lemma_stats_stand_for(s, down_v4);
    lemma_stats_stand_for(s, up_v6);
    lemma_stats_stand_for(s, down_v6);
    let up_v4_bytes = |q: CounterQuad| q.up_v4_bytes;
    let down_v4_bytes = |q: CounterQuad| q.down_v4_bytes;
    let up_v6_bytes = |q: CounterQuad| q.up_v6_bytes;
    let down_v6_bytes = |q: CounterQuad| q.down_v6_bytes;
    assert(up_v4_bytes_of(s) =~= s.map_values(up_v4_bytes));
    assert(down_v4_bytes_of(s) =~= s.map_values(down_v4_bytes));
    assert(up_v6_bytes_of(s) =~= s.map_values(up_v6_bytes));
    assert(down_v6_bytes_of(s) =~= s.map_values(down_v6_bytes));
    lemma_sum_of(s, up_v4_bytes);
    lemma_sum_of(s, down_v4_bytes);
    lemma_sum_of(s, up_v6_bytes);
    lemma_sum_of(s, down_v6_bytes);
}

/// A bucket of a day has the bounds of the day, the bytes of its hours of each kind, and of the
/// average rates of its hours of each kind the smallest and the largest.
pub proof fn law_bucket_of_hours(bounds: (u64, u64), hours: Seq<AggregatedBucket>)
    requires
        hours.len() > 0,
    ensures
        ({
            let d = day_bucket(bounds, hours);
            &&& (d.start_ts_ms, d.end_ts_ms) == bounds
            &&& forall|i: int|
                0 <= i < hours.len() ==> {
                    &&& (#[trigger] hours[i]).up_v4_bytes <= d.up_v4_bytes
                    &&& hours[i].down_v4_bytes <= d.down_v4_bytes
                    &&& hours[i].up_v6_bytes <= d.up_v6_bytes
                    &&& hours[i].down_v6_bytes <= d.down_v6_bytes
                    &&& d.up_v4_bps_min <= hours[i].up_v4_bps_avg <= d.up_v4_bps_max
                    &&& d.down_v4_bps_min <= hours[i].down_v4_bps_avg <= d.down_v4_bps_max
                    &&& d.up_v6_bps_min <= hours[i].up_v6_bps_avg <= d.up_v6_bps_max
                    &&& d.down_v6_bps_min <= hours[i].down_v6_bps_avg <= d.down_v6_bps_max
                }
            &&& hours.len() == 1 ==> {
                &&& d.up_v4_bytes == hours[0].up_v4_bytes
                &&& d.down_v4_bytes == hours[0].down_v4_bytes
                &&& d.up_v6_bytes == hours[0].up_v6_bytes
                &&& d.down_v6_bytes == hours[0].down_v6_bytes
                &&& d.up_v4_bps_max == hours[0].up_v4_bps_avg
                &&& d.down_v4_bps_max == hours[0].down_v4_bps_avg
                &&& d.up_v6_bps_max == hours[0].up_v6_bps_avg
                &&& d.down_v6_bps_max == hours[0].down_v6_bps_avg
            }
        }),
{
    let s = hour_samples(hours);
    law_bucket_of_samples(bounds.0, bounds.1, s);
    assert forall|i: int| 0 <= i < hours.len() implies #[trigger] s[i] == hour_sample(hours[i]) by {}
    assert forall|i: int| 0 <= i < hours.len() implies {
        let d = day_bucket(bounds, hours);
        &&& (#[trigger] hours[i]).up_v4_bytes <= d.up_v4_bytes
        &&& hours[i].down_v4_bytes <= d.down_v4_bytes
        &&& hours[i].up_v6_bytes <= d.up_v6_bytes
        &&& hours[i].down_v6_bytes <= d.down_v6_bytes
        &&& d.up_v4_bps_min <= hours[i].up_v4_bps_avg <= d.up_v4_bps_max
        &&& d.down_v4_bps_min <= hours[i].down_v4_bps_avg <= d.down_v4_bps_max
        &&& d.up_v6_bps_min <= hours[i].up_v6_bps_avg <= d.up_v6_bps_max
        &&& d.down_v6_bps_min <= hours[i].down_v6_bps_avg <= d.down_v6_bps_max
    } by {
        assert(s[i] == hour_sample(hours[i]));
        lemma_part_of_sum(s, |q: CounterQuad| q.up_v4_bytes, i);
        lemma_part_of_sum(s, |q: CounterQuad| q.down_v4_bytes, i);
        lemma_part_of_sum(s, |q: CounterQuad| q.up_v6_bytes, i);
        lemma_part_of_sum(s, |q: CounterQuad| q.down_v6_bytes, i);
    }
    if hours.len() == 1 {
        assert(s[0] == hour_sample(hours[0]));
        assert(s.drop_last() =~= Seq::empty());
        reveal_with_fuel(sum_of, 2);
    }
}

proof fn lemma_part_of_sum(s: Seq<CounterQuad>, what: spec_fn(CounterQuad) -> u64, i: int)
    requires
        0 <= i < s.len(),
    ensures
        what(s[i]) <= sum_of(s, what),
    decreases s.len(),
{
    lemma_sum_not_negative(s.drop_last(), what);
    if i < s.len() - 1 {
        lemma_part_of_sum(s.drop_last(), what, i);
    }
}

proof fn lemma_sum_not_negative(s: Seq<CounterQuad>, what: spec_fn(CounterQuad) -> u64)
    ensures
        0 <= sum_of(s, what),
    decreases s.len(),
{
    if s.len() > 0 {
        lemma_sum_not_negative(s.drop_last(), what);
    }
}


/// Bytes, and average, lowest, highest and 95th-percentile rate of a bucket for an IP version and
/// direction.
pub open spec fn bucket_lane(
    b: AggregatedBucket,
    ip_version: u8,
    direction: u8,
) -> (int, int, int, int, int) {
    match (ip_version, direction) {
        (4, 1) => (
            b.up_v4_bytes as int,
            b.up_v4_bps_avg as int,
            b.up_v4_bps_min as int,
            b.up_v4_bps_max as int,
            b.up_v4_bps_p95 as int,
        ),
        (4, 2) => (
            b.down_v4_bytes as int,
            b.down_v4_bps_avg as int,
            b.down_v4_bps_min as int,
            b.down_v4_bps_max as int,
            b.down_v4_bps_p95 as int,
        ),
        (6, 1) => (
            b.up_v6_bytes as int,
            b.up_v6_bps_avg as int,
            b.up_v6_bps_min as int,
            b.up_v6_bps_max as int,
            b.up_v6_bps_p95 as int,
        ),
        (6, 2) => (
            b.down_v6_bytes as int,
            b.down_v6_bps_avg as int,
            b.down_v6_bps_min as int,
            b.down_v6_bps_max as int,
            b.down_v6_bps_p95 as int,
        ),
        _ => (0, 0, 0, 0, 0),
    }
}

/// A query asks for this IP version.
pub open spec fn asks_for(traffic_type: HistoryTrafficType, ip_version: u8) -> bool {
    match traffic_type {
        HistoryTrafficType::All => true,
        HistoryTrafficType::Ipv4 => ip_version == 4,
        HistoryTrafficType::Ipv6 => ip_version == 6,
    }
}

/// What a query asks for is left as it is, in both directions, and the rest is zero; a bucket
/// keeps its time.
pub proof fn law_only_what_is_asked_for(
    q: CounterQuad,
    b: AggregatedBucket,
    traffic_type: HistoryTrafficType,
    ip_version: u8,
    direction: u8,
)
    requires
        is_lane(ip_version, direction),
    ensures
        ({
            let kept = quad_only(q, traffic_type);
            let bucket = bucket_only(b, traffic_type);
            &&& asks_for(traffic_type, ip_version) ==> bytes_in(kept, ip_version, direction)
                == bytes_in(q, ip_version, direction) && rate_in(kept, ip_version, direction)
                == rate_in(q, ip_version, direction) && bucket_lane(bucket, ip_version, direction)
                == bucket_lane(b, ip_version, direction)
            &&& !asks_for(traffic_type, ip_version) ==> bytes_in(kept, ip_version, direction) == 0
                && rate_in(kept, ip_version, direction) == 0 && bucket_lane(
                bucket,
                ip_version,
                direction,
            ) == (0int, 0int, 0int, 0int, 0int)
            &&& bucket.start_ts_ms == b.start_ts_ms
            &&& bucket.end_ts_ms == b.end_ts_ms
        }),
{
}

/// The bytes of an IP version and direction in all buckets together.
pub open spec fn lane_sum(buckets: Seq<AggregatedBucket>, ip_version: u8, direction: u8) -> int
    decreases buckets.len(),
{
    if buckets.len() == 0 {
        0
    } else {
        lane_sum(buckets.drop_last(), ip_version, direction) + bucket_lane(
            buckets.last(),
            ip_version,
            direction,
        ).0
    }
}

/// The total of buckets holds the bytes of each IP version and direction, and no rates.
pub proof fn law_bytes_of_buckets(
    buckets: Seq<AggregatedBucket>,
    ip_version: u8,
    direction: u8,
)
    requires
        is_lane(ip_version, direction),
    ensures
        bytes_in(bucket_bytes_total(buckets), ip_version, direction) == capped(
            lane_sum(buckets, ip_version, direction),
        ),
        rate_in(bucket_bytes_total(buckets), ip_version, direction) == 0,
    decreases buckets.len(),
{
    if buckets.len() > 0 {
        law_bytes_of_buckets(buckets.drop_last(), ip_version, direction);
        lemma_lane_sum(buckets.drop_last(), ip_version, direction);
    } else {
        law_lanes_add(zero_quad(), zero_quad(), ip_version, direction);
    }
}

proof fn lemma_lane_sum(buckets: Seq<AggregatedBucket>, ip_version: u8, direction: u8)
    ensures
        lane_sum(buckets, ip_version, direction) >= 0,
    decreases buckets.len(),
{
    if buckets.len() > 0 {
        lemma_lane_sum(buckets.drop_last(), ip_version, direction);
    }
}


} // verus!
