//! Selecting, ordering and merging buckets.
use vstd::prelude::*;

use crate::bucket::{
    bucket_bytes_total, bytes_added, day_bucket, down_v4_bytes_of, down_v6_bytes_of, hour_sample,
    hour_samples, lemma_sat_total_push, merge_buckets_within, metrics_of, points_to_bucket_until,
    summary, up_v4_bytes_of, up_v6_bytes_of, AggregatedBucket, CurrentHourPointState,
};
use crate::calendar::LocalCalendar;
use crate::counters::{zero_quad, CounterQuad};
use crate::sort::{insert_keyed, law_sort_orders, law_sort_permutes, sort_keyed, stable_sort};

verus! {

/// The length of the buckets that a query asks for.
#[derive(Debug, Clone, Copy, PartialEq, Eq, Structural)]
pub enum AggregateBucket {
    Hourly,
    Daily,
}

/// The bucket has an instant in common with the range.
pub open spec fn overlaps(b: AggregatedBucket, start_ms: u64, end_ms: u64) -> bool {
    b.start_ts_ms <= end_ms && b.end_ts_ms >= start_ms
}

/// The buckets that have an instant in common with the range, in order.
pub open spec fn overlapping(
    s: Seq<AggregatedBucket>,
    start_ms: u64,
    end_ms: u64,
) -> Seq<AggregatedBucket>
    decreases s.len(),
{
    if s.len() == 0 {
        s
    } else {
        let init = overlapping(s.drop_last(), start_ms, end_ms);
        if overlaps(s.last(), start_ms, end_ms) {
            init.push(s.last())
        } else {
            init
        }
    }
}

/// Each bucket with its start as its key.
pub open spec fn keyed_by_start(s: Seq<AggregatedBucket>) -> Seq<(u64, AggregatedBucket)> {
    s.map_values(|b: AggregatedBucket| (b.start_ts_ms, b))
}

/// The buckets in the order of their starts; those with the same start keep their order.
pub open spec fn by_start(s: Seq<AggregatedBucket>) -> Seq<AggregatedBucket> {
    stable_sort(keyed_by_start(s)).map_values(|p: (u64, AggregatedBucket)| p.1)
}

/// Sorts buckets by their starts.
pub fn sort_by_start(buckets: Vec<AggregatedBucket>) -> (r: Vec<AggregatedBucket>)
    ensures
        r@ == by_start(buckets@),
{
    let mut keyed: Vec<(u64, AggregatedBucket)> = Vec::new();
    let n = buckets.len();
    let mut i: usize = 0;
    while i < n
        invariant
            i <= n,
            n == buckets@.len(),
            keyed@ == keyed_by_start(buckets@.take(i as int)),
        decreases n - i,
    {
        keyed.push((buckets[i].start_ts_ms, buckets[i]));
        i += 1;
        assert(keyed@ =~= keyed_by_start(buckets@.take(i as int)));
    }
    assert(buckets@.take(i as int) =~= buckets@);
    let sorted = sort_keyed(keyed);
    let mut r: Vec<AggregatedBucket> = Vec::new();
    let m = sorted.len();
    let mut j: usize = 0;
    while j < m
        invariant
            j <= m,
            m == sorted@.len(),
            r@ == sorted@.take(j as int).map_values(|p: (u64, AggregatedBucket)| p.1),
        decreases m - j,
    {
        r.push(sorted[j].1);
        j += 1;
        assert(r@ =~= sorted@.take(j as int).map_values(|p: (u64, AggregatedBucket)| p.1));
    }
    assert(sorted@.take(j as int) =~= sorted@);
    r
}

/// Keeps the buckets that have an instant in common with the range.
pub fn keep_overlapping(
    buckets: &Vec<AggregatedBucket>,
    start_ms: u64,
    end_ms: u64,
) -> (r: Vec<AggregatedBucket>)
    ensures
        r@ == overlapping(buckets@, start_ms, end_ms),
{
    let mut r: Vec<AggregatedBucket> = Vec::new();
    let n = buckets.len();
    let mut i: usize = 0;
    while i < n
        invariant
            i <= n,
            n == buckets@.len(),
            r@ == overlapping(buckets@.take(i as int), start_ms, end_ms),
        decreases n - i,
    {
        let b = buckets[i];
        if b.start_ts_ms <= end_ms && b.end_ts_ms >= start_ms {
            r.push(b);
        }
        i += 1;
        assert(buckets@.take(i as int).drop_last() =~= buckets@.take(i - 1));
    }
    assert(buckets@.take(i as int) =~= buckets@);
    r
}

/// The bucket of the points of an hour.
pub fn points_to_bucket(
    start_ms: u64,
    points: &[CurrentHourPointState],
    cal: &LocalCalendar,
) -> (b: AggregatedBucket)
    ensures
        b == summary(start_ms, cal.hour_of(start_ms).1, metrics_of(points@)),
{
    let (_, end_ms) = cal.hour(start_ms);
    points_to_bucket_until(start_ms, end_ms, points)
}

/// The bucket of the day on which the first of some buckets starts, made of all of them.
pub open spec fn same_day_bucket(
    buckets: Seq<AggregatedBucket>,
    cal: LocalCalendar,
) -> AggregatedBucket {
    day_bucket(cal.day_of(buckets[0].start_ts_ms), buckets)
}

/// Merges buckets into one of the day on which the first of them starts.
pub fn merge_buckets_same_day(
    buckets: &[AggregatedBucket],
    cal: &LocalCalendar,
) -> (b: AggregatedBucket)
    ensures
        b == same_day_bucket(buckets@, *cal),
{
    if buckets.len() == 0 {
        return AggregatedBucket::default();
    }
    merge_buckets_within(cal.day(buckets[0].start_ts_ms), buckets)
}

/// The buckets cut into runs of neighbours that start on the same day.
pub open spec fn day_runs(s: Seq<AggregatedBucket>, cal: LocalCalendar) -> Seq<
    Seq<AggregatedBucket>,
>
    decreases s.len(),
{
    if s.len() == 0 {
        Seq::empty()
    } else {
        let runs = day_runs(s.drop_last(), cal);
        let b = s.last();
        if runs.len() > 0 && cal.day_of(runs.last()[0].start_ts_ms).0 == cal.day_of(
            b.start_ts_ms,
        ).0 {
            runs.drop_last().push(runs.last().push(b))
        } else {
            runs.push(seq![b])
        }
    }
}

/// Each run merged into the bucket of its day.
pub open spec fn merged_runs(
    runs: Seq<Seq<AggregatedBucket>>,
    cal: LocalCalendar,
) -> Seq<AggregatedBucket> {
    runs.map_values(|run: Seq<AggregatedBucket>| same_day_bucket(run, cal))
}

/// Hourly buckets merged into daily ones: neighbours that start on the same day become one.
pub open spec fn daily(s: Seq<AggregatedBucket>, cal: LocalCalendar) -> Seq<AggregatedBucket> {
    merged_runs(day_runs(s, cal), cal)
}

/// Merges hourly buckets into daily ones.
pub fn merge_buckets_to_daily(
    buckets: &Vec<AggregatedBucket>,
    cal: &LocalCalendar,
) -> (r: Vec<AggregatedBucket>)
    ensures
        r@ == daily(buckets@, *cal),
{
    let n = buckets.len();
    let mut result: Vec<AggregatedBucket> = Vec::new();
    if n == 0 {
        assert(daily(buckets@, *cal) =~= Seq::empty());
        return result;
    }
    let mut run: Vec<AggregatedBucket> = Vec::new();
    run.push(buckets[0]);
    let mut run_day = cal.day(buckets[0].start_ts_ms).0;
    let mut i: usize = 1;
    proof {
        let one = buckets@.take(1);
        reveal_with_fuel(day_runs, 2);
        assert(one.drop_last() =~= Seq::empty());
        assert(day_runs(one, *cal) =~= seq![seq![buckets@[0]]]);
        assert(run@ =~= seq![buckets@[0]]);
        assert(day_runs(one, *cal).drop_last() =~= Seq::empty());
        assert(merged_runs(Seq::empty(), *cal) =~= Seq::empty());
    }
    while i < n
        invariant
            1 <= i <= n,
            n == buckets@.len(),
            day_runs(buckets@.take(i as int), *cal).len() > 0,
            run@ == day_runs(buckets@.take(i as int), *cal).last(),
            run@.len() > 0,
            run_day == cal.day_of(run@[0].start_ts_ms).0,
            result@ == merged_runs(day_runs(buckets@.take(i as int), *cal).drop_last(), *cal),
        decreases n - i,
    {
        let b = buckets[i];
        let day_start = cal.day(b.start_ts_ms).0;
        let ghost runs = day_runs(buckets@.take(i as int), *cal);
        assert(buckets@.take(i + 1).drop_last() =~= buckets@.take(i as int));
        let ghost next = day_runs(buckets@.take(i + 1), *cal);
        if day_start == run_day {
            run.push(b);
            assert(next.drop_last() =~= runs.drop_last());
        } else {
            result.push(merge_buckets_same_day(run.as_slice(), cal));
            assert(next.drop_last() =~= runs);
            assert(merged_runs(runs, *cal) =~= merged_runs(runs.drop_last(), *cal).push(
                same_day_bucket(runs.last(), *cal),
            ));
            run = Vec::new();
            run.push(b);
            assert(run@ =~= seq![b]);
            run_day = day_start;
        }
        i += 1;
    }
    assert(buckets@.take(i as int) =~= buckets@);
    result.push(merge_buckets_same_day(run.as_slice(), cal));
    assert(result@ =~= daily(buckets@, *cal));
    result
}

proof fn lemma_runs_not_empty(s: Seq<AggregatedBucket>, cal: LocalCalendar, i: int)
    requires
        0 <= i < day_runs(s, cal).len(),
    ensures
        day_runs(s, cal)[i].len() > 0,
    decreases s.len(),
{
    let runs = day_runs(s.drop_last(), cal);
    if i < runs.len() {
        lemma_runs_not_empty(s.drop_last(), cal, i);
    }
}

proof fn lemma_day_bucket_push(
    bounds: (u64, u64),
    run: Seq<AggregatedBucket>,
    b: AggregatedBucket,
    before: CounterQuad,
)
    ensures
        bytes_added(before, day_bucket(bounds, run.push(b))) == bytes_added(
            bytes_added(before, day_bucket(bounds, run)),
            b,
        ),
{
    let s = hour_samples(run);
    assert(hour_samples(run.push(b)) =~= s.push(hour_sample(b)));
    lemma_sat_total_push(up_v4_bytes_of(s), b.up_v4_bytes);
    lemma_sat_total_push(down_v4_bytes_of(s), b.down_v4_bytes);
    lemma_sat_total_push(up_v6_bytes_of(s), b.up_v6_bytes);
    lemma_sat_total_push(down_v6_bytes_of(s), b.down_v6_bytes);
    let t = s.push(hour_sample(b));
    assert(up_v4_bytes_of(t) =~= up_v4_bytes_of(s).push(b.up_v4_bytes));
    assert(down_v4_bytes_of(t) =~= down_v4_bytes_of(s).push(b.down_v4_bytes));
    assert(up_v6_bytes_of(t) =~= up_v6_bytes_of(s).push(b.up_v6_bytes));
    assert(down_v6_bytes_of(t) =~= down_v6_bytes_of(s).push(b.down_v6_bytes));
    if run.len() == 0 {
        assert(up_v4_bytes_of(s) =~= Seq::empty());
        assert(down_v4_bytes_of(s) =~= Seq::empty());
        assert(up_v6_bytes_of(s) =~= Seq::empty());
        assert(down_v6_bytes_of(s) =~= Seq::empty());
    }
}

/// Merging hourly buckets into daily ones neither loses a byte nor counts one twice.
pub proof fn law_daily_keeps_bytes(s: Seq<AggregatedBucket>, cal: LocalCalendar)
    ensures
        bucket_bytes_total(daily(s, cal)) == bucket_bytes_total(s),
    decreases s.len(),
{
    if s.len() > 0 {
        let init = s.drop_last();
        let b = s.last();
        law_daily_keeps_bytes(init, cal);
        let runs = day_runs(init, cal);
        let next = day_runs(s, cal);
        if runs.len() > 0 && cal.day_of(runs.last()[0].start_ts_ms).0 == cal.day_of(
            b.start_ts_ms,
        ).0 {
            let run = runs.last();
            lemma_runs_not_empty(init, cal, runs.len() - 1);
            let before = merged_runs(runs.drop_last(), cal);
            assert(daily(s, cal).drop_last() =~= before);
            assert(daily(init, cal).drop_last() =~= before);
            assert(run.push(b)[0] == run[0]);
            lemma_day_bucket_push(
                cal.day_of(run[0].start_ts_ms),
                run,
                b,
                bucket_bytes_total(before),
            );
        } else {
            assert(daily(s, cal).drop_last() =~= daily(init, cal));
            let none = Seq::<AggregatedBucket>::empty();
            assert(none.push(b) =~= seq![b]);
            lemma_day_bucket_push(
                cal.day_of(b.start_ts_ms),
                none,
                b,
                bucket_bytes_total(daily(init, cal)),
            );
        }
    } else {
        assert(daily(s, cal) =~= s);
    }
}

/// Sorting buckets by their starts neither loses nor adds one, and puts them in order.
pub proof fn law_by_start(s: Seq<AggregatedBucket>)
    ensures
        by_start(s).to_multiset() == s.to_multiset(),
        forall|i: int, j: int|
            0 <= i <= j < by_start(s).len() ==> (#[trigger] by_start(s)[i]).start_ts_ms <= (
            #[trigger] by_start(s)[j]).start_ts_ms,
{
    broadcast use vstd::seq_lib::group_to_multiset_ensures;

    let keyed = keyed_by_start(s);
    let sorted = stable_sort(keyed);
    law_sort_orders(keyed);
    law_sort_permutes(keyed);
    assert forall|i: int| 0 <= i < sorted.len() implies (#[trigger] sorted[i]).0
        == sorted[i].1.start_ts_ms by {
        assert(sorted.contains(sorted[i]));
        assert(sorted.to_multiset().count(sorted[i]) > 0);
        assert(keyed.to_multiset().count(sorted[i]) > 0);
        assert(keyed.contains(sorted[i]));
    }
    assert forall|i: int, j: int| 0 <= i <= j < by_start(s).len() implies (#[trigger] by_start(
        s,
    )[i]).start_ts_ms <= (#[trigger] by_start(s)[j]).start_ts_ms by {
        assert(sorted[i].0 <= sorted[j].0);
    }
    lemma_unkeyed_multiset(sorted, keyed);
    assert(keyed.map_values(|p: (u64, AggregatedBucket)| p.1) =~= s);
}

proof fn lemma_unkeyed_multiset(a: Seq<(u64, AggregatedBucket)>, b: Seq<(u64, AggregatedBucket)>)
    requires
        a.to_multiset() == b.to_multiset(),
    ensures
        a.map_values(|p: (u64, AggregatedBucket)| p.1).to_multiset() == b.map_values(
            |p: (u64, AggregatedBucket)| p.1,
        ).to_multiset(),
    decreases a.len(),
{
    broadcast use vstd::seq_lib::group_to_multiset_ensures;

    let f = |p: (u64, AggregatedBucket)| p.1;
    if a.len() == 0 {
        assert(a.to_multiset().len() == 0);
        assert(b.len() == 0);
        assert(a.map_values(f) =~= b.map_values(f));
    } else {
        let x = a.last();
        assert(a.contains(x));
        assert(b.to_multiset().count(x) > 0);
        let at = b.index_of(x);
        let a1 = a.drop_last();
        let b1 = b.remove(at);
        assert(a =~= a1.push(x));
        assert(a1.to_multiset() =~= a.to_multiset().remove(x));
        assert(b1.to_multiset() =~= b.to_multiset().remove(x));
        lemma_unkeyed_multiset(a1, b1);
        assert(a.map_values(f) =~= a1.map_values(f).push(x.1));
        assert(b1.map_values(f) =~= b.map_values(f).remove(at));
        assert(b.map_values(f)[at] == x.1);
        assert(b.map_values(f).to_multiset() =~= b1.map_values(f).to_multiset().insert(x.1));
    }
}

/// Every bucket kept for a range has an instant in common with it.
pub proof fn law_kept_overlap(s: Seq<AggregatedBucket>, start_ms: u64, end_ms: u64)
    ensures
        forall|i: int|
            0 <= i < overlapping(s, start_ms, end_ms).len() ==> overlaps(
                #[trigger] overlapping(s, start_ms, end_ms)[i],
                start_ms,
                end_ms,
            ),
        forall|i: int|
            0 <= i < s.len() && overlaps(#[trigger] s[i], start_ms, end_ms) ==> overlapping(
                s,
                start_ms,
                end_ms,
            ).contains(s[i]),
    decreases s.len(),
{
    if s.len() > 0 {
        let init = s.drop_last();
        law_kept_overlap(init, start_ms, end_ms);
        let kept = overlapping(init, start_ms, end_ms);
        assert forall|i: int| 0 <= i < s.len() && overlaps(#[trigger] s[i], start_ms, end_ms) implies overlapping(
            s,
            start_ms,
            end_ms,
        ).contains(s[i]) by {
            if i < init.len() {
                assert(init[i] == s[i]);
                let j = kept.index_of(s[i]);
                assert(overlapping(s, start_ms, end_ms)[j] == s[i]);
            } else {
                assert(overlapping(s, start_ms, end_ms)[kept.len() as int] == s[i]);
            }
        }
    }
}

proof fn lemma_insert_bytes(s: Seq<(u64, AggregatedBucket)>, x: (u64, AggregatedBucket))
    ensures
        bucket_bytes_total(unkeyed(insert_keyed(s, x))) == bytes_added(
            bucket_bytes_total(unkeyed(s)),
            x.1,
        ),
    decreases s.len(),
{
    if s.len() == 0 || s.last().0 <= x.0 {
        assert(unkeyed(s.push(x)).drop_last() =~= unkeyed(s));
    } else {
        let init = s.drop_last();
        lemma_insert_bytes(init, x);
        assert(unkeyed(s).drop_last() =~= unkeyed(init));
        let r = insert_keyed(init, x).push(s.last());
        assert(unkeyed(r).drop_last() =~= unkeyed(insert_keyed(init, x)));
        assert(unkeyed(r).last() == s.last().1);
    }
}

proof fn lemma_sort_bytes(s: Seq<(u64, AggregatedBucket)>)
    ensures
        bucket_bytes_total(unkeyed(stable_sort(s))) == bucket_bytes_total(unkeyed(s)),
    decreases s.len(),
{
    if s.len() > 0 {
        let init = s.drop_last();
        lemma_sort_bytes(init);
        lemma_insert_bytes(stable_sort(init), s.last());
        assert(unkeyed(s).drop_last() =~= unkeyed(init));
    }
}

/// The buckets without their keys.
pub open spec fn unkeyed(s: Seq<(u64, AggregatedBucket)>) -> Seq<AggregatedBucket> {
    s.map_values(|p: (u64, AggregatedBucket)| p.1)
}

/// Sorting buckets leaves their bytes as they are.
pub proof fn law_sorting_keeps_bytes(s: Seq<AggregatedBucket>)
    ensures
        bucket_bytes_total(by_start(s)) == bucket_bytes_total(s),
{
    lemma_sort_bytes(keyed_by_start(s));
    assert(unkeyed(keyed_by_start(s)) =~= s);
    assert(by_start(s) =~= unkeyed(stable_sort(keyed_by_start(s))));
}

/// The range of all times keeps every bucket.
pub proof fn law_full_range_keeps_all(s: Seq<AggregatedBucket>)
    ensures
        overlapping(s, 0, u64::MAX) == s,
    decreases s.len(),
{
    if s.len() > 0 {
        law_full_range_keeps_all(s.drop_last());
        assert(s.drop_last().push(s.last()) =~= s);
    }
}

/// The buckets that start on the day that begins at `day`, in order.
pub open spec fn on_day(
    s: Seq<AggregatedBucket>,
    day: u64,
    cal: LocalCalendar,
) -> Seq<AggregatedBucket>
    decreases s.len(),
{
    if s.len() == 0 {
        s
    } else {
        let before = on_day(s.drop_last(), day, cal);
        if cal.day_of(s.last().start_ts_ms).0 == day {
            before.push(s.last())
        } else {
            before
        }
    }
}

/// The days on which buckets start are consistent: a later start is on no earlier day, and days
/// that begin together end together.
pub open spec fn days_agree(s: Seq<AggregatedBucket>, cal: LocalCalendar) -> bool {
    forall|i: int, j: int|
        0 <= i < s.len() && 0 <= j < s.len() && (#[trigger] s[i]).start_ts_ms <= (
        #[trigger] s[j]).start_ts_ms ==> {
            let a = cal.day_of(s[i].start_ts_ms);
            let b = cal.day_of(s[j].start_ts_ms);
            a.0 <= b.0 && (a.0 == b.0 ==> a.1 == b.1)
        }
}

/// Buckets are in the order of their starts.
pub open spec fn starts_ascend(s: Seq<AggregatedBucket>) -> bool {
    forall|i: int, j: int|
        0 <= i <= j < s.len() ==> (#[trigger] s[i]).start_ts_ms <= (#[trigger] s[j]).start_ts_ms
}

/// The start of the day of a run.
spec fn run_day(run: Seq<AggregatedBucket>, cal: LocalCalendar) -> u64 {
    cal.day_of(run[0].start_ts_ms).0
}

proof fn lemma_on_later_day(s: Seq<AggregatedBucket>, day: u64, cal: LocalCalendar)
    requires
        forall|i: int| 0 <= i < s.len() ==> cal.day_of((#[trigger] s[i]).start_ts_ms).0 < day,
    ensures
        on_day(s, day, cal).len() == 0,
    decreases s.len(),
{
    if s.len() > 0 {
        let init = s.drop_last();
        assert forall|i: int| 0 <= i < init.len() implies cal.day_of(
            (#[trigger] init[i]).start_ts_ms,
        ).0 < day by {
            assert(init[i] == s[i]);
        }
        lemma_on_later_day(init, day, cal);
        assert(cal.day_of(s[s.len() - 1].start_ts_ms).0 < day);
    }
}

proof fn lemma_runs_are_days(s: Seq<AggregatedBucket>, cal: LocalCalendar)
    requires
        starts_ascend(s),
        days_agree(s, cal),
    ensures
        ({
            let runs = day_runs(s, cal);
            &&& s.len() > 0 ==> runs.len() > 0 && run_day(runs.last(), cal) == cal.day_of(
                s.last().start_ts_ms,
            ).0
            &&& forall|k: int|
                0 <= k < runs.len() ==> (#[trigger] runs[k]).len() > 0 && runs[k] == on_day(
                    s,
                    run_day(runs[k], cal),
                    cal,
                )
            &&& forall|j: int, k: int|
                0 <= j < k < runs.len() ==> run_day(#[trigger] runs[j], cal) < run_day(
                    #[trigger] runs[k],
                    cal,
                )
            &&& forall|i: int|
                0 <= i < s.len() ==> exists|k: int|
                    0 <= k < runs.len() && run_day(#[trigger] runs[k], cal) == cal.day_of(
                        (#[trigger] s[i]).start_ts_ms,
                    ).0
        }),
    decreases s.len(),
{
    if s.len() > 0 {
        let init = s.drop_last();
        let b = s.last();
        let day = cal.day_of(b.start_ts_ms).0;
        assert(starts_ascend(init)) by {
            assert forall|i: int, j: int| 0 <= i <= j < init.len() implies (
            #[trigger] init[i]).start_ts_ms <= (#[trigger] init[j]).start_ts_ms by {
                assert(s[i].start_ts_ms <= s[j].start_ts_ms);
            }
        }
        assert(days_agree(init, cal)) by {
            assert forall|i: int, j: int|
                0 <= i < init.len() && 0 <= j < init.len() && (#[trigger] init[i]).start_ts_ms <= (
                #[trigger] init[j]).start_ts_ms implies {
                let a = cal.day_of(init[i].start_ts_ms);
                let b = cal.day_of(init[j].start_ts_ms);
                a.0 <= b.0 && (a.0 == b.0 ==> a.1 == b.1)
            } by {
                assert(s[i].start_ts_ms <= s[j].start_ts_ms);
            }
        }
        lemma_runs_are_days(init, cal);
        let runs = day_runs(init, cal);
        let next = day_runs(s, cal);
        let n = runs.len() as int;
        assert(s[s.len() - 1] == b);
        if init.len() > 0 {
            assert(init.last() == s[s.len() - 2]);
            assert(s[s.len() - 2].start_ts_ms <= s[s.len() - 1].start_ts_ms);
            assert(run_day(runs[n - 1], cal) <= day);
        }
        if n > 0 && run_day(runs.last(), cal) == day {
            assert(next[n - 1] == runs[n - 1].push(b));
            assert(next[n - 1][0] == runs[n - 1][0]);
            assert(runs[n - 1] == on_day(init, day, cal));
            assert forall|k: int| 0 <= k < next.len() implies (#[trigger] next[k]).len() > 0
                && run_day(next[k], cal) == run_day(runs[k], cal) && next[k] == on_day(
                s,
                run_day(next[k], cal),
                cal,
            ) by {
                if k < n - 1 {
                    assert(next[k] == runs[k]);
                    assert(run_day(runs[k], cal) < run_day(runs[n - 1], cal));
                }
            }
            assert forall|i: int| 0 <= i < s.len() implies exists|k: int|
                0 <= k < next.len() && run_day(#[trigger] next[k], cal) == cal.day_of(
                    (#[trigger] s[i]).start_ts_ms,
                ).0 by {
                if i < init.len() {
                    assert(init[i] == s[i]);
                    let k = choose|k: int|
                        0 <= k < runs.len() && run_day(#[trigger] runs[k], cal) == cal.day_of(
                            init[i].start_ts_ms,
                        ).0;
                    assert(run_day(next[k], cal) == run_day(runs[k], cal));
                } else {
                    assert(run_day(next[n - 1], cal) == day);
                }
            }
        } else {
            assert(next[n] == seq![b]);
            assert forall|i: int| 0 <= i < init.len() implies cal.day_of(
                (#[trigger] init[i]).start_ts_ms,
            ).0 < day by {
                assert(init[i] == s[i]);
                assert(s[i].start_ts_ms <= s[s.len() - 2].start_ts_ms);
            }
            lemma_on_later_day(init, day, cal);
            assert(on_day(s, day, cal) =~= seq![b]);
            assert forall|k: int| 0 <= k < next.len() implies (#[trigger] next[k]).len() > 0
                && next[k] == on_day(s, run_day(next[k], cal), cal) && (k < n ==> run_day(
                next[k],
                cal,
            ) < day) by {
                if k < n {
                    assert(next[k] == runs[k]);
                    if k < n - 1 {
                        assert(run_day(runs[k], cal) < run_day(runs[n - 1], cal));
                    }
                }
            }
            assert forall|i: int| 0 <= i < s.len() implies exists|k: int|
                0 <= k < next.len() && run_day(#[trigger] next[k], cal) == cal.day_of(
                    (#[trigger] s[i]).start_ts_ms,
                ).0 by {
                if i < init.len() {
                    assert(init[i] == s[i]);
                    let k = choose|k: int|
                        0 <= k < runs.len() && run_day(#[trigger] runs[k], cal) == cal.day_of(
                            init[i].start_ts_ms,
                        ).0;
                    assert(next[k] == runs[k]);
                } else {
                    assert(run_day(next[n], cal) == day);
                }
            }
        }
    }
}

proof fn lemma_day_bytes(bounds: (u64, u64), run: Seq<AggregatedBucket>)
    ensures
        bytes_added(zero_quad(), day_bucket(bounds, run)) == bucket_bytes_total(run),
    decreases run.len(),
{
    if run.len() > 0 {
        lemma_day_bytes(bounds, run.drop_last());
        assert(run.drop_last().push(run.last()) =~= run);
        lemma_day_bucket_push(bounds, run.drop_last(), run.last(), zero_quad());
    } else {
        let s = hour_samples(run);
        assert(up_v4_bytes_of(s) =~= Seq::empty());
        assert(down_v4_bytes_of(s) =~= Seq::empty());
        assert(up_v6_bytes_of(s) =~= Seq::empty());
        assert(down_v6_bytes_of(s) =~= Seq::empty());
    }
}

pub proof fn lemma_first_on_day(s: Seq<AggregatedBucket>, day: u64, cal: LocalCalendar)
    ensures
        forall|i: int|
            0 <= i < on_day(s, day, cal).len() ==> cal.day_of(
                (#[trigger] on_day(s, day, cal)[i]).start_ts_ms,
            ).0 == day && s.contains(on_day(s, day, cal)[i]),
    decreases s.len(),
{
    if s.len() > 0 {
        let init = s.drop_last();
        lemma_first_on_day(init, day, cal);
        let before = on_day(init, day, cal);
        let r = on_day(s, day, cal);
        assert forall|i: int| 0 <= i < r.len() implies cal.day_of(
            (#[trigger] r[i]).start_ts_ms,
        ).0 == day && s.contains(r[i]) by {
            if i < before.len() {
                assert(r[i] == before[i]);
                let k = init.index_of(before[i]);
                assert(s[k] == before[i]);
            } else {
                assert(s[s.len() - 1] == r[i]);
            }
        }
    }
}

/// Where the calendar is consistent, merging gives one bucket for each day on which a bucket
/// starts, in ascending order: with the bounds of the day, made of the buckets that start on it,
/// with the sum of their bytes.
pub proof fn law_daily_by_day(s: Seq<AggregatedBucket>, cal: LocalCalendar)
    requires
        starts_ascend(s),
        days_agree(s, cal),
    ensures
        ({
            let d = daily(s, cal);
            &&& forall|j: int, k: int|
                0 <= j < k < d.len() ==> (#[trigger] d[j]).start_ts_ms < (
                #[trigger] d[k]).start_ts_ms
            &&& forall|k: int|
                0 <= k < d.len() ==> {
                    let those = on_day(s, (#[trigger] d[k]).start_ts_ms, cal);
                    &&& those.len() > 0
                    &&& d[k] == day_bucket((d[k].start_ts_ms, d[k].end_ts_ms), those)
                    &&& bytes_added(zero_quad(), d[k]) == bucket_bytes_total(those)
                }
            &&& forall|i: int|
                0 <= i < s.len() ==> exists|k: int|
                    0 <= k < d.len() && ((#[trigger] d[k]).start_ts_ms, d[k].end_ts_ms)
                        == cal.day_of((#[trigger] s[i]).start_ts_ms)
        }),
{
    lemma_runs_are_days(s, cal);
    let runs = day_runs(s, cal);
    let d = daily(s, cal);
    assert forall|j: int, k: int| 0 <= j < k < d.len() implies (#[trigger] d[j]).start_ts_ms < (
    #[trigger] d[k]).start_ts_ms by {
        assert(run_day(runs[j], cal) < run_day(runs[k], cal));
    }
    assert forall|k: int| 0 <= k < d.len() implies {
        let those = on_day(s, (#[trigger] d[k]).start_ts_ms, cal);
        &&& those.len() > 0
        &&& d[k] == day_bucket((d[k].start_ts_ms, d[k].end_ts_ms), those)
        &&& bytes_added(zero_quad(), d[k]) == bucket_bytes_total(those)
    } by {
        assert(runs[k].len() > 0);
        lemma_day_bytes(cal.day_of(runs[k][0].start_ts_ms), runs[k]);
    }
    assert forall|i: int| 0 <= i < s.len() implies exists|k: int|
        0 <= k < d.len() && ((#[trigger] d[k]).start_ts_ms, d[k].end_ts_ms) == cal.day_of(
            (#[trigger] s[i]).start_ts_ms,
        ) by {
        let k = choose|k: int|
            0 <= k < runs.len() && run_day(#[trigger] runs[k], cal) == cal.day_of(
                s[i].start_ts_ms,
            ).0;
        let day = run_day(runs[k], cal);
        assert(runs[k] == on_day(s, day, cal) && runs[k].len() > 0);
        lemma_first_on_day(s, day, cal);
        let first = on_day(s, day, cal)[0];
        assert(s.contains(first));
        let m = s.index_of(first);
        assert(s[m] == first);
        if s[m].start_ts_ms <= s[i].start_ts_ms {
            assert(cal.day_of(s[m].start_ts_ms).1 == cal.day_of(s[i].start_ts_ms).1);
        } else {
            assert(s[i].start_ts_ms <= s[m].start_ts_ms);
        }
        assert((d[k].start_ts_ms, d[k].end_ts_ms) == cal.day_of(s[i].start_ts_ms));
    }
}

/// An instant lies in a bucket and in a range.
pub open spec fn instant_in_both(t: int, b: AggregatedBucket, start_ms: u64, end_ms: u64) -> bool {
    b.start_ts_ms <= t <= b.end_ts_ms && start_ms <= t <= end_ms
}

/// A bucket is kept for a range where there is an instant that lies in both, and the kept buckets
/// stay in order.
pub proof fn law_kept_by_instant(
    s: Seq<AggregatedBucket>,
    b: AggregatedBucket,
    start_ms: u64,
    end_ms: u64,
)
    requires
        b.start_ts_ms <= b.end_ts_ms,
        start_ms <= end_ms,
    ensures
        overlaps(b, start_ms, end_ms) <==> exists|t: int| #[trigger]
            instant_in_both(t, b, start_ms, end_ms),
        overlapping(s, start_ms, end_ms) == s.filter(
            |x: AggregatedBucket| overlaps(x, start_ms, end_ms),
        ),
    decreases s.len(),
{
    reveal(Seq::filter);
    let t = if b.start_ts_ms >= start_ms {
        b.start_ts_ms as int
    } else {
        start_ms as int
    };
    if overlaps(b, start_ms, end_ms) {
        assert(instant_in_both(t, b, start_ms, end_ms));
    }
    if s.len() > 0 {
        law_kept_by_instant(s.drop_last(), b, start_ms, end_ms);
    }
}


} // verus!
