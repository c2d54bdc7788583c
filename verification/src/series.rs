//! The hourly history of the series of one kind: completed hours, and the points of the hour
//! that still runs.
use vstd::prelude::*;

use crate::bucket::{
    bucket_bytes_total, bucket_lane, bytes_added, cumulative_from_buckets, day_bucket,
    down_v4_bytes_of, down_v6_bytes_of, law_bucket_of_samples, law_summary_splits, metrics_of,
    sum_of, summary, up_v4_bytes_of, up_v6_bytes_of, AggregatedBucket, CurrentHourPointState,
};
use crate::calendar::LocalCalendar;
use crate::counters::{
    add_quad, bytes_sum, capped, is_lane, quad_total, rate_in, zero_quad, CounterQuad,
};
use crate::daily::{
    by_start, daily, days_agree, instant_in_both, keep_overlapping, law_by_start, law_daily_by_day,
    law_daily_keeps_bytes, law_full_range_keeps_all, law_kept_by_instant, law_kept_overlap,
    law_sorting_keeps_bytes, lemma_first_on_day, merge_buckets_to_daily, on_day, overlapping,
    overlaps, points_to_bucket, sort_by_start, starts_ascend, AggregateBucket,
};
use crate::keys::{DeviceSeriesKey, IpSeriesKey};
use crate::names::{mac_from_str, mac_of_text};
use crate::table::{
    get, get_or, law_put_get, law_put_get_other, law_put_keeps_unique, lemma_absent, lemma_get_push,
    put, unique_keys, Table, TableKey,
};

verus! {

/// Completed hours by series, and the points of the running hour by series, with the start of
/// that hour.
pub struct SeriesHistory<K> {
    pub completed: Table<K, Vec<AggregatedBucket>>,
    pub current: Table<K, (u64, Vec<CurrentHourPointState>)>,
}

/// What a history of series holds.
#[verifier::ext_equal]
pub struct SeriesModel<K> {
    pub completed: Seq<(K, Seq<AggregatedBucket>)>,
    pub current: Seq<(K, (u64, Seq<CurrentHourPointState>))>,
}

/// The hourly buckets of a series that have an instant in common with the range, by their
/// starts: the completed ones, and that of the running hour where it has points.
pub open spec fn hourly_of(
    completed: Seq<AggregatedBucket>,
    current: Option<(u64, Seq<CurrentHourPointState>)>,
    start_ms: u64,
    end_ms: u64,
    cal: LocalCalendar,
) -> Seq<AggregatedBucket> {
    let kept = overlapping(completed, start_ms, end_ms);
    by_start(
        match current {
            Some((hour_start, points)) => {
                let (start, end) = cal.hour_of(hour_start);
                if start <= end_ms && end >= start_ms && points.len() > 0 {
                    kept.push(summary(start, cal.hour_of(start).1, metrics_of(points)))
                } else {
                    kept
                }
            },
            None => kept,
        },
    )
}

impl<K> SeriesModel<K> {
    /// A history without series.
    pub open spec fn empty() -> SeriesModel<K> {
        SeriesModel { completed: Seq::empty(), current: Seq::empty() }
    }

    /// No series is held twice.
    pub open spec fn distinct(self) -> bool {
        unique_keys(self.completed) && unique_keys(self.current)
    }

    /// The completed hours of a series.
    pub open spec fn completed_of(self, key: K) -> Seq<AggregatedBucket> {
        get_or(self.completed, key, Seq::empty())
    }

    /// The points of the running hour of a series.
    pub open spec fn points_of(self, key: K) -> Seq<CurrentHourPointState> {
        match get(self.current, key) {
            Some((_, points)) => points,
            None => Seq::empty(),
        }
    }

    /// The hourly buckets of a series in a range.
    pub open spec fn hourly(
        self,
        key: K,
        start_ms: u64,
        end_ms: u64,
        cal: LocalCalendar,
    ) -> Seq<AggregatedBucket> {
        hourly_of(self.completed_of(key), get(self.current, key), start_ms, end_ms, cal)
    }

    /// The daily buckets of a series in a range: its hourly ones, merged by days.
    pub open spec fn daily(
        self,
        key: K,
        start_ms: u64,
        end_ms: u64,
        cal: LocalCalendar,
    ) -> Seq<AggregatedBucket> {
        overlapping(daily(self.hourly(key, start_ms, end_ms, cal), cal), start_ms, end_ms)
    }

    /// The buckets of a series in a range.
    pub open spec fn aggregate(
        self,
        key: K,
        start_ms: u64,
        end_ms: u64,
        bucket: AggregateBucket,
        cal: LocalCalendar,
    ) -> Seq<AggregatedBucket> {
        match bucket {
            AggregateBucket::Hourly => self.hourly(key, start_ms, end_ms, cal),
            AggregateBucket::Daily => self.daily(key, start_ms, end_ms, cal),
        }
    }

    /// The calendar holds the hours that the hourly buckets of a series depend on.
    pub open spec fn hours_known(self, key: K, cal: LocalCalendar) -> bool {
        get(self.current, key) matches Some((hour_start, _)) ==> cal.knows_hour(hour_start)
            && cal.knows_hour(cal.hour_of(hour_start).0)
    }

    /// The calendar holds what the buckets of a series in a range depend on.
    pub open spec fn covered(
        self,
        key: K,
        start_ms: u64,
        end_ms: u64,
        bucket: AggregateBucket,
        cal: LocalCalendar,
    ) -> bool {
        let hourly = self.hourly(key, start_ms, end_ms, cal);
        &&& cal.faithful()
        &&& self.hours_known(key, cal)
        &&& bucket == AggregateBucket::Daily ==> forall|i: int|
            0 <= i < hourly.len() ==> cal.knows_day((#[trigger] hourly[i]).start_ts_ms)
    }

    /// The history with one more point of a series, in the hour that begins at `hour_start`. The
    /// points of an earlier hour become a completed one.
    pub open spec fn observed(
        self,
        key: K,
        hour_start: u64,
        ts_ms: u64,
        metrics: CounterQuad,
        cal: LocalCalendar,
    ) -> SeriesModel<K> {
        let point = CurrentHourPointState { ts_ms, metrics };
        let (start, points) = get_or(self.current, key, (hour_start, Seq::empty()));
        if start == hour_start {
            SeriesModel {
                completed: self.completed,
                current: put(self.current, key, (hour_start, points.push(point))),
            }
        } else {
            SeriesModel {
                completed: if points.len() == 0 {
                    self.completed
                } else {
                    put(
                        self.completed,
                        key,
                        self.completed_of(key).push(
                            summary(start, cal.hour_of(start).1, metrics_of(points)),
                        ),
                    )
                },
                current: put(self.current, key, (hour_start, seq![point])),
            }
        }
    }

    /// The history with one more point of each of some series.
    pub open spec fn observed_all(
        self,
        items: Seq<(K, CounterQuad)>,
        hour_start: u64,
        ts_ms: u64,
        cal: LocalCalendar,
    ) -> SeriesModel<K>
        decreases items.len(),
    {
        if items.len() == 0 {
            self
        } else {
            let (key, metrics) = items.last();
            self.observed_all(items.drop_last(), hour_start, ts_ms, cal).observed(
                key,
                hour_start,
                ts_ms,
                metrics,
                cal,
            )
        }
    }

    /// The calendar holds what taking in points at `ts_ms` depends on.
    pub open spec fn covered_points(self, ts_ms: u64, cal: LocalCalendar) -> bool {
        &&& cal.faithful()
        &&& cal.knows_hour(ts_ms)
        &&& forall|i: int|
            0 <= i < self.current.len() ==> cal.knows_hour((#[trigger] self.current[i]).1.0)
    }

    /// The history with one more completed hour of a series.
    pub open spec fn with_bucket(self, key: K, bucket: AggregatedBucket) -> SeriesModel<K> {
        SeriesModel {
            completed: put(self.completed, key, self.completed_of(key).push(bucket)),
            current: self.current,
        }
    }

    /// The history with the points of the running hour of a series, where `hour_start` is the
    /// start of that hour.
    pub open spec fn with_current(
        self,
        key: K,
        hour_start: u64,
        points: Seq<CurrentHourPointState>,
        expected_start: u64,
    ) -> SeriesModel<K> {
        if hour_start == expected_start {
            SeriesModel {
                completed: self.completed,
                current: put(self.current, key, (hour_start, points)),
            }
        } else {
            self
        }
    }
}

impl<K: TableKey> SeriesHistory<K> {
    /// What the history holds.
    pub open spec fn model(self) -> SeriesModel<K::V> {
        SeriesModel { completed: self.completed.model(), current: self.current.model() }
    }

    /// A history without series.
    pub fn new() -> (h: Self)
        ensures
            h.model() == SeriesModel::<K::V>::empty(),
            h.model().distinct(),
    {
        SeriesHistory { completed: Table::new(), current: Table::new() }
    }

    /// The hourly buckets of a series in a range.
    pub fn query_hourly(
        &self,
        key: &K,
        start_ms: u64,
        end_ms: u64,
        cal: &LocalCalendar,
    ) -> (r: Vec<AggregatedBucket>)
        ensures
            r@ == self.model().hourly(key@, start_ms, end_ms, *cal),
    {
        let mut result = match self.completed.get(key) {
            Some(completed) => keep_overlapping(completed, start_ms, end_ms),
            None => {
                let none: Vec<AggregatedBucket> = Vec::new();
                assert(none@ =~= overlapping(Seq::empty(), start_ms, end_ms));
                none
            },
        };
        if let Some(current) = self.current.get(key) {
            let (start, end) = cal.hour(current.0);
            if start <= end_ms && end >= start_ms && current.1.len() > 0 {
                result.push(points_to_bucket(start, current.1.as_slice(), cal));
            }
        }
        sort_by_start(result)
    }

    /// The daily buckets of a series in a range.
    pub fn query_daily(
        &self,
        key: &K,
        start_ms: u64,
        end_ms: u64,
        cal: &LocalCalendar,
    ) -> (r: Vec<AggregatedBucket>)
        ensures
            r@ == self.model().daily(key@, start_ms, end_ms, *cal),
    {
        let hourly = self.query_hourly(key, start_ms, end_ms, cal);
        let merged = merge_buckets_to_daily(&hourly, cal);
        keep_overlapping(&merged, start_ms, end_ms)
    }
}

impl<K: TableKey> SeriesHistory<K> {
    /// Looks up the local hours that the hourly buckets of a series depend on.
    pub fn learn_hours(&self, key: &K, cal: &mut LocalCalendar)
        requires
            old(cal).faithful(),
        ensures
            final(cal).faithful(),
            old(cal).within(*final(cal)),
            self.model().hours_known(key@, *final(cal)),
    {
        if let Some(current) = self.current.get(key) {
            cal.learn_hour(current.0);
            let start = cal.hour(current.0).0;
            cal.learn_hour(start);
        }
    }

    /// Looks up the local hours and days that the buckets of a series in a range depend on.
    pub fn calendar_for(
        &self,
        key: &K,
        start_ms: u64,
        end_ms: u64,
        bucket: AggregateBucket,
    ) -> (cal: LocalCalendar)
        ensures
            self.model().covered(key@, start_ms, end_ms, bucket, cal),
    {
        let mut cal = LocalCalendar::new();
        self.learn_hours(key, &mut cal);
        if let AggregateBucket::Daily = bucket {
            let hourly = self.query_hourly(key, start_ms, end_ms, &cal);
            let ghost first = cal;
            let n = hourly.len();
            let mut i: usize = 0;
            while i < n
                invariant
                    i <= n,
                    n == hourly@.len(),
                    cal.faithful(),
                    cal.hours == first.hours,
                    hourly@ == self.model().hourly(key@, start_ms, end_ms, first),
                    forall|j: int| 0 <= j < i ==> cal.knows_day((#[trigger] hourly@[j]).start_ts_ms),
                decreases n - i,
            {
                cal.learn_day(hourly[i].start_ts_ms);
                i += 1;
            }
            proof {
                lemma_hourly_by_hours(self.model(), key@, start_ms, end_ms, first, cal);
            }
        }
        cal
    }

    /// The buckets of a series in a range, by the local time of the machine.
    pub fn query(
        &self,
        key: &K,
        start_ms: u64,
        end_ms: u64,
        bucket: AggregateBucket,
    ) -> (r: Vec<AggregatedBucket>)
        ensures
            exists|cal: LocalCalendar| #[trigger]
                self.model().covered(key@, start_ms, end_ms, bucket, cal) && r@
                    == self.model().aggregate(key@, start_ms, end_ms, bucket, cal),
    {
        let cal = self.calendar_for(key, start_ms, end_ms, bucket);
        match bucket {
            AggregateBucket::Hourly => self.query_hourly(key, start_ms, end_ms, &cal),
            AggregateBucket::Daily => self.query_daily(key, start_ms, end_ms, &cal),
        }
    }

    /// Takes in one more point of a series, in the hour that begins at `hour_start`.
    pub fn observe(
        &mut self,
        key: K,
        hour_start: u64,
        ts_ms: u64,
        metrics: &CounterQuad,
        cal: &LocalCalendar,
    )
        ensures
            final(self).model() == old(self).model().observed(
                key@,
                hour_start,
                ts_ms,
                *metrics,
                *cal,
            ),
            old(self).model().distinct() ==> final(self).model().distinct(),
    {
        let point = CurrentHourPointState { ts_ms, metrics: *metrics };
        let (start, finished) = match self.current.get(&key) {
            Some(current) => {
                if current.0 != hour_start && current.1.len() > 0 {
                    (current.0, Some(points_to_bucket(current.0, current.1.as_slice(), cal)))
                } else {
                    (current.0, None)
                }
            },
            None => (hour_start, None),
        };
        if let Some(bucket) = finished {
            let completed = self.completed.slot(key.duplicate(), Vec::new());
            completed.push(bucket);
        }
        let none: Vec<CurrentHourPointState> = Vec::new();
        assert(none@ =~= Seq::empty());
        let current = self.current.slot(key, (hour_start, none));
        if start != hour_start {
            current.1 = Vec::new();
            current.0 = hour_start;
        }
        current.1.push(point);
        assert(self.model() =~= old(self).model().observed(key@, hour_start, ts_ms, *metrics, *cal));
        proof {
            if old(self).model().distinct() {
                law_observed_stays_distinct(
                    old(self).model(),
                    key@,
                    hour_start,
                    ts_ms,
                    *metrics,
                    *cal,
                );
            }
        }
    }

    /// Looks up the local hours that taking in points at `ts_ms` depends on.
    pub fn learn_points(&self, ts_ms: u64, cal: &mut LocalCalendar)
        requires
            old(cal).faithful(),
        ensures
            self.model().covered_points(ts_ms, *final(cal)),
            old(cal).within(*final(cal)),
    {
        cal.learn_hour(ts_ms);
        let n = self.current.entries.len();
        let mut i: usize = 0;
        while i < n
            invariant
                i <= n,
                n == self.current.entries@.len(),
                cal.faithful(),
                old(cal).within(*cal),
                cal.knows_hour(ts_ms),
                forall|j: int| 0 <= j < i ==> cal.knows_hour((#[trigger] self.model().current[j]).1.0),
            decreases n - i,
        {
            cal.learn_hour(self.current.entries[i].1.0);
            assert(self.model().current[i as int].1.0 == self.current.entries@[i as int].1.0);
            i += 1;
        }
    }

    /// Takes in one more completed hour of a series.
    pub fn restore_bucket(&mut self, key: K, bucket: AggregatedBucket)
        ensures
            final(self).model() == old(self).model().with_bucket(key@, bucket),
            old(self).model().distinct() ==> final(self).model().distinct(),
    {
        let none: Vec<AggregatedBucket> = Vec::new();
        assert(none@ =~= Seq::empty());
        proof {
            if self.model().distinct() {
                law_bucket_stays_distinct(self.model(), key@, bucket);
            }
        }
        let completed = self.completed.slot(key, none);
        completed.push(bucket);
    }

    /// Takes in the points of the running hour of a series, unless they are of another hour.
    pub fn restore_current(
        &mut self,
        key: K,
        hour_start: u64,
        points: Vec<CurrentHourPointState>,
        expected_start: u64,
    )
        ensures
            final(self).model() == old(self).model().with_current(
                key@,
                hour_start,
                points@,
                expected_start,
            ),
            old(self).model().distinct() ==> final(self).model().distinct(),
    {
        proof {
            if self.model().distinct() {
                law_current_stays_distinct(
                    self.model(),
                    key@,
                    hour_start,
                    points@,
                    expected_start,
                );
            }
        }
        if hour_start == expected_start {
            self.current.put(key, (hour_start, points));
        }
    }
}

/// Taking in a point keeps the series distinct.
pub proof fn law_observed_stays_distinct<K>(
    m: SeriesModel<K>,
    key: K,
    hour_start: u64,
    ts_ms: u64,
    metrics: CounterQuad,
    cal: LocalCalendar,
)
    requires
        m.distinct(),
    ensures
        m.observed(key, hour_start, ts_ms, metrics, cal).distinct(),
{
    let point = CurrentHourPointState { ts_ms, metrics };
    let (start, points) = get_or(m.current, key, (hour_start, Seq::empty()));
    law_put_keeps_unique(m.current, key, (hour_start, points.push(point)));
    law_put_keeps_unique(m.current, key, (hour_start, seq![point]));
    law_put_keeps_unique(
        m.completed,
        key,
        m.completed_of(key).push(summary(start, cal.hour_of(start).1, metrics_of(points))),
    );
}

/// Taking in points of some series keeps the series distinct.
pub proof fn law_observed_all_stays_distinct<K>(
    m: SeriesModel<K>,
    items: Seq<(K, CounterQuad)>,
    hour_start: u64,
    ts_ms: u64,
    cal: LocalCalendar,
)
    requires
        m.distinct(),
    ensures
        m.observed_all(items, hour_start, ts_ms, cal).distinct(),
    decreases items.len(),
{
    if items.len() > 0 {
        let init = items.drop_last();
        law_observed_all_stays_distinct(m, init, hour_start, ts_ms, cal);
        law_observed_stays_distinct(
            m.observed_all(init, hour_start, ts_ms, cal),
            items.last().0,
            hour_start,
            ts_ms,
            items.last().1,
            cal,
        );
    }
}

/// Taking in a completed hour keeps the series distinct.
pub proof fn law_bucket_stays_distinct<K>(m: SeriesModel<K>, key: K, bucket: AggregatedBucket)
    requires
        m.distinct(),
    ensures
        m.with_bucket(key, bucket).distinct(),
{
    law_put_keeps_unique(m.completed, key, m.completed_of(key).push(bucket));
}

/// Taking in a running hour keeps the series distinct.
pub proof fn law_current_stays_distinct<K>(
    m: SeriesModel<K>,
    key: K,
    hour_start: u64,
    points: Seq<CurrentHourPointState>,
    expected_start: u64,
)
    requires
        m.distinct(),
    ensures
        m.with_current(key, hour_start, points, expected_start).distinct(),
{
    law_put_keeps_unique(m.current, key, (hour_start, points));
}

proof fn lemma_hourly_by_hours<K>(
    m: SeriesModel<K>,
    key: K,
    start_ms: u64,
    end_ms: u64,
    a: LocalCalendar,
    b: LocalCalendar,
)
    requires
        a.hours == b.hours,
    ensures
        m.hourly(key, start_ms, end_ms, a) == m.hourly(key, start_ms, end_ms, b),
{
}

/// A key of a series, with the key that totals of the series are kept by.
pub trait SeriesKey: TableKey {
    /// The key of totals.
    type Total: TableKey;

    /// The key of totals of a series.
    spec fn total_key(key: Self::V) -> <Self::Total as View>::V;

    /// The key of totals of the series.
    fn to_total_key(&self) -> (r: Self::Total)
        ensures
            r@ == Self::total_key(self@),
    ;
}

impl SeriesKey for u32 {
    type Total = u32;

    open spec fn total_key(key: u32) -> u32 {
        key
    }

    fn to_total_key(&self) -> (r: u32) {
        *self
    }
}

/// The MAC address that a text stands for, or all zeros.
pub open spec fn mac_or_zero(text: Seq<char>) -> Seq<u8> {
    match mac_of_text(text) {
        Some(mac) => mac,
        None => seq![0u8, 0u8, 0u8, 0u8, 0u8, 0u8],
    }
}

impl SeriesKey for DeviceSeriesKey {
    type Total = (u32, [u8; 6]);

    open spec fn total_key(key: (u32, Seq<char>)) -> (u32, Seq<u8>) {
        (key.0, mac_or_zero(key.1))
    }

    fn to_total_key(&self) -> (r: (u32, [u8; 6])) {
        let mac = match mac_from_str(self.mac.as_str()) {
            Some(mac) => mac,
            None => {
                let zero: [u8; 6] = [0, 0, 0, 0, 0, 0];
                assert(zero@ =~= seq![0u8, 0u8, 0u8, 0u8, 0u8, 0u8]);
                zero
            },
        };
        (self.ifindex, mac)
    }
}

impl SeriesKey for IpSeriesKey {
    type Total = (u32, String);

    open spec fn total_key(key: (u32, Seq<char>)) -> (u32, Seq<char>) {
        key
    }

    fn to_total_key(&self) -> (r: (u32, String)) {
        (self.ifindex, self.ip.clone())
    }
}

/// The bytes of the completed hours of each series, by the keys of totals. Of series that share
/// such a key the last counts.
pub open spec fn completed_totals<K: SeriesKey>(s: Seq<(K::V, Seq<AggregatedBucket>)>) -> Seq<
    (<K::Total as View>::V, CounterQuad),
>
    decreases s.len(),
{
    if s.len() == 0 {
        Seq::empty()
    } else {
        put(
            completed_totals::<K>(s.drop_last()),
            K::total_key(s.last().0),
            bucket_bytes_total(s.last().1),
        )
    }
}

/// `totals`, where those of series with a running hour are the totals of its points instead.
pub open spec fn running_totals<K: SeriesKey>(
    totals: Seq<(<K::Total as View>::V, CounterQuad)>,
    s: Seq<(K::V, (u64, Seq<CurrentHourPointState>))>,
) -> Seq<(<K::Total as View>::V, CounterQuad)>
    decreases s.len(),
{
    if s.len() == 0 {
        totals
    } else {
        put(
            running_totals::<K>(totals, s.drop_last()),
            K::total_key(s.last().0),
            quad_total(metrics_of(s.last().1.1)),
        )
    }
}

/// The counters of all points together.
pub fn total_of_points(points: &Vec<CurrentHourPointState>) -> (q: CounterQuad)
    ensures
        q == quad_total(metrics_of(points@)),
{
    let mut q = CounterQuad::default();
    let n = points.len();
    let mut i: usize = 0;
    assert(metrics_of(points@.take(0)) =~= Seq::empty());
    while i < n
        invariant
            i <= n,
            n == points@.len(),
            q == quad_total(metrics_of(points@.take(i as int))),
        decreases n - i,
    {
        add_quad(&mut q, &points[i].metrics);
        i += 1;
        assert(metrics_of(points@.take(i as int)).drop_last() =~= metrics_of(
            points@.take(i - 1),
        ));
    }
    assert(points@.take(i as int) =~= points@);
    q
}

impl<K: SeriesKey> SeriesHistory<K> {
    /// The bytes of the completed hours of each series.
    pub fn totals_of_completed(&self) -> (r: Table<K::Total, CounterQuad>)
        ensures
            r.model() == completed_totals::<K>(self.model().completed),
    {
        let mut r: Table<K::Total, CounterQuad> = Table::new();
        let n = self.completed.entries.len();
        let mut i: usize = 0;
        let ghost all = self.model().completed;
        while i < n
            invariant
                i <= n,
                n == self.completed.entries@.len(),
                all == self.model().completed,
                r.model() == completed_totals::<K>(all.take(i as int)),
            decreases n - i,
        {
            let entry = &self.completed.entries[i];
            r.put(entry.0.to_total_key(), cumulative_from_buckets(entry.1.as_slice()));
            i += 1;
            assert(all.take(i as int).drop_last() =~= all.take(i - 1));
            assert(all[i - 1] == (entry.0@, entry.1@));
        }
        assert(all.take(i as int) =~= all);
        r
    }

    /// The bytes of the completed hours of each series, or the totals of the points of its
    /// running hour where it has one.
    pub fn totals(&self) -> (r: Table<K::Total, CounterQuad>)
        ensures
            r.model() == running_totals::<K>(
                completed_totals::<K>(self.model().completed),
                self.model().current,
            ),
    {
        let mut r = self.totals_of_completed();
        let ghost base = r.model();
        let n = self.current.entries.len();
        let mut i: usize = 0;
        let ghost all = self.model().current;
        while i < n
            invariant
                i <= n,
                n == self.current.entries@.len(),
                all == self.model().current,
                r.model() == running_totals::<K>(base, all.take(i as int)),
            decreases n - i,
        {
            let entry = &self.current.entries[i];
            r.put(entry.0.to_total_key(), total_of_points(&entry.1.1));
            i += 1;
            assert(all.take(i as int).drop_last() =~= all.take(i - 1));
            assert(all[i - 1] == (entry.0@, entry.1@));
        }
        assert(all.take(i as int) =~= all);
        r
    }
}

impl<K> SeriesModel<K> {
    /// The bytes of a series, in its completed hours and in the one that runs.
    pub open spec fn bytes_of(self, key: K) -> CounterQuad {
        bytes_added(
            bucket_bytes_total(self.completed_of(key)),
            summary(0, 0, metrics_of(self.points_of(key))),
        )
    }

    /// The buckets that an hourly query puts in order.
    pub open spec fn hourly_unsorted(
        self,
        key: K,
        start_ms: u64,
        end_ms: u64,
        cal: LocalCalendar,
    ) -> Seq<AggregatedBucket> {
        let kept = overlapping(self.completed_of(key), start_ms, end_ms);
        match get(self.current, key) {
            Some((hour_start, points)) => {
                let (start, end) = cal.hour_of(hour_start);
                if start <= end_ms && end >= start_ms && points.len() > 0 {
                    kept.push(summary(start, cal.hour_of(start).1, metrics_of(points)))
                } else {
                    kept
                }
            },
            None => kept,
        }
    }
}

/// A point counts once: whether it joins the running hour or completes one, the bytes of its
/// series grow by those of the point.
pub proof fn law_observe_counts_once<K>(
    m: SeriesModel<K>,
    key: K,
    hour_start: u64,
    ts_ms: u64,
    metrics: CounterQuad,
    cal: LocalCalendar,
)
    ensures
        m.observed(key, hour_start, ts_ms, metrics, cal).bytes_of(key) == bytes_added(
            m.bytes_of(key),
            summary(0, 0, seq![metrics]),
        ),
{
    let after = m.observed(key, hour_start, ts_ms, metrics, cal);
    let point = CurrentHourPointState { ts_ms, metrics };
    let (start, points) = get_or(m.current, key, (hour_start, Seq::empty()));
    let samples = metrics_of(points);
    let before = bucket_bytes_total(m.completed_of(key));
    assert(metrics_of(points.push(point)) =~= samples + seq![metrics]);
    assert(metrics_of(seq![point]) =~= seq![metrics]);
    assert(metrics_of(Seq::<CurrentHourPointState>::empty()) =~= Seq::empty());
    assert(points =~= m.points_of(key));
    if start == hour_start {
        law_put_get(m.current, key, (hour_start, points.push(point)));
        law_summary_splits(before, samples, seq![metrics], (0, 0), (0, 0), (0, 0));
    } else {
        law_put_get(m.current, key, (hour_start, seq![point]));
        if points.len() > 0 {
            let done = summary(start, cal.hour_of(start).1, samples);
            let all = m.completed_of(key).push(done);
            law_put_get(m.completed, key, all);
            assert(all.drop_last() =~= m.completed_of(key));
            law_summary_splits(
                before,
                samples,
                seq![metrics],
                (0, 0),
                (start, cal.hour_of(start).1),
                (0, 0),
            );
            law_summary_splits(before, samples, seq![metrics], (0, 0), (0, 0), (0, 0));
        } else {
            law_summary_splits(before, samples, seq![metrics], (0, 0), (0, 0), (0, 0));
            assert(samples + seq![metrics] =~= seq![metrics]);
        }
    }
}

/// A point of one series leaves the others as they are.
pub proof fn law_observe_leaves_others<K>(
    m: SeriesModel<K>,
    key: K,
    hour_start: u64,
    ts_ms: u64,
    metrics: CounterQuad,
    cal: LocalCalendar,
    other: K,
)
    requires
        other != key,
    ensures
        m.observed(key, hour_start, ts_ms, metrics, cal).completed_of(other) == m.completed_of(
            other,
        ),
        get(m.observed(key, hour_start, ts_ms, metrics, cal).current, other) == get(
            m.current,
            other,
        ),
{
    let point = CurrentHourPointState { ts_ms, metrics };
    let (start, points) = get_or(m.current, key, (hour_start, Seq::empty()));
    law_put_get_other(m.current, key, (hour_start, points.push(point)), other);
    law_put_get_other(m.current, key, (hour_start, seq![point]), other);
    let done = m.completed_of(key).push(summary(start, cal.hour_of(start).1, metrics_of(points)));
    law_put_get_other(m.completed, key, done, other);
}

/// After a point, the running hour of its series is that of the point, and ends with it.
pub proof fn law_observe_is_last<K>(
    m: SeriesModel<K>,
    key: K,
    hour_start: u64,
    ts_ms: u64,
    metrics: CounterQuad,
    cal: LocalCalendar,
)
    ensures
        get(m.observed(key, hour_start, ts_ms, metrics, cal).current, key) matches Some((h, p))
            && h == hour_start && p.len() > 0 && p.last() == (CurrentHourPointState {
            ts_ms,
            metrics,
        }),
{
    let point = CurrentHourPointState { ts_ms, metrics };
    let (start, points) = get_or(m.current, key, (hour_start, Seq::empty()));
    law_put_get(m.current, key, (hour_start, points.push(point)));
    law_put_get(m.current, key, (hour_start, seq![point]));
}

/// An hourly query hands out its buckets in the order of their starts, and neither loses nor
/// adds one: they are the completed hours in the range, and the running one if it is in it.
pub proof fn law_hourly_is_ordered<K>(
    m: SeriesModel<K>,
    key: K,
    start_ms: u64,
    end_ms: u64,
    cal: LocalCalendar,
)
    ensures
        m.hourly(key, start_ms, end_ms, cal).to_multiset() == m.hourly_unsorted(
            key,
            start_ms,
            end_ms,
            cal,
        ).to_multiset(),
        forall|i: int, j: int|
            0 <= i <= j < m.hourly(key, start_ms, end_ms, cal).len() ==> (#[trigger] m.hourly(
                key,
                start_ms,
                end_ms,
                cal,
            )[i]).start_ts_ms <= (#[trigger] m.hourly(key, start_ms, end_ms, cal)[j]).start_ts_ms,
{
    law_by_start(m.hourly_unsorted(key, start_ms, end_ms, cal));
}

/// The bucket lies within the day on which it starts.
pub open spec fn within_day(b: AggregatedBucket, cal: LocalCalendar) -> bool {
    cal.day_of(b.start_ts_ms).0 <= b.start_ts_ms && b.end_ts_ms <= cal.day_of(b.start_ts_ms).1
}

proof fn lemma_overlapping_all(s: Seq<AggregatedBucket>, start_ms: u64, end_ms: u64)
    requires
        forall|i: int| 0 <= i < s.len() ==> overlaps(#[trigger] s[i], start_ms, end_ms),
    ensures
        overlapping(s, start_ms, end_ms) == s,
    decreases s.len(),
{
    if s.len() > 0 {
        let init = s.drop_last();
        assert forall|i: int| 0 <= i < init.len() implies overlaps(
            #[trigger] init[i],
            start_ms,
            end_ms,
        ) by {
            assert(init[i] == s[i]);
        }
        lemma_overlapping_all(init, start_ms, end_ms);
        assert(overlaps(s[s.len() - 1], start_ms, end_ms));
        assert(init.push(s.last()) =~= s);
    }
}

proof fn lemma_hourly_overlaps<K>(
    m: SeriesModel<K>,
    key: K,
    start_ms: u64,
    end_ms: u64,
    cal: LocalCalendar,
)
    requires
        get(m.current, key) matches Some((hour_start, _)) ==> cal.hour_of(
            cal.hour_of(hour_start).0,
        ) == cal.hour_of(hour_start),
    ensures
        forall|i: int|
            0 <= i < m.hourly(key, start_ms, end_ms, cal).len() ==> overlaps(
                #[trigger] m.hourly(key, start_ms, end_ms, cal)[i],
                start_ms,
                end_ms,
            ),
{
    broadcast use vstd::seq_lib::group_to_multiset_ensures;

    let plain = m.hourly_unsorted(key, start_ms, end_ms, cal);
    let h = m.hourly(key, start_ms, end_ms, cal);
    let kept = overlapping(m.completed_of(key), start_ms, end_ms);
    law_kept_overlap(m.completed_of(key), start_ms, end_ms);
    law_hourly_is_ordered(m, key, start_ms, end_ms, cal);
    assert forall|i: int| 0 <= i < h.len() implies overlaps(
        #[trigger] h[i],
        start_ms,
        end_ms,
    ) by {
        assert(h.contains(h[i]));
        assert(plain.to_multiset().count(h[i]) > 0);
        let k = plain.index_of(h[i]);
        assert(plain[k] == h[i]);
        if k < kept.len() {
            assert(plain[k] == kept[k]);
        }
    }
}

/// A daily query, where the calendar is consistent and each hourly bucket of the same query lies
/// within one day, gives one bucket for each day on which one of these starts, in ascending
/// order: with the bounds of the day, made of the hourly buckets of the day, with the sum of
/// their bytes. All days together have the bytes of all hours.
pub proof fn law_daily_query<K>(
    m: SeriesModel<K>,
    key: K,
    start_ms: u64,
    end_ms: u64,
    cal: LocalCalendar,
)
    requires
        days_agree(m.hourly(key, start_ms, end_ms, cal), cal),
        forall|i: int|
            0 <= i < m.hourly(key, start_ms, end_ms, cal).len() ==> within_day(
                #[trigger] m.hourly(key, start_ms, end_ms, cal)[i],
                cal,
            ),
        get(m.current, key) matches Some((hour_start, _)) ==> cal.hour_of(
            cal.hour_of(hour_start).0,
        ) == cal.hour_of(hour_start),
    ensures
        ({
            let h = m.hourly(key, start_ms, end_ms, cal);
            let d = m.daily(key, start_ms, end_ms, cal);
            &&& forall|j: int, k: int|
                0 <= j < k < d.len() ==> (#[trigger] d[j]).start_ts_ms < (
                #[trigger] d[k]).start_ts_ms
            &&& forall|k: int|
                0 <= k < d.len() ==> {
                    let those = on_day(h, (#[trigger] d[k]).start_ts_ms, cal);
                    &&& those.len() > 0
                    &&& d[k] == day_bucket((d[k].start_ts_ms, d[k].end_ts_ms), those)
                    &&& bytes_added(zero_quad(), d[k]) == bucket_bytes_total(those)
                }
            &&& forall|i: int|
                0 <= i < h.len() ==> exists|k: int|
                    0 <= k < d.len() && ((#[trigger] d[k]).start_ts_ms, d[k].end_ts_ms)
                        == cal.day_of((#[trigger] h[i]).start_ts_ms)
            &&& bucket_bytes_total(d) == bucket_bytes_total(h)
        }),
{
    let h = m.hourly(key, start_ms, end_ms, cal);
    let d = daily(h, cal);
    law_hourly_is_ordered(m, key, start_ms, end_ms, cal);
    assert(starts_ascend(h));
    law_daily_by_day(h, cal);
    law_daily_keeps_bytes(h, cal);
    lemma_hourly_overlaps(m, key, start_ms, end_ms, cal);
    assert forall|k: int| 0 <= k < d.len() implies overlaps(
        #[trigger] d[k],
        start_ms,
        end_ms,
    ) by {
        let day = d[k].start_ts_ms;
        let those = on_day(h, day, cal);
        lemma_first_on_day(h, day, cal);
        assert(h.contains(those[0]));
        let i = h.index_of(those[0]);
        assert(h[i] == those[0]);
        assert(within_day(h[i], cal) && overlaps(h[i], start_ms, end_ms));
        let j = choose|j: int|
            0 <= j < d.len() && ((#[trigger] d[j]).start_ts_ms, d[j].end_ts_ms) == cal.day_of(
                h[i].start_ts_ms,
            );
        if j < k {
            assert(d[j].start_ts_ms < d[k].start_ts_ms);
        } else if k < j {
            assert(d[k].start_ts_ms < d[j].start_ts_ms);
        }
    }
    lemma_overlapping_all(d, start_ms, end_ms);
    assert(m.daily(key, start_ms, end_ms, cal) == d);
}

/// Saving the points of the running hour and taking them in again gives them back, where they
/// are of the running hour.
pub proof fn law_current_hour_round_trip<K>(
    saved: Seq<(K, (u64, Seq<CurrentHourPointState>))>,
    hour_start: u64,
)
    requires
        unique_keys(saved),
        forall|i: int| 0 <= i < saved.len() ==> (#[trigger] saved[i]).1.0 == hour_start,
    ensures
        restored(SeriesModel::empty(), saved, hour_start).current == saved,
    decreases saved.len(),
{
    if saved.len() > 0 {
        let init = saved.drop_last();
        assert forall|i: int| 0 <= i < init.len() implies (#[trigger] init[i]).1.0
            == hour_start by {
            assert(init[i] == saved[i]);
        }
        law_current_hour_round_trip(init, hour_start);
        let last = saved.last();
        assert forall|j: int| 0 <= j < init.len() implies (#[trigger] init[j]).0 != last.0 by {
            assert(init[j] == saved[j]);
        }
        lemma_absent(init, last.0);
        assert(saved[saved.len() - 1].1.0 == hour_start);
        assert(init.push(last) =~= saved);
    } else {
        assert(saved =~= Seq::empty());
    }
}

/// The history with saved points of the running hour taken in, those that are of another hour
/// left out.
pub open spec fn restored<K>(
    m: SeriesModel<K>,
    saved: Seq<(K, (u64, Seq<CurrentHourPointState>))>,
    expected_start: u64,
) -> SeriesModel<K>
    decreases saved.len(),
{
    if saved.len() == 0 {
        m
    } else {
        let (key, (hour_start, points)) = saved.last();
        restored(m, saved.drop_last(), expected_start).with_current(
            key,
            hour_start,
            points,
            expected_start,
        )
    }
}

/// The counters of one series among those of several.
pub open spec fn metrics_for<K>(items: Seq<(K, CounterQuad)>, key: K) -> Seq<CounterQuad>
    decreases items.len(),
{
    if items.len() == 0 {
        Seq::empty()
    } else if items.last().0 == key {
        metrics_for(items.drop_last(), key).push(items.last().1)
    } else {
        metrics_for(items.drop_last(), key)
    }
}

proof fn lemma_no_bytes(before: CounterQuad)
    ensures
        bytes_added(before, summary(0, 0, Seq::empty())) == before,
{
    let none = Seq::<CounterQuad>::empty();
    assert(up_v4_bytes_of(none) =~= Seq::empty());
    assert(down_v4_bytes_of(none) =~= Seq::empty());
    assert(up_v6_bytes_of(none) =~= Seq::empty());
    assert(down_v6_bytes_of(none) =~= Seq::empty());
}

/// Every point of a snapshot counts once for its series and for no other.
pub proof fn law_snapshot_counts_once<K>(
    m: SeriesModel<K>,
    items: Seq<(K, CounterQuad)>,
    hour_start: u64,
    ts_ms: u64,
    cal: LocalCalendar,
    key: K,
)
    ensures
        m.observed_all(items, hour_start, ts_ms, cal).bytes_of(key) == bytes_added(
            m.bytes_of(key),
            summary(0, 0, metrics_for(items, key)),
        ),
    decreases items.len(),
{
    if items.len() == 0 {
        lemma_no_bytes(m.bytes_of(key));
    } else {
        let init = items.drop_last();
        law_snapshot_counts_once(m, init, hour_start, ts_ms, cal, key);
        let before = m.observed_all(init, hour_start, ts_ms, cal);
        let (k, metrics) = items.last();
        if k == key {
            law_observe_counts_once(before, key, hour_start, ts_ms, metrics, cal);
            let some = metrics_for(init, key);
            assert(metrics_for(items, key) =~= some + seq![metrics]);
            law_summary_splits(m.bytes_of(key), some, seq![metrics], (0, 0), (0, 0), (0, 0));
        } else {
            law_observe_leaves_others(before, k, hour_start, ts_ms, metrics, cal, key);
        }
    }
}

/// A query over all times answers for every byte: the bytes of its buckets are those of the
/// series, in its completed hours and in the one that runs.
pub proof fn law_full_query_counts_everything<K>(m: SeriesModel<K>, key: K, cal: LocalCalendar)
    ensures
        bucket_bytes_total(m.hourly(key, 0, u64::MAX, cal)) == m.bytes_of(key),
{
    let all = m.hourly_unsorted(key, 0, u64::MAX, cal);
    law_sorting_keeps_bytes(all);
    law_full_range_keeps_all(m.completed_of(key));
    let completed = m.completed_of(key);
    let points = m.points_of(key);
    if points.len() > 0 {
        assert(all.drop_last() =~= completed);
        let samples = metrics_of(points);
        let none = Seq::<CounterQuad>::empty();
        let (hour_start, _) = get(m.current, key)->Some_0;
        let start = cal.hour_of(hour_start).0;
        let before = bucket_bytes_total(completed);
        assert(none + samples =~= samples);
        law_summary_splits(before, none, samples, (0, 0), (0, 0), (start, cal.hour_of(start).1));
        lemma_no_bytes(before);
    } else {
        assert(metrics_of(points) =~= Seq::empty());
        lemma_no_bytes(bucket_bytes_total(completed));
        assert(all =~= completed);
    }
}

/// The total of a series: the points of its running hour where it has one, else its completed
/// hours. No other series may have the same key among the totals.
pub proof fn lemma_totals_of_series<K: SeriesKey>(
    completed: Seq<(K::V, Seq<AggregatedBucket>)>,
    current: Seq<(K::V, (u64, Seq<CurrentHourPointState>))>,
    key: K::V,
)
    requires
        unique_keys(completed),
        unique_keys(current),
        forall|i: int|
            0 <= i < completed.len() && K::total_key((#[trigger] completed[i]).0) == K::total_key(
                key,
            ) ==> completed[i].0 == key,
        forall|i: int|
            0 <= i < current.len() && K::total_key((#[trigger] current[i]).0) == K::total_key(key)
                ==> current[i].0 == key,
    ensures
        get(running_totals::<K>(completed_totals::<K>(completed), current), K::total_key(key))
            == match get(current, key) {
            Some((_, points)) => Some(quad_total(metrics_of(points))),
            None => match get(completed, key) {
                Some(hours) => Some(bucket_bytes_total(hours)),
                None => None,
            },
        },
    decreases current.len(),
{
    let before = completed_totals::<K>(completed);
    if current.len() == 0 {
        lemma_absent(current, key);
        lemma_completed_total::<K>(completed, key);
    } else {
        let init = current.drop_last();
        let last = current.last();
        assert forall|i: int|
            0 <= i < init.len() && K::total_key((#[trigger] init[i]).0) == K::total_key(
                key,
            ) implies init[i].0 == key by {
            assert(init[i] == current[i]);
        }
        assert(unique_keys(init));
        lemma_totals_of_series::<K>(completed, init, key);
        let totals = running_totals::<K>(before, init);
        let value = quad_total(metrics_of(last.1.1));
        assert(current =~= init.push(last));
        lemma_get_push(init, last, key);
        assert(current[current.len() - 1] == last);
        if last.0 == key {
            law_put_get(totals, K::total_key(key), value);
            assert forall|j: int| 0 <= j < init.len() implies (#[trigger] init[j]).0 != key by {
                assert(current[j].0 != current[current.len() - 1].0);
            }
            lemma_absent(init, key);
        } else {
            law_put_get_other(totals, K::total_key(last.0), value, K::total_key(key));
        }
    }
}

proof fn lemma_completed_total<K: SeriesKey>(
    completed: Seq<(K::V, Seq<AggregatedBucket>)>,
    key: K::V,
)
    requires
        unique_keys(completed),
        forall|i: int|
            0 <= i < completed.len() && K::total_key((#[trigger] completed[i]).0) == K::total_key(
                key,
            ) ==> completed[i].0 == key,
    ensures
        get(completed_totals::<K>(completed), K::total_key(key)) == match get(completed, key) {
            Some(hours) => Some(bucket_bytes_total(hours)),
            None => None,
        },
    decreases completed.len(),
{
    if completed.len() == 0 {
        lemma_absent(completed, key);
        lemma_absent(completed_totals::<K>(completed), K::total_key(key));
    } else {
        let init = completed.drop_last();
        let last = completed.last();
        assert forall|i: int|
            0 <= i < init.len() && K::total_key((#[trigger] init[i]).0) == K::total_key(
                key,
            ) implies init[i].0 == key by {
            assert(init[i] == completed[i]);
        }
        assert(unique_keys(init));
        lemma_completed_total::<K>(init, key);
        let totals = completed_totals::<K>(init);
        let value = bucket_bytes_total(last.1);
        assert(completed =~= init.push(last));
        lemma_get_push(init, last, key);
        assert(completed[completed.len() - 1] == last);
        if last.0 == key {
            law_put_get(totals, K::total_key(key), value);
            assert forall|j: int| 0 <= j < init.len() implies (#[trigger] init[j]).0 != key by {
                assert(completed[j].0 != completed[completed.len() - 1].0);
            }
            lemma_absent(init, key);
        } else {
            law_put_get_other(totals, K::total_key(last.0), value, K::total_key(key));
        }
    }
}

/// A point of the hour that runs, or of the first hour of a series, joins the points of that hour,
/// behind them; no hour is completed by it.
pub proof fn law_point_joins_hour<K>(
    m: SeriesModel<K>,
    key: K,
    hour_start: u64,
    ts_ms: u64,
    metrics: CounterQuad,
    cal: LocalCalendar,
)
    requires
        get(m.current, key) matches Some((start, _)) ==> start == hour_start,
    ensures
        ({
            let after = m.observed(key, hour_start, ts_ms, metrics, cal);
            let (start, points) = get(after.current, key)->0;
            &&& after.completed == m.completed
            &&& get(after.current, key) is Some
            &&& start == hour_start
            &&& points.len() == m.points_of(key).len() + 1
            &&& points.drop_last() =~= m.points_of(key)
            &&& points.last().ts_ms == ts_ms
            &&& points.last().metrics == metrics
        }),
{
    let point = CurrentHourPointState { ts_ms, metrics };
    let (start, points) = get_or(m.current, key, (hour_start, Seq::empty()));
    law_put_get(m.current, key, (hour_start, points.push(point)));
    assert(points.push(point).drop_last() =~= points);
}

/// A point of another hour completes the one that ran: one more bucket stands behind those of the
/// series, from the start of that hour to its end, with the bytes of all its points and their
/// highest and lowest rates. The point is the first of its own hour.
pub proof fn law_hour_is_completed<K>(
    m: SeriesModel<K>,
    key: K,
    hour_start: u64,
    ts_ms: u64,
    metrics: CounterQuad,
    cal: LocalCalendar,
)
    requires
        get(m.current, key) matches Some((start, points)) && start != hour_start && points.len()
            > 0,
    ensures
        ({
            let (start, points) = get(m.current, key)->0;
            let samples = metrics_of(points);
            let after = m.observed(key, hour_start, ts_ms, metrics, cal);
            let hours = after.completed_of(key);
            let b = hours.last();
            let (next, running) = get(after.current, key)->0;
            &&& hours.len() == m.completed_of(key).len() + 1
            &&& hours.drop_last() =~= m.completed_of(key)
            &&& b.start_ts_ms == start
            &&& b.end_ts_ms == cal.hour_of(start).1
            &&& forall|v: u8, d: u8|
                #![trigger bucket_lane(b, v, d)]
                is_lane(v, d) ==> bucket_lane(b, v, d).0 == capped(bytes_sum(samples, v, d))
            &&& forall|v: u8, d: u8, i: int|
                #![trigger rate_in(samples[i], v, d)]
                is_lane(v, d) && 0 <= i < samples.len() ==> bucket_lane(b, v, d).2 <= rate_in(
                    samples[i],
                    v,
                    d,
                ) <= bucket_lane(b, v, d).3
            &&& next == hour_start
            &&& running.len() == 1
            &&& running[0].ts_ms == ts_ms
            &&& running[0].metrics == metrics
        }),
{
    let (start, points) = get(m.current, key)->0;
    let samples = metrics_of(points);
    let point = CurrentHourPointState { ts_ms, metrics };
    let b = summary(start, cal.hour_of(start).1, samples);
    let hours = m.completed_of(key).push(b);
    law_put_get(m.completed, key, hours);
    law_put_get(m.current, key, (hour_start, seq![point]));
    assert(hours.drop_last() =~= m.completed_of(key));
    law_bucket_of_samples(start, cal.hour_of(start).1, samples);
    lemma_sums_by_lane(samples);
    assert forall|v: u8, d: u8| #![trigger bucket_lane(b, v, d)] is_lane(v, d) implies bucket_lane(
        b,
        v,
        d,
    ).0 == capped(bytes_sum(samples, v, d)) by {
        assert(is_lane(v, d));
    }
    assert forall|v: u8, d: u8, i: int|
        #![trigger rate_in(samples[i], v, d)]
        is_lane(v, d) && 0 <= i < samples.len() implies bucket_lane(b, v, d).2 <= rate_in(
        samples[i],
        v,
        d,
    ) <= bucket_lane(b, v, d).3 by {
        assert(is_lane(v, d));
    }
}

proof fn lemma_sums_by_lane(s: Seq<CounterQuad>)
    ensures
        sum_of(s, |q: CounterQuad| q.up_v4_bytes) == bytes_sum(s, 4, 1),
        sum_of(s, |q: CounterQuad| q.down_v4_bytes) == bytes_sum(s, 4, 2),
        sum_of(s, |q: CounterQuad| q.up_v6_bytes) == bytes_sum(s, 6, 1),
        sum_of(s, |q: CounterQuad| q.down_v6_bytes) == bytes_sum(s, 6, 2),
    decreases s.len(),
{
    if s.len() > 0 {
        lemma_sums_by_lane(s.drop_last());
    }
}

/// The hour that runs is among the buckets of a range where it has points and an instant of it
/// lies in the range. Its bucket has the bytes of the points; no other bucket is there but the
/// completed ones of the range.
pub proof fn law_running_hour_is_shown<K>(
    m: SeriesModel<K>,
    key: K,
    start_ms: u64,
    end_ms: u64,
    cal: LocalCalendar,
)
    requires
        start_ms <= end_ms,
        get(m.current, key) matches Some((start, _)) ==> cal.hour_of(start).0 == start && start
            <= cal.hour_of(start).1,
    ensures
        ({
            let hours = m.hourly(key, start_ms, end_ms, cal);
            let kept = overlapping(m.completed_of(key), start_ms, end_ms);
            match get(m.current, key) {
                Some((start, points)) => {
                    let end = cal.hour_of(start).1;
                    let b = summary(start, end, metrics_of(points));
                    &&& points.len() > 0 && (exists|t: int| #[trigger]
                        instant_in_both(t, b, start_ms, end_ms)) ==> hours.to_multiset()
                        == kept.to_multiset().insert(b)
                    &&& points.len() == 0 || !(exists|t: int| #[trigger]
                        instant_in_both(t, b, start_ms, end_ms)) ==> hours.to_multiset()
                        == kept.to_multiset()
                },
                None => hours.to_multiset() == kept.to_multiset(),
            }
        }),
{
    broadcast use vstd::seq_lib::group_to_multiset_ensures;

    law_hourly_is_ordered(m, key, start_ms, end_ms, cal);
    if let Some((start, points)) = get(m.current, key) {
        let b = summary(start, cal.hour_of(start).1, metrics_of(points));
        law_bucket_of_samples(start, cal.hour_of(start).1, metrics_of(points));
        law_kept_by_instant(Seq::empty(), b, start_ms, end_ms);
    }
}


} // verus!
