//! The recent history of interfaces, devices and addresses, point by point.
use std::collections::VecDeque;

use vstd::prelude::*;

use crate::bucket::{CurrentHourPointState, HistoryDirection, HistoryTrafficType};
use crate::calendar::{hourly_bucket_local, may_be_hour};
use crate::counters::{
    add_quad, bytes_in, law_quad_add_associates, law_quad_add_commutes, quad_add, zero_quad,
    CounterQuad,
};
use crate::items::{
    sample_of, to_sample, DeviceShown, HistoryPoint, HistorySample, InterfaceShown, IpShown,
    SnapshotData, SnapshotShown,
};
use crate::keys::{DeviceSeriesKey, IpSeriesKey};
use crate::ring::recent;
use crate::sort::{keys_ascend, law_sort_orders, law_sort_stable, sort_keyed, stable_sort, with_key};
use crate::table::{
    get, get_or, law_put_get, law_put_get_other, law_put_keeps_unique, put, unique_keys, Table,
    TableKey,
};
use crate::text::{lower, same_text_ignoring_case};

verus! {

/// Drops the oldest points until at most `max_points` are left.
pub fn trim_history_queue(queue: &mut VecDeque<HistoryPoint>, max_points: usize)
    ensures
        final(queue)@ == recent(old(queue)@, max_points as nat),
{
    trim_histogram_completed(queue, max_points);
}

/// Drops the oldest items until at most `max_buckets` are left.
pub fn trim_histogram_completed<T>(queue: &mut VecDeque<T>, max_buckets: usize)
    ensures
        final(queue)@ == recent(old(queue)@, max_buckets as nat),
{
    while queue.len() > max_buckets
        invariant
            queue@.len() <= old(queue)@.len(),
            queue@ == old(queue)@.subrange(
                old(queue)@.len() - queue@.len(),
                old(queue)@.len() as int,
            ),
            queue@.len() >= max_buckets || queue@ == old(queue)@,
        decreases queue@.len(),
    {
        let ghost before = queue@;
        let _ = queue.pop_front();
        assert(queue@ =~= before.subrange(1, before.len() as int));
        assert(queue@ =~= old(queue)@.subrange(
            old(queue)@.len() - queue@.len(),
            old(queue)@.len() as int,
        ));
    }
    assert(queue@ =~= recent(old(queue)@, max_buckets as nat));
}

/// The points of a series, as they are handed out.
pub open spec fn samples(s: Seq<HistoryPoint>) -> Seq<HistorySample> {
    s.map_values(|p: HistoryPoint| sample_of(p.ts_ms, p.metrics, p.cumulative))
}

/// The points of a series, as they are handed out.
pub fn series_to_samples(series: &VecDeque<HistoryPoint>) -> (r: Vec<HistorySample>)
    ensures
        r@ == samples(series@),
{
    let mut r: Vec<HistorySample> = Vec::new();
    let n = series.len();
    let mut i: usize = 0;
    while i < n
        invariant
            i <= n,
            n == series@.len(),
            r@ == samples(series@.take(i as int)),
        decreases n - i,
    {
        let p = &series[i];
        r.push(to_sample(p.ts_ms, &p.metrics, &p.cumulative));
        i += 1;
        assert(r@ =~= samples(series@.take(i as int)));
    }
    assert(series@.take(i as int) =~= series@);
    r
}

/// The series with one more point in each of some of them, cut to their most recent points.
pub open spec fn ingested<K>(
    series: Seq<(K, Seq<HistoryPoint>)>,
    items: Seq<(K, HistoryPoint)>,
    max_points: nat,
) -> Seq<(K, Seq<HistoryPoint>)>
    decreases items.len(),
{
    if items.len() == 0 {
        series
    } else {
        let before = ingested(series, items.drop_last(), max_points);
        let (key, point) = items.last();
        put(before, key, recent(get_or(before, key, Seq::empty()).push(point), max_points))
    }
}

/// The points that a snapshot adds to the series of interfaces.
pub open spec fn iface_history(s: SnapshotShown) -> Seq<(u32, HistoryPoint)> {
    s.interfaces.map_values(
        |i: InterfaceShown|
            (
                i.ifindex,
                HistoryPoint {
                    ts_ms: s.timestamp_ms,
                    metrics: i.metrics,
                    cumulative: i.cumulative,
                },
            ),
    )
}

/// The points that a snapshot adds to the series of devices.
pub open spec fn device_history(s: SnapshotShown) -> Seq<((u32, Seq<char>), HistoryPoint)> {
    s.devices.map_values(
        |d: DeviceShown|
            (
                (d.ifindex, d.mac),
                HistoryPoint {
                    ts_ms: s.timestamp_ms,
                    metrics: d.metrics,
                    cumulative: d.cumulative,
                },
            ),
    )
}

/// The points that a snapshot adds to the series of addresses.
pub open spec fn ip_history(s: SnapshotShown) -> Seq<((u32, Seq<char>), HistoryPoint)> {
    s.ips.map_values(
        |i: IpShown|
            (
                (i.ifindex, i.ip_addr),
                HistoryPoint {
                    ts_ms: s.timestamp_ms,
                    metrics: i.metrics,
                    cumulative: i.cumulative,
                },
            ),
    )
}

/// The most recent points of each interface, device and address.
pub struct TrafficHistory {
    pub iface_series: Table<u32, VecDeque<HistoryPoint>>,
    pub device_series: Table<DeviceSeriesKey, VecDeque<HistoryPoint>>,
    pub ip_series: Table<IpSeriesKey, VecDeque<HistoryPoint>>,
    pub _max_points: usize,
}

/// What a point history holds.
#[verifier::ext_equal]
pub struct HistoryModel {
    pub iface: Seq<(u32, Seq<HistoryPoint>)>,
    pub device: Seq<((u32, Seq<char>), Seq<HistoryPoint>)>,
    pub ip: Seq<((u32, Seq<char>), Seq<HistoryPoint>)>,
    pub max_points: nat,
}

impl View for TrafficHistory {
    type V = HistoryModel;

    open spec fn view(&self) -> HistoryModel {
        HistoryModel {
            iface: self.iface_series.model(),
            device: self.device_series.model(),
            ip: self.ip_series.model(),
            max_points: self._max_points as nat,
        }
    }
}

impl HistoryModel {
    /// No series is held twice.
    pub open spec fn distinct(self) -> bool {
        unique_keys(self.iface) && unique_keys(self.device) && unique_keys(self.ip)
    }

    /// The history with the points of a snapshot.
    pub open spec fn with_snapshot(self, s: SnapshotShown) -> HistoryModel {
        HistoryModel {
            iface: ingested(self.iface, iface_history(s), self.max_points),
            device: ingested(self.device, device_history(s), self.max_points),
            ip: ingested(self.ip, ip_history(s), self.max_points),
            max_points: self.max_points,
        }
    }
}

/// Adds a point to a series and cuts it to its most recent points.
fn ingest_point<K: TableKey>(
    series: &mut Table<K, VecDeque<HistoryPoint>>,
    key: K,
    point: HistoryPoint,
    max_points: usize,
)
    ensures
        final(series).model() == put(
            old(series).model(),
            key@,
            recent(
                get_or(old(series).model(), key@, Seq::empty()).push(point),
                max_points as nat,
            ),
        ),
{
    let none: VecDeque<HistoryPoint> = VecDeque::new();
    assert(none@ =~= Seq::empty());
    let queue = series.slot(key, none);
    queue.push_back(point);
    trim_history_queue(queue, max_points);
}

proof fn lemma_ingested_unique<K>(
    s: Seq<(K, Seq<HistoryPoint>)>,
    items: Seq<(K, HistoryPoint)>,
    max_points: nat,
)
    requires
        unique_keys(s),
    ensures
        unique_keys(ingested(s, items, max_points)),
    decreases items.len(),
{
    if items.len() > 0 {
        let before = ingested(s, items.drop_last(), max_points);
        let (key, point) = items.last();
        lemma_ingested_unique(s, items.drop_last(), max_points);
        law_put_keeps_unique(
            before,
            key,
            recent(get_or(before, key, Seq::empty()).push(point), max_points),
        );
    }
}

/// Taking in a snapshot keeps the series distinct.
pub proof fn law_history_stays_distinct(m: HistoryModel, s: SnapshotShown)
    requires
        m.distinct(),
    ensures
        m.with_snapshot(s).distinct(),
{
    lemma_ingested_unique(m.iface, iface_history(s), m.max_points);
    lemma_ingested_unique(m.device, device_history(s), m.max_points);
    lemma_ingested_unique(m.ip, ip_history(s), m.max_points);
}

impl TrafficHistory {
    /// A history that keeps `max_points` points of each series.
    pub fn new(max_points: usize) -> (h: TrafficHistory)
        ensures
            h@ == (HistoryModel {
                iface: Seq::empty(),
                device: Seq::empty(),
                ip: Seq::empty(),
                max_points: max_points as nat,
            }),
            h@.distinct(),
    {
        TrafficHistory {
            iface_series: Table::new(),
            device_series: Table::new(),
            ip_series: Table::new(),
            _max_points: max_points,
        }
    }

    /// Takes in the points of a snapshot.
    pub fn ingest_snapshot(&mut self, snapshot: &SnapshotData)
        ensures
            final(self)@ == old(self)@.with_snapshot(snapshot@),
            old(self)@.distinct() ==> final(self)@.distinct(),
    {
        let ts_ms = snapshot.timestamp_ms;
        let max_points = self._max_points;

        let ghost before = self@;
        let ghost all = iface_history(snapshot@);
        let n = snapshot.interfaces.len();
        let mut i: usize = 0;
        while i < n
            invariant
                i <= n,
                n == snapshot.interfaces@.len(),
                ts_ms == snapshot.timestamp_ms,
                max_points == before.max_points,
                all == iface_history(snapshot@),
                self@ == (HistoryModel {
                    iface: ingested(before.iface, all.take(i as int), max_points as nat),
                    ..before
                }),
            decreases n - i,
        {
            let item = &snapshot.interfaces[i];
            let point = HistoryPoint {
                ts_ms,
                metrics: item.metrics,
                cumulative: item.cumulative,
            };
            ingest_point(&mut self.iface_series, item.ifindex, point, max_points);
            i += 1;
            assert(all.take(i as int).drop_last() =~= all.take(i - 1));
            assert(all[i - 1] == (item.ifindex, point));
        }
        assert(all.take(i as int) =~= all);

        let ghost before = self@;
        let ghost all = device_history(snapshot@);
        let n = snapshot.devices.len();
        let mut i: usize = 0;
        while i < n
            invariant
                i <= n,
                n == snapshot.devices@.len(),
                ts_ms == snapshot.timestamp_ms,
                max_points == before.max_points,
                all == device_history(snapshot@),
                self@ == (HistoryModel {
                    device: ingested(before.device, all.take(i as int), max_points as nat),
                    ..before
                }),
            decreases n - i,
        {
            let item = &snapshot.devices[i];
            let key = DeviceSeriesKey { ifindex: item.ifindex, mac: item.mac.clone() };
            let point = HistoryPoint {
                ts_ms,
                metrics: item.metrics,
                cumulative: item.cumulative,
            };
            ingest_point(&mut self.device_series, key, point, max_points);
            i += 1;
            assert(all.take(i as int).drop_last() =~= all.take(i - 1));
            assert(all[i - 1] == ((item.ifindex, item.mac@), point));
        }
        assert(all.take(i as int) =~= all);

        let ghost before = self@;
        let ghost all = ip_history(snapshot@);
        let n = snapshot.ips.len();
        let mut i: usize = 0;
        while i < n
            invariant
                i <= n,
                n == snapshot.ips@.len(),
                ts_ms == snapshot.timestamp_ms,
                max_points == before.max_points,
                all == ip_history(snapshot@),
                self@ == (HistoryModel {
                    ip: ingested(before.ip, all.take(i as int), max_points as nat),
                    ..before
                }),
            decreases n - i,
        {
            let item = &snapshot.ips[i];
            let key = IpSeriesKey { ifindex: item.ifindex, ip: item.ip_addr.clone() };
            let point = HistoryPoint {
                ts_ms,
                metrics: item.metrics,
                cumulative: item.cumulative,
            };
            ingest_point(&mut self.ip_series, key, point, max_points);
            i += 1;
            assert(all.take(i as int).drop_last() =~= all.take(i - 1));
            assert(all[i - 1] == ((item.ifindex, item.ip_addr@), point));
        }
        assert(all.take(i as int) =~= all);
        proof {
            if old(self)@.distinct() {
                law_history_stays_distinct(old(self)@, snapshot@);
            }
        }
    }

    /// The history of an interface. All of it is handed out, whatever IP version and direction
    /// are asked for.
    pub fn query_iface(
        &self,
        ifindex: u32,
        _traffic_type: HistoryTrafficType,
        _direction: HistoryDirection,
    ) -> (r: Vec<HistorySample>)
        ensures
            r@ == samples(get_or(self@.iface, ifindex, Seq::empty())),
    {
        match self.iface_series.get(&ifindex) {
            Some(series) => series_to_samples(series),
            None => {
                let none: Vec<HistorySample> = Vec::new();
                assert(none@ =~= samples(Seq::empty()));
                none
            },
        }
    }
}

/// Counters of a moment: what it added, and the totals until then.
pub type Moment = (u64, (CounterQuad, CounterQuad));

/// `s`, which is in the order of time, with a point taken in: added to what is there for its
/// time, or put in where it belongs.
pub open spec fn merged_in(s: Seq<Moment>, p: HistoryPoint) -> Seq<Moment>
    decreases s.len(),
{
    if s.len() == 0 || s.last().0 < p.ts_ms {
        s.push(
            (p.ts_ms, (quad_add(zero_quad(), p.metrics), quad_add(zero_quad(), p.cumulative))),
        )
    } else if s.last().0 == p.ts_ms {
        s.drop_last().push(
            (p.ts_ms, (quad_add(s.last().1.0, p.metrics), quad_add(s.last().1.1, p.cumulative))),
        )
    } else {
        merged_in(s.drop_last(), p).push(s.last())
    }
}

/// Points added up by their times, in the order of time.
pub open spec fn merged(points: Seq<HistoryPoint>) -> Seq<Moment>
    decreases points.len(),
{
    if points.len() == 0 {
        Seq::empty()
    } else {
        merged_in(merged(points.drop_last()), points.last())
    }
}

/// The series is one that is asked for: by its name in any case, and by its interface where one
/// is given.
pub open spec fn asked_for(key: (u32, Seq<char>), ifindex: Option<u32>, name: Seq<char>) -> bool {
    &&& ifindex matches Some(i) ==> key.0 == i
    &&& lower(key.1) == lower(name)
}

/// The points of all series that are asked for.
pub open spec fn points_asked_for(
    series: Seq<((u32, Seq<char>), Seq<HistoryPoint>)>,
    ifindex: Option<u32>,
    name: Seq<char>,
) -> Seq<HistoryPoint>
    decreases series.len(),
{
    if series.len() == 0 {
        Seq::empty()
    } else {
        let before = points_asked_for(series.drop_last(), ifindex, name);
        if asked_for(series.last().0, ifindex, name) {
            before + series.last().1
        } else {
            before
        }
    }
}

/// Moments, as they are handed out.
pub open spec fn moment_samples(s: Seq<Moment>) -> Seq<HistorySample> {
    s.map_values(|m: Moment| sample_of(m.0, m.1.0, m.1.1))
}

/// The history of all series that are asked for, added up by time.
pub open spec fn merged_history(
    series: Seq<((u32, Seq<char>), Seq<HistoryPoint>)>,
    ifindex: Option<u32>,
    name: Seq<char>,
) -> Seq<HistorySample> {
    moment_samples(merged(points_asked_for(series, ifindex, name)))
}

/// Times ascend, without repetition.
pub open spec fn times_ascend(s: Seq<Moment>) -> bool {
    forall|i: int, j: int| 0 <= i < j < s.len() ==> (#[trigger] s[i]).0 < (#[trigger] s[j]).0
}

proof fn lemma_merged_in_before(s: Seq<Moment>, p: HistoryPoint, at: int)
    requires
        0 <= at <= s.len(),
        forall|j: int| at <= j < s.len() ==> (#[trigger] s[j]).0 > p.ts_ms,
    ensures
        merged_in(s, p) == merged_in(s.take(at), p) + s.subrange(at, s.len() as int),
    decreases s.len(),
{
    if at == s.len() {
        assert(s.take(at) =~= s);
        assert(s.subrange(at, s.len() as int) =~= Seq::empty());
        assert(merged_in(s, p) + Seq::<Moment>::empty() =~= merged_in(s, p));
    } else {
        let init = s.drop_last();
        assert forall|j: int| at <= j < init.len() implies (#[trigger] init[j]).0 > p.ts_ms by {
            assert(init[j] == s[j]);
        }
        lemma_merged_in_before(init, p, at);
        assert(init.take(at) =~= s.take(at));
        assert(s[s.len() - 1].0 > p.ts_ms);
        assert(init.subrange(at, init.len() as int).push(s.last()) =~= s.subrange(
            at,
            s.len() as int,
        ));
        assert((merged_in(s.take(at), p) + init.subrange(at, init.len() as int)).push(s.last())
            =~= merged_in(s.take(at), p) + s.subrange(at, s.len() as int));
    }
}

/// Takes a point in among moments that are in the order of time.
fn merge_point(moments: &mut Vec<Moment>, p: &HistoryPoint)
    requires
        times_ascend(old(moments)@),
    ensures
        final(moments)@ == merged_in(old(moments)@, *p),
{
    let ghost before = moments@;
    let mut at: usize = moments.len();
    while at > 0 && moments[at - 1].0 > p.ts_ms
        invariant
            at <= moments.len(),
            moments@ == before,
            forall|j: int| at <= j < moments@.len() ==> (#[trigger] moments@[j]).0 > p.ts_ms,
        decreases at,
    {
        at -= 1;
    }
    proof {
        lemma_merged_in_before(before, *p, at as int);
    }
    if at > 0 && moments[at - 1].0 == p.ts_ms {
        let mut metrics = moments[at - 1].1.0;
        let mut cumulative = moments[at - 1].1.1;
        add_quad(&mut metrics, &p.metrics);
        add_quad(&mut cumulative, &p.cumulative);
        moments[at - 1] = (p.ts_ms, (metrics, cumulative));
        assert(before.take(at as int).last() == before[at - 1]);
        assert(moments@ =~= merged_in(before.take(at as int), *p) + before.subrange(
            at as int,
            before.len() as int,
        ));
    } else {
        let mut metrics = CounterQuad::default();
        let mut cumulative = CounterQuad::default();
        add_quad(&mut metrics, &p.metrics);
        add_quad(&mut cumulative, &p.cumulative);
        moments.insert(at, (p.ts_ms, (metrics, cumulative)));
        if at > 0 {
            assert(before.take(at as int).last() == before[at - 1]);
        }
        assert(moments@ =~= merged_in(before.take(at as int), *p) + before.subrange(
            at as int,
            before.len() as int,
        ));
    }
}

proof fn lemma_merged_in_ascends(s: Seq<Moment>, p: HistoryPoint)
    requires
        times_ascend(s),
    ensures
        times_ascend(merged_in(s, p)),
        merged_in(s, p).len() > 0,
        merged_in(s, p).last().0 == if s.len() > 0 && s.last().0 > p.ts_ms {
            s.last().0
        } else {
            p.ts_ms
        },
    decreases s.len(),
{
    if s.len() > 0 && s.last().0 > p.ts_ms {
        let init = s.drop_last();
        lemma_merged_in_ascends(init, p);
        let r = merged_in(init, p);
        assert forall|i: int| 0 <= i < r.len() implies (#[trigger] r[i]).0 < s.last().0 by {
            if init.len() > 0 {
                assert(init[init.len() - 1] == s[s.len() - 2]);
            }
            if i < r.len() - 1 {
                assert(r[i].0 < r[r.len() - 1].0);
            }
        }
    }
}

/// Merged moments are in the order of time, one for each time.
pub proof fn law_merged_ascends(points: Seq<HistoryPoint>)
    ensures
        times_ascend(merged(points)),
    decreases points.len(),
{
    if points.len() > 0 {
        law_merged_ascends(points.drop_last());
        lemma_merged_in_ascends(merged(points.drop_last()), points.last());
    }
}

/// A series key that is an interface and a name.
pub trait NamedKey: TableKey + View<V = (u32, Seq<char>)> {
    /// The interface.
    fn ifindex(&self) -> (r: u32)
        ensures
            r == self@.0,
    ;

    /// The name.
    fn name(&self) -> (r: &str)
        ensures
            r@ == self@.1,
    ;
}

impl NamedKey for DeviceSeriesKey {
    fn ifindex(&self) -> (r: u32) {
        self.ifindex
    }

    fn name(&self) -> (r: &str) {
        self.mac.as_str()
    }
}

impl NamedKey for IpSeriesKey {
    fn ifindex(&self) -> (r: u32) {
        self.ifindex
    }

    fn name(&self) -> (r: &str) {
        self.ip.as_str()
    }
}

/// The history of all series that are asked for, added up by time.
fn merge_history<K: NamedKey>(
    series: &Table<K, VecDeque<HistoryPoint>>,
    ifindex: Option<u32>,
    name: &str,
) -> (r: Vec<HistorySample>)
    ensures
        r@ == merged_history(series.model(), ifindex, name@),
{
    let mut moments: Vec<Moment> = Vec::new();
    let n = series.entries.len();
    let mut i: usize = 0;
    let ghost all = series.model();
    while i < n
        invariant
            i <= n,
            n == series.entries@.len(),
            all == series.model(),
            moments@ == merged(points_asked_for(all.take(i as int), ifindex, name@)),
        decreases n - i,
    {
        let entry = &series.entries[i];
        let ghost before = points_asked_for(all.take(i as int), ifindex, name@);
        assert(all.take(i + 1).drop_last() =~= all.take(i as int));
        assert(all[i as int] == (entry.0@, entry.1@));
        let wanted = match ifindex {
            Some(expected) => entry.0.ifindex() == expected,
            None => true,
        };
        if wanted && same_text_ignoring_case(entry.0.name(), name) {
            let points = &entry.1;
            let m = points.len();
            let mut j: usize = 0;
            assert(before + points@.take(0) =~= before);
            while j < m
                invariant
                    j <= m,
                    m == points@.len(),
                    moments@ == merged(before + points@.take(j as int)),
                decreases m - j,
            {
                proof {
                    law_merged_ascends(before + points@.take(j as int));
                    assert((before + points@.take(j + 1)).drop_last() =~= before + points@.take(
                        j as int,
                    ));
                }
                merge_point(&mut moments, &points[j]);
                j += 1;
            }
            assert(points@.take(j as int) =~= points@);
        }
        i += 1;
    }
    assert(all.take(i as int) =~= all);
    let mut r: Vec<HistorySample> = Vec::new();
    let n = moments.len();
    let mut i: usize = 0;
    while i < n
        invariant
            i <= n,
            n == moments@.len(),
            r@ == moment_samples(moments@.take(i as int)),
        decreases n - i,
    {
        let m = &moments[i];
        r.push(to_sample(m.0, &m.1.0, &m.1.1));
        i += 1;
        assert(r@ =~= moment_samples(moments@.take(i as int)));
    }
    assert(moments@.take(i as int) =~= moments@);
    r
}

impl TrafficHistory {
    /// The history of a device by its MAC address, on one interface or on all of them together.
    /// All of it is handed out, whatever IP version and direction are asked for.
    pub fn query_device(
        &self,
        ifindex: Option<u32>,
        mac: &str,
        _traffic_type: HistoryTrafficType,
        _direction: HistoryDirection,
    ) -> (r: Vec<HistorySample>)
        ensures
            r@ == merged_history(self@.device, ifindex, mac@),
    {
        merge_history(&self.device_series, ifindex, mac)
    }

    /// The history of an address, on one interface or on all of them together. All of it is
    /// handed out, whatever IP version and direction are asked for.
    pub fn query_ip(
        &self,
        ifindex: Option<u32>,
        ip: &str,
        _traffic_type: HistoryTrafficType,
        _direction: HistoryDirection,
    ) -> (r: Vec<HistorySample>)
        ensures
            r@ == merged_history(self@.ip, ifindex, ip@),
    {
        merge_history(&self.ip_series, ifindex, ip)
    }
}

/// The counters that moments hold for a time.
pub open spec fn moment_of(s: Seq<Moment>, ts_ms: u64) -> Option<(CounterQuad, CounterQuad)>
    decreases s.len(),
{
    if s.len() == 0 {
        None
    } else if s.last().0 == ts_ms {
        Some(s.last().1)
    } else {
        moment_of(s.drop_last(), ts_ms)
    }
}

/// The counters of all points of a time added up, where there is one.
pub open spec fn added_at(points: Seq<HistoryPoint>, ts_ms: u64) -> Option<
    (CounterQuad, CounterQuad),
>
    decreases points.len(),
{
    if points.len() == 0 {
        None
    } else {
        let before = added_at(points.drop_last(), ts_ms);
        let p = points.last();
        if p.ts_ms != ts_ms {
            before
        } else {
            let (m, c) = match before {
                Some(q) => q,
                None => (zero_quad(), zero_quad()),
            };
            Some((quad_add(m, p.metrics), quad_add(c, p.cumulative)))
        }
    }
}

proof fn lemma_moment_absent(s: Seq<Moment>, ts_ms: u64)
    requires
        forall|i: int| 0 <= i < s.len() ==> (#[trigger] s[i]).0 != ts_ms,
    ensures
        moment_of(s, ts_ms) is None,
    decreases s.len(),
{
    if s.len() > 0 {
        assert(s[s.len() - 1].0 != ts_ms);
        lemma_moment_absent(s.drop_last(), ts_ms);
    }
}

proof fn lemma_merged_in_moment(s: Seq<Moment>, p: HistoryPoint, ts_ms: u64)
    requires
        times_ascend(s),
    ensures
        moment_of(merged_in(s, p), ts_ms) == if p.ts_ms != ts_ms {
            moment_of(s, ts_ms)
        } else {
            let (m, c) = match moment_of(s, ts_ms) {
                Some(q) => q,
                None => (zero_quad(), zero_quad()),
            };
            Some((quad_add(m, p.metrics), quad_add(c, p.cumulative)))
        },
    decreases s.len(),
{
    reveal_with_fuel(moment_of, 2);
    let r = merged_in(s, p);
    if s.len() == 0 || s.last().0 < p.ts_ms {
        assert(r.drop_last() =~= s);
        if p.ts_ms == ts_ms {
            assert forall|i: int| 0 <= i < s.len() implies (#[trigger] s[i]).0 != ts_ms by {
                if i < s.len() - 1 {
                    assert(s[i].0 < s[s.len() - 1].0);
                }
            }
            lemma_moment_absent(s, ts_ms);
        }
    } else if s.last().0 == p.ts_ms {
        assert(r.drop_last() =~= s.drop_last());
    } else {
        lemma_merged_in_moment(s.drop_last(), p, ts_ms);
        assert(r.drop_last() =~= merged_in(s.drop_last(), p));
    }
}

/// The counters of a merged moment are those of all points of its time added up, and there is a
/// moment for each time that has a point.
pub proof fn law_merged_adds_up(points: Seq<HistoryPoint>, ts_ms: u64)
    ensures
        moment_of(merged(points), ts_ms) == added_at(points, ts_ms),
    decreases points.len(),
{
    if points.len() > 0 {
        let init = points.drop_last();
        law_merged_adds_up(init, ts_ms);
        law_merged_ascends(init);
        lemma_merged_in_moment(merged(init), points.last(), ts_ms);
    }
}

/// Counters and totals that may be missing, added up.
pub open spec fn joined(
    a: Option<(CounterQuad, CounterQuad)>,
    b: Option<(CounterQuad, CounterQuad)>,
) -> Option<(CounterQuad, CounterQuad)> {
    match (a, b) {
        (Some(x), Some(y)) => Some((quad_add(x.0, y.0), quad_add(x.1, y.1))),
        (Some(x), None) => Some(x),
        (None, y) => y,
    }
}

/// What interfaces have, added up.
pub open spec fn joined_over(
    has: spec_fn(u32) -> Option<(CounterQuad, CounterQuad)>,
    interfaces: Seq<u32>,
) -> Option<(CounterQuad, CounterQuad)>
    decreases interfaces.len(),
{
    if interfaces.len() == 0 {
        None
    } else {
        joined(joined_over(has, interfaces.drop_last()), has(interfaces.last()))
    }
}

proof fn lemma_joined_is_sum(
    a: Option<(CounterQuad, CounterQuad)>,
    b: Option<(CounterQuad, CounterQuad)>,
    c: Option<(CounterQuad, CounterQuad)>,
)
    ensures
        joined(a, b) == joined(b, a),
        joined(joined(a, b), c) == joined(a, joined(b, c)),
{
    if let (Some(x), Some(y)) = (a, b) {
        law_quad_add_commutes(x.0, y.0);
        law_quad_add_commutes(x.1, y.1);
        if let Some(z) = c {
            law_quad_add_associates(x.0, y.0, z.0);
            law_quad_add_associates(x.1, y.1, z.1);
        }
    }
}

proof fn lemma_added_concat(a: Seq<HistoryPoint>, b: Seq<HistoryPoint>, ts_ms: u64)
    ensures
        added_at(a + b, ts_ms) == joined(added_at(a, ts_ms), added_at(b, ts_ms)),
    decreases b.len(),
{
    if b.len() == 0 {
        assert(a + b =~= a);
    } else {
        let init = b.drop_last();
        let p = b.last();
        lemma_added_concat(a, init, ts_ms);
        assert((a + b).drop_last() =~= a + init);
        if p.ts_ms == ts_ms {
            let point = Some((p.metrics, p.cumulative));
            lemma_added_point(added_at(a + init, ts_ms), p);
            lemma_added_point(added_at(init, ts_ms), p);
            lemma_joined_is_sum(added_at(a, ts_ms), added_at(init, ts_ms), point);
        }
    }
}

proof fn lemma_added_point(before: Option<(CounterQuad, CounterQuad)>, p: HistoryPoint)
    ensures
        ({
            let (m, c) = match before {
                Some(q) => q,
                None => (zero_quad(), zero_quad()),
            };
            Some((quad_add(m, p.metrics), quad_add(c, p.cumulative))) == joined(
                before,
                Some((p.metrics, p.cumulative)),
            )
        }),
{
}

proof fn lemma_joined_with_one_more(
    has: spec_fn(u32) -> Option<(CounterQuad, CounterQuad)>,
    more: spec_fn(u32) -> Option<(CounterQuad, CounterQuad)>,
    interfaces: Seq<u32>,
    at: u32,
    x: Option<(CounterQuad, CounterQuad)>,
)
    requires
        interfaces.no_duplicates(),
        forall|i: u32| i != at ==> #[trigger] more(i) == has(i),
        more(at) == joined(has(at), x),
    ensures
        joined_over(more, interfaces) == if interfaces.contains(at) {
            joined(joined_over(has, interfaces), x)
        } else {
            joined_over(has, interfaces)
        },
    decreases interfaces.len(),
{
    if interfaces.len() > 0 {
        let init = interfaces.drop_last();
        let last = interfaces.last();
        lemma_joined_with_one_more(has, more, init, at, x);
        let before = joined_over(has, init);
        if last == at {
            assert(interfaces[interfaces.len() - 1] == at);
            assert(!init.contains(at));
            lemma_joined_is_sum(before, has(at), x);
        } else {
            assert(more(last) == has(last));
            if interfaces.contains(at) {
                let k = interfaces.index_of(at);
                assert(init[k] == at);
                lemma_joined_is_sum(before, x, has(last));
                lemma_joined_is_sum(x, has(last), None);
                lemma_joined_is_sum(before, has(last), x);
            } else if init.contains(at) {
                let k = init.index_of(at);
                assert(interfaces[k] == at);
            }
        }
    }
}

/// The counters and totals that the history of all series that are asked for has for a time.
pub open spec fn history_at(
    series: Seq<((u32, Seq<char>), Seq<HistoryPoint>)>,
    ifindex: Option<u32>,
    name: Seq<char>,
    ts_ms: u64,
) -> Option<(CounterQuad, CounterQuad)> {
    moment_of(merged(points_asked_for(series, ifindex, name)), ts_ms)
}

proof fn lemma_added_over_interfaces(
    series: Seq<((u32, Seq<char>), Seq<HistoryPoint>)>,
    name: Seq<char>,
    interfaces: Seq<u32>,
    ts_ms: u64,
)
    requires
        interfaces.no_duplicates(),
        forall|k: int|
            0 <= k < series.len() && lower((#[trigger] series[k]).0.1) == lower(name)
                ==> interfaces.contains(series[k].0.0),
    ensures
        added_at(points_asked_for(series, None, name), ts_ms) == joined_over(
            |i: u32| added_at(points_asked_for(series, Some(i), name), ts_ms),
            interfaces,
        ),
    decreases series.len(),
{
    let more = |i: u32| added_at(points_asked_for(series, Some(i), name), ts_ms);
    if series.len() == 0 {
        lemma_joined_nothing(more, interfaces);
    } else {
        let init = series.drop_last();
        let (key, points) = series.last();
        assert forall|k: int| 0 <= k < init.len() && lower((#[trigger] init[k]).0.1) == lower(
            name,
        ) implies interfaces.contains(init[k].0.0) by {
            assert(init[k] == series[k]);
        }
        lemma_added_over_interfaces(init, name, interfaces, ts_ms);
        let has = |i: u32| added_at(points_asked_for(init, Some(i), name), ts_ms);
        if lower(key.1) == lower(name) {
            assert(interfaces.contains(series[series.len() - 1].0.0));
            lemma_added_concat(points_asked_for(init, None, name), points, ts_ms);
            lemma_added_concat(points_asked_for(init, Some(key.0), name), points, ts_ms);
            assert forall|i: u32| i != key.0 implies #[trigger] more(i) == has(i) by {}
            lemma_joined_with_one_more(has, more, interfaces, key.0, added_at(points, ts_ms));
        } else {
            assert forall|i: u32| i != key.0 implies #[trigger] more(i) == has(i) by {}
            lemma_joined_is_sum(has(key.0), None, None);
            lemma_joined_with_one_more(has, more, interfaces, key.0, None);
            lemma_joined_is_sum(joined_over(has, interfaces), None, None);
        }
    }
}

proof fn lemma_joined_nothing(
    has: spec_fn(u32) -> Option<(CounterQuad, CounterQuad)>,
    interfaces: Seq<u32>,
)
    requires
        forall|i: u32| #[trigger] has(i) is None,
    ensures
        joined_over(has, interfaces) is None,
    decreases interfaces.len(),
{
    if interfaces.len() > 0 {
        lemma_joined_nothing(has, interfaces.drop_last());
    }
}

proof fn lemma_joined_some(
    has: spec_fn(u32) -> Option<(CounterQuad, CounterQuad)>,
    interfaces: Seq<u32>,
)
    ensures
        joined_over(has, interfaces) is Some <==> exists|k: int|
            0 <= k < interfaces.len() && has(#[trigger] interfaces[k]) is Some,
    decreases interfaces.len(),
{
    if interfaces.len() > 0 {
        let init = interfaces.drop_last();
        lemma_joined_some(has, init);
        if joined_over(has, init) is Some {
            let k = choose|k: int| 0 <= k < init.len() && has(#[trigger] init[k]) is Some;
            assert(interfaces[k] == init[k]);
        }
        if has(interfaces.last()) is Some {
            assert(has(interfaces[interfaces.len() - 1]) is Some);
        }
        if exists|k: int| 0 <= k < interfaces.len() && has(#[trigger] interfaces[k]) is Some {
            let k = choose|k: int|
                0 <= k < interfaces.len() && has(#[trigger] interfaces[k]) is Some;
            if k < init.len() {
                assert(has(init[k]) is Some);
            }
        }
    }
}

proof fn lemma_joined_same(
    has: spec_fn(u32) -> Option<(CounterQuad, CounterQuad)>,
    same: spec_fn(u32) -> Option<(CounterQuad, CounterQuad)>,
    interfaces: Seq<u32>,
)
    requires
        forall|i: u32| #[trigger] has(i) == same(i),
    ensures
        joined_over(has, interfaces) == joined_over(same, interfaces),
    decreases interfaces.len(),
{
    if interfaces.len() > 0 {
        lemma_joined_same(has, same, interfaces.drop_last());
        assert(has(interfaces.last()) == same(interfaces.last()));
    }
}

/// The history over all interfaces is that of each interface, added up by time: it has the times
/// that one of them has, and at each the sum of what they have.
pub proof fn law_history_adds_up_over_interfaces(
    series: Seq<((u32, Seq<char>), Seq<HistoryPoint>)>,
    name: Seq<char>,
    interfaces: Seq<u32>,
    ts_ms: u64,
)
    requires
        interfaces.no_duplicates(),
        forall|k: int|
            0 <= k < series.len() && lower((#[trigger] series[k]).0.1) == lower(name)
                ==> interfaces.contains(series[k].0.0),
    ensures
        history_at(series, None, name, ts_ms) == joined_over(
            |i: u32| history_at(series, Some(i), name, ts_ms),
            interfaces,
        ),
        history_at(series, None, name, ts_ms) is Some <==> exists|k: int|
            0 <= k < interfaces.len() && history_at(
                series,
                Some(#[trigger] interfaces[k]),
                name,
                ts_ms,
            ) is Some,
{
    lemma_added_over_interfaces(series, name, interfaces, ts_ms);
    law_merged_adds_up(points_asked_for(series, None, name), ts_ms);
    let has = |i: u32| added_at(points_asked_for(series, Some(i), name), ts_ms);
    let same = |i: u32| history_at(series, Some(i), name, ts_ms);
    assert forall|i: u32| #[trigger] has(i) == same(i) by {
        law_merged_adds_up(points_asked_for(series, Some(i), name), ts_ms);
    }
    lemma_joined_same(has, same, interfaces);
    lemma_joined_some(same, interfaces);
    if exists|k: int| 0 <= k < interfaces.len() && same(#[trigger] interfaces[k]) is Some {
        let k = choose|k: int| 0 <= k < interfaces.len() && same(#[trigger] interfaces[k]) is Some;
        assert(history_at(series, Some(interfaces[k]), name, ts_ms) is Some);
    }
}

proof fn lemma_moment_at(s: Seq<Moment>, i: int)
    requires
        times_ascend(s),
        0 <= i < s.len(),
    ensures
        moment_of(s, s[i].0) == Some(s[i].1),
    decreases s.len(),
{
    if i < s.len() - 1 {
        assert(s[i].0 < s[s.len() - 1].0);
        assert(s.drop_last()[i] == s[i]);
        lemma_moment_at(s.drop_last(), i);
    }
}

proof fn lemma_moment_found(s: Seq<Moment>, ts_ms: u64)
    requires
        moment_of(s, ts_ms) is Some,
    ensures
        exists|i: int| 0 <= i < s.len() && (#[trigger] s[i]).0 == ts_ms,
    decreases s.len(),
{
    if s.last().0 == ts_ms {
        assert(s[s.len() - 1].0 == ts_ms);
    } else {
        lemma_moment_found(s.drop_last(), ts_ms);
        let i = choose|i: int|
            0 <= i < s.drop_last().len() && (#[trigger] s.drop_last()[i]).0 == ts_ms;
        assert(s[i].0 == ts_ms);
    }
}

/// The history has one sample for each time that it has, in ascending order of time, and each
/// shows the counters of its time.
pub proof fn law_history_by_time(
    series: Seq<((u32, Seq<char>), Seq<HistoryPoint>)>,
    ifindex: Option<u32>,
    name: Seq<char>,
)
    ensures
        ({
            let r = merged_history(series, ifindex, name);
            &&& forall|i: int, j: int|
                0 <= i < j < r.len() ==> (#[trigger] r[i]).ts_ms < (#[trigger] r[j]).ts_ms
            &&& forall|i: int|
                0 <= i < r.len() ==> (history_at(
                    series,
                    ifindex,
                    name,
                    (#[trigger] r[i]).ts_ms,
                ) matches Some(q) && r[i] == sample_of(r[i].ts_ms, q.0, q.1))
            &&& forall|ts: u64| #[trigger]
                history_at(series, ifindex, name, ts) is Some ==> exists|i: int|
                    0 <= i < r.len() && (#[trigger] r[i]).ts_ms == ts
        }),
{
    let s = merged(points_asked_for(series, ifindex, name));
    law_merged_ascends(points_asked_for(series, ifindex, name));
    let r = merged_history(series, ifindex, name);
    assert forall|i: int, j: int| 0 <= i < j < r.len() implies (#[trigger] r[i]).ts_ms < (
    #[trigger] r[j]).ts_ms by {
        assert(s[i].0 < s[j].0);
    }
    assert forall|i: int| 0 <= i < r.len() implies (history_at(
        series,
        ifindex,
        name,
        (#[trigger] r[i]).ts_ms,
    ) matches Some(q) && r[i] == sample_of(r[i].ts_ms, q.0, q.1)) by {
        lemma_moment_at(s, i);
        assert(r[i] == sample_of(s[i].0, s[i].1.0, s[i].1.1));
    }
    assert forall|ts: u64| #[trigger] history_at(series, ifindex, name, ts) is Some implies exists|
        i: int,
    |
        0 <= i < r.len() && (#[trigger] r[i]).ts_ms == ts by {
        lemma_moment_found(s, ts);
        let i = choose|i: int| 0 <= i < s.len() && (#[trigger] s[i]).0 == ts;
        assert(r[i].ts_ms == ts);
    }
}

proof fn lemma_points_in_any_case(
    series: Seq<((u32, Seq<char>), Seq<HistoryPoint>)>,
    ifindex: Option<u32>,
    name: Seq<char>,
    other: Seq<char>,
)
    requires
        lower(name) == lower(other),
    ensures
        points_asked_for(series, ifindex, name) == points_asked_for(series, ifindex, other),
    decreases series.len(),
{
    if series.len() > 0 {
        lemma_points_in_any_case(series.drop_last(), ifindex, name, other);
    }
}

/// The history is the same for names that differ in case alone.
pub proof fn law_history_in_any_case(
    series: Seq<((u32, Seq<char>), Seq<HistoryPoint>)>,
    ifindex: Option<u32>,
    name: Seq<char>,
    other: Seq<char>,
)
    requires
        lower(name) == lower(other),
    ensures
        merged_history(series, ifindex, name) == merged_history(series, ifindex, other),
{
    lemma_points_in_any_case(series, ifindex, name, other);
}

/// The points of one series among those of several.
pub open spec fn points_for<K>(items: Seq<(K, HistoryPoint)>, key: K) -> Seq<HistoryPoint>
    decreases items.len(),
{
    if items.len() == 0 {
        Seq::empty()
    } else if items.last().0 == key {
        points_for(items.drop_last(), key).push(items.last().1)
    } else {
        points_for(items.drop_last(), key)
    }
}

/// History keeps the most recent points: what a series holds after more points were taken in
/// are the last of its old and new points together, at most as many as it may hold.
pub proof fn law_history_keeps_recent<K>(
    series: Seq<(K, Seq<HistoryPoint>)>,
    items: Seq<(K, HistoryPoint)>,
    max_points: nat,
    key: K,
)
    requires
        get_or(series, key, Seq::empty()).len() <= max_points,
    ensures
        get_or(ingested(series, items, max_points), key, Seq::empty()) == recent(
            get_or(series, key, Seq::empty()) + points_for(items, key),
            max_points,
        ),
    decreases items.len(),
{
    let old_points = get_or(series, key, Seq::empty());
    if items.len() == 0 {
        assert(old_points + Seq::<HistoryPoint>::empty() =~= old_points);
    } else {
        let init = items.drop_last();
        law_history_keeps_recent(series, init, max_points, key);
        let before = ingested(series, init, max_points);
        let (k, point) = items.last();
        let next = recent(get_or(before, k, Seq::empty()).push(point), max_points);
        if k == key {
            law_put_get(before, key, next);
            let all = old_points + points_for(init, key);
            assert(old_points + points_for(items, key) =~= all.push(point));
            assert(recent(recent(all, max_points).push(point), max_points) =~= recent(
                all.push(point),
                max_points,
            ));
        } else {
            law_put_get_other(before, k, next, key);
        }
    }
}

/// The first of each run of neighbours with the same key.
pub open spec fn first_of_runs<T>(s: Seq<(u64, T)>) -> Seq<(u64, T)>
    decreases s.len(),
{
    if s.len() == 0 {
        s
    } else {
        let before = first_of_runs(s.drop_last());
        if before.len() > 0 && before.last().0 == s.last().0 {
            before
        } else {
            before.push(s.last())
        }
    }
}

/// The points of an hour, each with its time as its key.
pub open spec fn keyed_points(
    points: Seq<CurrentHourPointState>,
    hour: (u64, u64),
) -> Seq<(u64, CounterQuad)>
    decreases points.len(),
{
    if points.len() == 0 {
        Seq::empty()
    } else {
        let before = keyed_points(points.drop_last(), hour);
        let p = points.last();
        if hour.0 <= p.ts_ms <= hour.1 {
            before.push((p.ts_ms, p.metrics))
        } else {
            before
        }
    }
}

/// Points of history without totals.
pub open spec fn without_totals(s: Seq<(u64, CounterQuad)>) -> Seq<HistoryPoint> {
    s.map_values(
        |p: (u64, CounterQuad)|
            HistoryPoint { ts_ms: p.0, metrics: p.1, cumulative: zero_quad() },
    )
}

/// Saved points brought in order: those of the hour, by time, the first of each time.
pub open spec fn normalized(
    points: Seq<CurrentHourPointState>,
    hour: (u64, u64),
) -> Seq<HistoryPoint> {
    without_totals(first_of_runs(stable_sort(keyed_points(points, hour))))
}

/// Brings saved points of an hour in order. There are none where the hour is not the given one,
/// or where none of the points is of it.
pub fn normalize_points_in(
    hour_start_ts_ms: u64,
    points: &Vec<CurrentHourPointState>,
    hour: (u64, u64),
) -> (r: Option<(u64, Vec<HistoryPoint>)>)
    ensures
        match r {
            Some((start, restored)) => hour_start_ts_ms == hour.0 && start == hour_start_ts_ms
                && restored@ == normalized(points@, hour) && restored@.len() > 0,
            None => hour_start_ts_ms != hour.0 || normalized(points@, hour).len() == 0,
        },
{
    let (expected_start, expected_end) = hour;
    if hour_start_ts_ms != expected_start {
        return None;
    }
    let mut keyed: Vec<(u64, CounterQuad)> = Vec::new();
    let n = points.len();
    let mut i: usize = 0;
    while i < n
        invariant
            i <= n,
            n == points@.len(),
            hour == (expected_start, expected_end),
            keyed@ == keyed_points(points@.take(i as int), hour),
        decreases n - i,
    {
        let p = points[i];
        if p.ts_ms >= expected_start && p.ts_ms <= expected_end {
            keyed.push((p.ts_ms, p.metrics));
        }
        i += 1;
        assert(points@.take(i as int).drop_last() =~= points@.take(i - 1));
    }
    assert(points@.take(i as int) =~= points@);
    let sorted = sort_keyed(keyed);
    let mut restored: Vec<HistoryPoint> = Vec::new();
    let n = sorted.len();
    let mut i: usize = 0;
    assert(sorted@.take(0) =~= Seq::empty());
    assert(restored@ =~= without_totals(Seq::empty()));
    while i < n
        invariant
            i <= n,
            n == sorted@.len(),
            restored@ == without_totals(first_of_runs(sorted@.take(i as int))),
        decreases n - i,
    {
        let p = sorted[i];
        let ghost kept = first_of_runs(sorted@.take(i as int));
        let m = restored.len();
        if m == 0 || restored[m - 1].ts_ms != p.0 {
            restored.push(
                HistoryPoint { ts_ms: p.0, metrics: p.1, cumulative: CounterQuad::default() },
            );
            assert(restored@ =~= without_totals(kept.push(p)));
        }
        i += 1;
        assert(sorted@.take(i as int).drop_last() =~= sorted@.take(i - 1));
    }
    assert(sorted@.take(i as int) =~= sorted@);
    if restored.len() == 0 {
        return None;
    }
    Some((hour_start_ts_ms, restored))
}

/// Brings saved points of an hour in order. There are none where it is not the local hour of
/// `now_ms`, or where none of the points is of it.
pub fn normalize_current_hour_points(
    hour_start_ts_ms: u64,
    points: Vec<CurrentHourPointState>,
    now_ms: u64,
) -> (r: Option<(u64, Vec<HistoryPoint>)>)
    ensures
        exists|hour: (u64, u64)| #[trigger]
            may_be_hour(now_ms, hour) && match r {
                Some((start, restored)) => hour_start_ts_ms == hour.0 && start == hour_start_ts_ms
                    && restored@ == normalized(points@, hour) && restored@.len() > 0,
                None => hour_start_ts_ms != hour.0 || normalized(points@, hour).len() == 0,
            },
{
    let hour = hourly_bucket_local(now_ms);
    normalize_points_in(hour_start_ts_ms, &points, hour)
}

proof fn lemma_runs_ascend(s: Seq<(u64, CounterQuad)>)
    requires
        keys_ascend(s),
    ensures
        forall|i: int, j: int|
            0 <= i < j < first_of_runs(s).len() ==> (#[trigger] first_of_runs(s)[i]).0 < (
            #[trigger] first_of_runs(s)[j]).0,
        s.len() > 0 ==> first_of_runs(s).len() > 0 && first_of_runs(s).last().0 == s.last().0,
    decreases s.len(),
{
    if s.len() > 0 {
        let init = s.drop_last();
        assert forall|i: int, j: int| 0 <= i <= j < init.len() implies (#[trigger] init[i]).0 <= (
        #[trigger] init[j]).0 by {
            assert(s[i].0 <= s[j].0);
        }
        lemma_runs_ascend(init);
        if init.len() > 0 {
            assert(s[s.len() - 2].0 <= s[s.len() - 1].0);
        }
        let before = first_of_runs(init);
        let runs = first_of_runs(s);
        assert forall|i: int, j: int| 0 <= i < j < runs.len() implies (#[trigger] runs[i]).0 < (
        #[trigger] runs[j]).0 by {
            if j < before.len() {
                assert(before[i].0 < before[j].0);
            } else if i < before.len() - 1 {
                assert(before[i].0 < before[before.len() - 1].0);
            }
        }
    }
}

/// Points brought in order have ascending times, no two the same.
pub proof fn law_normalized_ascends(points: Seq<CurrentHourPointState>, hour: (u64, u64))
    ensures
        forall|i: int, j: int|
            0 <= i < j < normalized(points, hour).len() ==> (#[trigger] normalized(
                points,
                hour,
            )[i]).ts_ms < (#[trigger] normalized(points, hour)[j]).ts_ms,
{
    let keyed = keyed_points(points, hour);
    law_sort_orders(keyed);
    let runs = first_of_runs(stable_sort(keyed));
    lemma_runs_ascend(stable_sort(keyed));
    assert forall|i: int, j: int| 0 <= i < j < normalized(points, hour).len() implies (
    #[trigger] normalized(points, hour)[i]).ts_ms < (#[trigger] normalized(
        points,
        hour,
    )[j]).ts_ms by {
        assert(runs[i].0 < runs[j].0);
    }
}

impl Default for TrafficHistory {
    fn default() -> (h: TrafficHistory)
        ensures
            h@ == (HistoryModel {
                iface: Seq::empty(),
                device: Seq::empty(),
                ip: Seq::empty(),
                max_points: 0,
            }),
    {
        TrafficHistory::new(0)
    }
}

/// The last point of a series is this one.
pub open spec fn ends_with(
    points: Seq<HistoryPoint>,
    ts_ms: u64,
    metrics: CounterQuad,
    cumulative: CounterQuad,
) -> bool {
    points.len() > 0 && points.last().ts_ms == ts_ms && points.last().metrics == metrics
        && points.last().cumulative == cumulative
}

proof fn lemma_point_enters<K>(
    series: Seq<(K, Seq<HistoryPoint>)>,
    items: Seq<(K, HistoryPoint)>,
    max_points: nat,
    at: int,
)
    requires
        max_points > 0,
        0 <= at < items.len(),
        forall|j: int| at < j < items.len() ==> (#[trigger] items[j]).0 != items[at].0,
    ensures
        ({
            let points = get_or(ingested(series, items, max_points), items[at].0, Seq::empty());
            points.len() > 0 && points.last() == items[at].1
        }),
    decreases items.len(),
{
    let init = items.drop_last();
    let before = ingested(series, init, max_points);
    let (key, point) = items.last();
    let next = recent(get_or(before, key, Seq::empty()).push(point), max_points);
    if at == items.len() - 1 {
        law_put_get(before, key, next);
    } else {
        assert(init[at] == items[at]);
        assert forall|j: int| at < j < init.len() implies (#[trigger] init[j]).0 != init[at].0 by {
            assert(items[j].0 != items[at].0);
        }
        lemma_point_enters(series, init, max_points, at);
        assert(items[items.len() - 1].0 != items[at].0);
        law_put_get_other(before, key, next, items[at].0);
    }
}

proof fn lemma_point_of_others<K>(
    series: Seq<(K, Seq<HistoryPoint>)>,
    items: Seq<(K, HistoryPoint)>,
    max_points: nat,
    key: K,
)
    requires
        forall|j: int| 0 <= j < items.len() ==> (#[trigger] items[j]).0 != key,
    ensures
        get(ingested(series, items, max_points), key) == get(series, key),
    decreases items.len(),
{
    if items.len() > 0 {
        let init = items.drop_last();
        assert forall|j: int| 0 <= j < init.len() implies (#[trigger] init[j]).0 != key by {
            assert(items[j].0 != key);
        }
        lemma_point_of_others(series, init, max_points, key);
        let before = ingested(series, init, max_points);
        let (k, point) = items.last();
        assert(items[items.len() - 1].0 != key);
        law_put_get_other(
            before,
            k,
            recent(get_or(before, k, Seq::empty()).push(point), max_points),
            key,
        );
    }
}

/// What a snapshot shows of an interface is the last point of its series, with the time of the
/// snapshot.
pub proof fn law_snapshot_enters_interface_history(m: HistoryModel, s: SnapshotShown, at: int)
    requires
        m.max_points > 0,
        0 <= at < s.interfaces.len(),
        forall|j: int|
            at < j < s.interfaces.len() ==> (#[trigger] s.interfaces[j]).ifindex
                != s.interfaces[at].ifindex,
    ensures
        ends_with(
            get_or(m.with_snapshot(s).iface, s.interfaces[at].ifindex, Seq::empty()),
            s.timestamp_ms,
            s.interfaces[at].metrics,
            s.interfaces[at].cumulative,
        ),
{
    let items = iface_history(s);
    assert forall|j: int| at < j < items.len() implies (#[trigger] items[j]).0 != items[at].0 by {
        assert(s.interfaces[j].ifindex != s.interfaces[at].ifindex);
    }
    lemma_point_enters(m.iface, items, m.max_points, at);
}

/// What a snapshot shows of a device is the last point of the series of its interface and MAC
/// address, with the time of the snapshot.
pub proof fn law_snapshot_enters_device_history(m: HistoryModel, s: SnapshotShown, at: int)
    requires
        m.max_points > 0,
        0 <= at < s.devices.len(),
        forall|j: int|
            at < j < s.devices.len() ==> ((#[trigger] s.devices[j]).ifindex, s.devices[j].mac) != (
                s.devices[at].ifindex,
                s.devices[at].mac,
            ),
    ensures
        ends_with(
            get_or(
                m.with_snapshot(s).device,
                (s.devices[at].ifindex, s.devices[at].mac),
                Seq::empty(),
            ),
            s.timestamp_ms,
            s.devices[at].metrics,
            s.devices[at].cumulative,
        ),
{
    let items = device_history(s);
    assert forall|j: int| at < j < items.len() implies (#[trigger] items[j]).0 != items[at].0 by {
        assert((s.devices[j].ifindex, s.devices[j].mac) != (
            s.devices[at].ifindex,
            s.devices[at].mac,
        ));
    }
    lemma_point_enters(m.device, items, m.max_points, at);
}

/// What a snapshot shows of an address is the last point of the series of its interface and
/// address, with the time of the snapshot.
pub proof fn law_snapshot_enters_ip_history(m: HistoryModel, s: SnapshotShown, at: int)
    requires
        m.max_points > 0,
        0 <= at < s.ips.len(),
        forall|j: int|
            at < j < s.ips.len() ==> ((#[trigger] s.ips[j]).ifindex, s.ips[j].ip_addr) != (
                s.ips[at].ifindex,
                s.ips[at].ip_addr,
            ),
    ensures
        ends_with(
            get_or(
                m.with_snapshot(s).ip,
                (s.ips[at].ifindex, s.ips[at].ip_addr),
                Seq::empty(),
            ),
            s.timestamp_ms,
            s.ips[at].metrics,
            s.ips[at].cumulative,
        ),
{
    let items = ip_history(s);
    assert forall|j: int| at < j < items.len() implies (#[trigger] items[j]).0 != items[at].0 by {
        assert((s.ips[j].ifindex, s.ips[j].ip_addr) != (s.ips[at].ifindex, s.ips[at].ip_addr));
    }
    lemma_point_enters(m.ip, items, m.max_points, at);
}

/// A series that a snapshot does not show stays as it is.
pub proof fn law_snapshot_leaves_other_history(
    m: HistoryModel,
    s: SnapshotShown,
    ifindex: u32,
    name: Seq<char>,
)
    ensures
        (forall|j: int| 0 <= j < s.interfaces.len() ==> (#[trigger] s.interfaces[j]).ifindex != ifindex)
            ==> get(m.with_snapshot(s).iface, ifindex) == get(m.iface, ifindex),
        (forall|j: int|
            0 <= j < s.devices.len() ==> ((#[trigger] s.devices[j]).ifindex, s.devices[j].mac) != (
                ifindex,
                name,
            )) ==> get(m.with_snapshot(s).device, (ifindex, name)) == get(
            m.device,
            (ifindex, name),
        ),
        (forall|j: int|
            0 <= j < s.ips.len() ==> ((#[trigger] s.ips[j]).ifindex, s.ips[j].ip_addr) != (
                ifindex,
                name,
            )) ==> get(m.with_snapshot(s).ip, (ifindex, name)) == get(m.ip, (ifindex, name)),
        m.with_snapshot(s).max_points == m.max_points,
{
    let a = iface_history(s);
    let b = device_history(s);
    let c = ip_history(s);
    if forall|j: int| 0 <= j < s.interfaces.len() ==> (#[trigger] s.interfaces[j]).ifindex != ifindex {
        assert forall|j: int| 0 <= j < a.len() implies (#[trigger] a[j]).0 != ifindex by {
            assert(s.interfaces[j].ifindex != ifindex);
        }
        lemma_point_of_others(m.iface, a, m.max_points, ifindex);
    }
    if forall|j: int|
        0 <= j < s.devices.len() ==> ((#[trigger] s.devices[j]).ifindex, s.devices[j].mac) != (
            ifindex,
            name,
        ) {
        assert forall|j: int| 0 <= j < b.len() implies (#[trigger] b[j]).0 != (ifindex, name) by {
            assert((s.devices[j].ifindex, s.devices[j].mac) != (ifindex, name));
        }
        lemma_point_of_others(m.device, b, m.max_points, (ifindex, name));
    }
    if forall|j: int|
        0 <= j < s.ips.len() ==> ((#[trigger] s.ips[j]).ifindex, s.ips[j].ip_addr) != (
            ifindex,
            name,
        ) {
        assert forall|j: int| 0 <= j < c.len() implies (#[trigger] c[j]).0 != (ifindex, name) by {
            assert((s.ips[j].ifindex, s.ips[j].ip_addr) != (ifindex, name));
        }
        lemma_point_of_others(m.ip, c, m.max_points, (ifindex, name));
    }
}

/// The most recent of some points are the last of them, in order, and as many as may be kept.
pub proof fn law_recent_are_last<T>(s: Seq<T>, most: nat)
    ensures
        recent(s, most).len() == if s.len() <= most {
            s.len()
        } else {
            most
        },
        forall|i: int|
            0 <= i < recent(s, most).len() ==> #[trigger] recent(s, most)[i] == s[s.len() - recent(
                s,
                most,
            ).len() + i],
{
}


proof fn lemma_runs_first(s: Seq<(u64, CounterQuad)>, k: u64)
    ensures
        with_key(s, k).len() > 0 ==> exists|i: int|
            0 <= i < first_of_runs(s).len() && #[trigger] first_of_runs(s)[i] == with_key(s, k)[0],
        with_key(s, k).len() == 0 ==> forall|i: int|
            0 <= i < first_of_runs(s).len() ==> (#[trigger] first_of_runs(s)[i]).0 != k,
    decreases s.len(),
{
    if s.len() > 0 {
        let init = s.drop_last();
        lemma_runs_first(init, k);
        let before = first_of_runs(init);
        let runs = first_of_runs(s);
        let w = with_key(init, k);
        if w.len() > 0 {
            let i = choose|i: int| 0 <= i < before.len() && #[trigger] before[i] == w[0];
            assert(runs[i] == before[i]);
            assert(with_key(s, k)[0] == w[0]);
        } else {
            if s.last().0 == k {
                assert(runs == before.push(s.last()));
                assert(runs[before.len() as int] == with_key(s, k)[0]);
            } else {
                assert forall|i: int| 0 <= i < runs.len() implies (#[trigger] runs[i]).0 != k by {
                    if i < before.len() {
                        assert(runs[i] == before[i]);
                    }
                }
            }
        }
    }
}

proof fn lemma_keyed_first(points: Seq<CurrentHourPointState>, hour: (u64, u64), k: u64)
    ensures
        with_key(keyed_points(points, hour), k).len() > 0 <==> hour.0 <= k <= hour.1 && exists|j: int|
            0 <= j < points.len() && (#[trigger] points[j]).ts_ms == k,
        forall|at: int|
            0 <= at < points.len() && (#[trigger] points[at]).ts_ms == k && hour.0 <= k <= hour.1 && (
            forall|j: int| 0 <= j < at ==> (#[trigger] points[j]).ts_ms != k) ==> with_key(
                keyed_points(points, hour),
                k,
            )[0] == (k, points[at].metrics),
    decreases points.len(),
{
    let keyed = keyed_points(points, hour);
    if points.len() > 0 {
        let init = points.drop_last();
        let n = points.len() - 1;
        lemma_keyed_first(init, hour, k);
        assert forall|i: int| 0 <= i < init.len() implies (#[trigger] init[i]) == points[i] by {}
        let before = keyed_points(init, hour);
        let p = points.last();
        assert(points[n] == p);
        if hour.0 <= p.ts_ms <= hour.1 {
            assert(keyed.drop_last() =~= before);
            assert(keyed.last() == (p.ts_ms, p.metrics));
        }
        if exists|j: int| 0 <= j < init.len() && (#[trigger] init[j]).ts_ms == k {
            let j = choose|j: int| 0 <= j < init.len() && (#[trigger] init[j]).ts_ms == k;
            assert(points[j].ts_ms == k);
        }
        if exists|j: int| 0 <= j < points.len() && (#[trigger] points[j]).ts_ms == k {
            let j = choose|j: int| 0 <= j < points.len() && (#[trigger] points[j]).ts_ms == k;
            if j < n {
                assert(init[j].ts_ms == k);
            }
        }
        assert forall|at: int|
            0 <= at < points.len() && (#[trigger] points[at]).ts_ms == k && hour.0 <= k <= hour.1 && (
            forall|j: int| 0 <= j < at ==> (#[trigger] points[j]).ts_ms != k) implies with_key(
            keyed,
            k,
        )[0] == (k, points[at].metrics) by {
            if at < n {
                assert(init[at].ts_ms == k);
                assert forall|j: int| 0 <= j < at implies (#[trigger] init[j]).ts_ms != k by {
                    assert(points[j].ts_ms != k);
                }
                assert(with_key(before, k).len() > 0);
                assert(with_key(before, k)[0] == (k, init[at].metrics));
            } else {
                assert forall|j: int| 0 <= j < init.len() implies (#[trigger] init[j]).ts_ms != k by {
                    assert(points[j].ts_ms != k);
                }
                assert(with_key(before, k).len() == 0);
            }
        }
    }
}

/// Points brought in order are those of the hour, without totals: for each time
/// of the hour that a saved point has there is one, with the counters of the first saved point of
/// that time. No other point is there.
pub proof fn law_normalized_points(
    points: Seq<CurrentHourPointState>,
    hour: (u64, u64),
    at: int,
)
    requires
        0 <= at < points.len(),
        forall|j: int| 0 <= j < at ==> (#[trigger] points[j]).ts_ms != points[at].ts_ms,
    ensures
        ({
            let r = normalized(points, hour);
            &&& hour.0 <= points[at].ts_ms <= hour.1 <==> exists|i: int|
                0 <= i < r.len() && (#[trigger] r[i]).ts_ms == points[at].ts_ms
            &&& forall|i: int|
                0 <= i < r.len() && (#[trigger] r[i]).ts_ms == points[at].ts_ms ==> r[i].metrics
                    == points[at].metrics
            &&& forall|i: int, v: u8, d: u8|
                #![trigger bytes_in(r[i].cumulative, v, d)]
                0 <= i < r.len() ==> bytes_in(r[i].cumulative, v, d) == 0
        }),
{
    let k = points[at].ts_ms;
    let keyed = keyed_points(points, hour);
    let sorted = stable_sort(keyed);
    let runs = first_of_runs(sorted);
    let r = normalized(points, hour);
    lemma_keyed_first(points, hour, k);
    law_sort_stable(keyed, k);
    lemma_runs_first(sorted, k);
    law_normalized_ascends(points, hour);
    if hour.0 <= k <= hour.1 {
        let i = choose|i: int| 0 <= i < runs.len() && #[trigger] runs[i] == with_key(sorted, k)[0];
        assert(r[i].ts_ms == k && r[i].metrics == points[at].metrics);
        assert forall|j: int| 0 <= j < r.len() && (#[trigger] r[j]).ts_ms == k implies r[j].metrics
            == points[at].metrics by {
            if j < i {
                assert(r[j].ts_ms < r[i].ts_ms);
            } else if i < j {
                assert(r[i].ts_ms < r[j].ts_ms);
            }
        }
    } else {
        assert(with_key(keyed, k).len() == 0);
        assert forall|j: int| 0 <= j < r.len() implies (#[trigger] r[j]).ts_ms != k by {
            assert(runs[j].0 != k);
        }
    }
}

/// Every point brought in order has the time of a saved point.
pub proof fn law_normalized_times(points: Seq<CurrentHourPointState>, hour: (u64, u64), i: int)
    requires
        0 <= i < normalized(points, hour).len(),
    ensures
        exists|j: int|
            0 <= j < points.len() && (#[trigger] points[j]).ts_ms == normalized(
                points,
                hour,
            )[i].ts_ms,
{
    let keyed = keyed_points(points, hour);
    let runs = first_of_runs(stable_sort(keyed));
    let k = runs[i].0;
    assert(normalized(points, hour)[i].ts_ms == k);
    lemma_keyed_first(points, hour, k);
    law_sort_stable(keyed, k);
    lemma_runs_first(stable_sort(keyed), k);
}


} // verus!
