//! Hourly and daily traffic of interfaces, devices and addresses.
use vstd::prelude::*;

use crate::bucket::{AggregatedBucket, CurrentHourPointState};
use crate::calendar::{hourly_bucket_local, may_be_hour, LocalCalendar};
use crate::counters::CounterQuad;
use crate::daily::AggregateBucket;
use crate::items::{
    lemma_views_push, views, DeviceShown, InterfaceShown, IpShown, SnapshotData, SnapshotShown,
};
use crate::keys::{DeviceSeriesKey, IpSeriesKey};
use crate::series::{
    completed_totals, law_observe_is_last, law_observe_leaves_others,
    law_observed_all_stays_distinct, running_totals, SeriesHistory, SeriesModel,
};
use crate::table::{get, Table};
use crate::text::has_char;

verus! {

/// The hourly history of all interfaces, devices and addresses.
pub struct HistogramHistory {
    pub iface: SeriesHistory<u32>,
    pub device: SeriesHistory<DeviceSeriesKey>,
    pub ip: SeriesHistory<IpSeriesKey>,
}

/// What an hourly history holds.
#[verifier::ext_equal]
pub struct HistogramModel {
    pub iface: SeriesModel<u32>,
    pub device: SeriesModel<(u32, Seq<char>)>,
    pub ip: SeriesModel<(u32, Seq<char>)>,
}

/// The text is taken for that of an address, not of a device.
pub open spec fn names_address(text: Seq<char>) -> bool {
    text.contains('.') || text.contains(':')
}

/// The counters that a snapshot adds to the series of interfaces.
pub open spec fn iface_points(s: Seq<InterfaceShown>) -> Seq<(u32, CounterQuad)> {
    s.map_values(|i: InterfaceShown| (i.ifindex, i.metrics))
}

/// The counters that a snapshot adds to the series of devices.
pub open spec fn device_points(s: Seq<DeviceShown>) -> Seq<((u32, Seq<char>), CounterQuad)> {
    s.map_values(|d: DeviceShown| ((d.ifindex, d.mac), d.metrics))
}

/// The counters that a snapshot adds to the series of addresses.
pub open spec fn ip_points(s: Seq<IpShown>) -> Seq<((u32, Seq<char>), CounterQuad)> {
    s.map_values(|i: IpShown| ((i.ifindex, i.ip_addr), i.metrics))
}

impl HistogramModel {
    /// A history without series.
    pub open spec fn empty() -> HistogramModel {
        HistogramModel {
            iface: SeriesModel::empty(),
            device: SeriesModel::empty(),
            ip: SeriesModel::empty(),
        }
    }

    /// No series is held twice.
    pub open spec fn distinct(self) -> bool {
        self.iface.distinct() && self.device.distinct() && self.ip.distinct()
    }

    /// The buckets of an interface, or of a device or an address behind it, in a range.
    pub open spec fn aggregate(
        self,
        ifindex: u32,
        mac_or_ip: Option<Seq<char>>,
        start_ms: u64,
        end_ms: u64,
        bucket: AggregateBucket,
        cal: LocalCalendar,
    ) -> Seq<AggregatedBucket> {
        match mac_or_ip {
            Some(text) => if names_address(text) {
                self.ip.aggregate((ifindex, text), start_ms, end_ms, bucket, cal)
            } else {
                self.device.aggregate((ifindex, text), start_ms, end_ms, bucket, cal)
            },
            None => self.iface.aggregate(ifindex, start_ms, end_ms, bucket, cal),
        }
    }

    /// The calendar holds what such buckets depend on.
    pub open spec fn covered(
        self,
        ifindex: u32,
        mac_or_ip: Option<Seq<char>>,
        start_ms: u64,
        end_ms: u64,
        bucket: AggregateBucket,
        cal: LocalCalendar,
    ) -> bool {
        match mac_or_ip {
            Some(text) => if names_address(text) {
                self.ip.covered((ifindex, text), start_ms, end_ms, bucket, cal)
            } else {
                self.device.covered((ifindex, text), start_ms, end_ms, bucket, cal)
            },
            None => self.iface.covered(ifindex, start_ms, end_ms, bucket, cal),
        }
    }

    /// The history with the counters of a snapshot.
    pub open spec fn updated(self, snapshot: SnapshotShown, cal: LocalCalendar) -> HistogramModel {
        let ts = snapshot.timestamp_ms;
        let hour_start = cal.hour_of(ts).0;
        HistogramModel {
            iface: self.iface.observed_all(
                iface_points(snapshot.interfaces),
                hour_start,
                ts,
                cal,
            ),
            device: self.device.observed_all(device_points(snapshot.devices), hour_start, ts, cal),
            ip: self.ip.observed_all(ip_points(snapshot.ips), hour_start, ts, cal),
        }
    }

    /// The calendar holds what the counters of a snapshot at `ts_ms` depend on.
    pub open spec fn covered_points(self, ts_ms: u64, cal: LocalCalendar) -> bool {
        &&& self.iface.covered_points(ts_ms, cal)
        &&& self.device.covered_points(ts_ms, cal)
        &&& self.ip.covered_points(ts_ms, cal)
    }
}

impl View for HistogramHistory {
    type V = HistogramModel;

    open spec fn view(&self) -> HistogramModel {
        HistogramModel {
            iface: self.iface.model(),
            device: self.device.model(),
            ip: self.ip.model(),
        }
    }
}

/// The text of an optional argument.
pub open spec fn arg_text(s: Option<&str>) -> Option<Seq<char>> {
    match s {
        Some(t) => Some(t@),
        None => None,
    }
}

impl HistogramHistory {
    /// A history without series.
    pub fn new() -> (h: HistogramHistory)
        ensures
            h@ == HistogramModel::empty(),
            h@.distinct(),
    {
        HistogramHistory {
            iface: SeriesHistory::new(),
            device: SeriesHistory::new(),
            ip: SeriesHistory::new(),
        }
    }

    /// The buckets of an interface, or of a device or an address behind it, in a range, by the
    /// given local hours and days.
    pub fn query_aggregate_in(
        &self,
        ifindex: u32,
        mac_or_ip: Option<&str>,
        start_ms: u64,
        end_ms: u64,
        bucket: AggregateBucket,
        cal: &LocalCalendar,
    ) -> (r: Vec<AggregatedBucket>)
        ensures
            r@ == self@.aggregate(ifindex, arg_text(mac_or_ip), start_ms, end_ms, bucket, *cal),
    {
        match mac_or_ip {
            Some(text) => {
                if has_char(text, '.') || has_char(text, ':') {
                    let key = IpSeriesKey { ifindex, ip: text.to_string() };
                    match bucket {
                        AggregateBucket::Hourly => self.query_ip_hourly(
                            &key,
                            start_ms,
                            end_ms,
                            cal,
                        ),
                        AggregateBucket::Daily => self.query_ip_daily(&key, start_ms, end_ms, cal),
                    }
                } else {
                    let key = DeviceSeriesKey { ifindex, mac: text.to_string() };
                    match bucket {
                        AggregateBucket::Hourly => self.query_device_hourly(
                            &key,
                            start_ms,
                            end_ms,
                            cal,
                        ),
                        AggregateBucket::Daily => self.query_device_daily(
                            &key,
                            start_ms,
                            end_ms,
                            cal,
                        ),
                    }
                }
            },
            None => match bucket {
                AggregateBucket::Hourly => self.query_iface_hourly(ifindex, start_ms, end_ms, cal),
                AggregateBucket::Daily => self.query_iface_daily(ifindex, start_ms, end_ms, cal),
            },
        }
    }

    /// The hourly buckets of an interface in a range.
    pub fn query_iface_hourly(
        &self,
        ifindex: u32,
        start_ms: u64,
        end_ms: u64,
        cal: &LocalCalendar,
    ) -> (r: Vec<AggregatedBucket>)
        ensures
            r@ == self@.iface.hourly(ifindex, start_ms, end_ms, *cal),
    {
        self.iface.query_hourly(&ifindex, start_ms, end_ms, cal)
    }

    /// The hourly buckets of a device in a range.
    pub fn query_device_hourly(
        &self,
        key: &DeviceSeriesKey,
        start_ms: u64,
        end_ms: u64,
        cal: &LocalCalendar,
    ) -> (r: Vec<AggregatedBucket>)
        ensures
            r@ == self@.device.hourly(key@, start_ms, end_ms, *cal),
    {
        self.device.query_hourly(key, start_ms, end_ms, cal)
    }

    /// The hourly buckets of an address in a range.
    pub fn query_ip_hourly(
        &self,
        key: &IpSeriesKey,
        start_ms: u64,
        end_ms: u64,
        cal: &LocalCalendar,
    ) -> (r: Vec<AggregatedBucket>)
        ensures
            r@ == self@.ip.hourly(key@, start_ms, end_ms, *cal),
    {
        self.ip.query_hourly(key, start_ms, end_ms, cal)
    }

    /// The daily buckets of an interface in a range.
    pub fn query_iface_daily(
        &self,
        ifindex: u32,
        start_ms: u64,
        end_ms: u64,
        cal: &LocalCalendar,
    ) -> (r: Vec<AggregatedBucket>)
        ensures
            r@ == self@.iface.daily(ifindex, start_ms, end_ms, *cal),
    {
        self.iface.query_daily(&ifindex, start_ms, end_ms, cal)
    }

    /// The daily buckets of a device in a range.
    pub fn query_device_daily(
        &self,
        key: &DeviceSeriesKey,
        start_ms: u64,
        end_ms: u64,
        cal: &LocalCalendar,
    ) -> (r: Vec<AggregatedBucket>)
        ensures
            r@ == self@.device.daily(key@, start_ms, end_ms, *cal),
    {
        self.device.query_daily(key, start_ms, end_ms, cal)
    }

    /// The daily buckets of an address in a range.
    pub fn query_ip_daily(
        &self,
        key: &IpSeriesKey,
        start_ms: u64,
        end_ms: u64,
        cal: &LocalCalendar,
    ) -> (r: Vec<AggregatedBucket>)
        ensures
            r@ == self@.ip.daily(key@, start_ms, end_ms, *cal),
    {
        self.ip.query_daily(key, start_ms, end_ms, cal)
    }

    /// Looks up the local hours and days that the buckets of an interface, or of a device or an
    /// address behind it, depend on.
    pub fn calendar_for(
        &self,
        ifindex: u32,
        mac_or_ip: Option<&str>,
        start_ms: u64,
        end_ms: u64,
        bucket: AggregateBucket,
    ) -> (cal: LocalCalendar)
        ensures
            self@.covered(ifindex, arg_text(mac_or_ip), start_ms, end_ms, bucket, cal),
    {
        match mac_or_ip {
            Some(text) => {
                if has_char(text, '.') || has_char(text, ':') {
                    let key = IpSeriesKey { ifindex, ip: text.to_string() };
                    self.ip.calendar_for(&key, start_ms, end_ms, bucket)
                } else {
                    let key = DeviceSeriesKey { ifindex, mac: text.to_string() };
                    self.device.calendar_for(&key, start_ms, end_ms, bucket)
                }
            },
            None => self.iface.calendar_for(&ifindex, start_ms, end_ms, bucket),
        }
    }

    /// The buckets of an interface, or of a device or an address behind it, in a range, by the
    /// local time of the machine.
    pub fn query_aggregate(
        &self,
        ifindex: u32,
        mac_or_ip: Option<&str>,
        start_ms: u64,
        end_ms: u64,
        bucket: AggregateBucket,
    ) -> (r: Vec<AggregatedBucket>)
        ensures
            exists|cal: LocalCalendar| #[trigger]
                self@.covered(ifindex, arg_text(mac_or_ip), start_ms, end_ms, bucket, cal) && r@
                    == self@.aggregate(
                    ifindex,
                    arg_text(mac_or_ip),
                    start_ms,
                    end_ms,
                    bucket,
                    cal,
                ),
    {
        let cal = self.calendar_for(ifindex, mac_or_ip, start_ms, end_ms, bucket);
        self.query_aggregate_in(ifindex, mac_or_ip, start_ms, end_ms, bucket, &cal)
    }

    /// The bytes of the completed hours of each interface, device and address.
    pub fn cumulative_from_completed(&self) -> (r: (
        Table<u32, CounterQuad>,
        Table<(u32, [u8; 6]), CounterQuad>,
        Table<(u32, String), CounterQuad>,
    ))
        ensures
            r.0.model() == completed_totals::<u32>(self@.iface.completed),
            r.1.model() == completed_totals::<DeviceSeriesKey>(self@.device.completed),
            r.2.model() == completed_totals::<IpSeriesKey>(self@.ip.completed),
    {
        (
            self.iface.totals_of_completed(),
            self.device.totals_of_completed(),
            self.ip.totals_of_completed(),
        )
    }

    /// The bytes of the completed hours of each interface, device and address, or the totals of
    /// the points of its running hour where it has one.
    pub fn cumulative_from_all(&self) -> (r: (
        Table<u32, CounterQuad>,
        Table<(u32, [u8; 6]), CounterQuad>,
        Table<(u32, String), CounterQuad>,
    ))
        ensures
            r.0.model() == running_totals::<u32>(
                completed_totals::<u32>(self@.iface.completed),
                self@.iface.current,
            ),
            r.1.model() == running_totals::<DeviceSeriesKey>(
                completed_totals::<DeviceSeriesKey>(self@.device.completed),
                self@.device.current,
            ),
            r.2.model() == running_totals::<IpSeriesKey>(
                completed_totals::<IpSeriesKey>(self@.ip.completed),
                self@.ip.current,
            ),
    {
        (self.iface.totals(), self.device.totals(), self.ip.totals())
    }

    /// Takes in a completed hour of an interface.
    pub fn restore_iface_bucket(&mut self, ifindex: u32, bucket: AggregatedBucket)
        ensures
            final(self)@ == (HistogramModel {
                iface: old(self)@.iface.with_bucket(ifindex, bucket),
                ..old(self)@
            }),
            old(self)@.distinct() ==> final(self)@.distinct(),
    {
        self.iface.restore_bucket(ifindex, bucket);
    }

    /// Takes in a completed hour of a device.
    pub fn restore_device_bucket(&mut self, ifindex: u32, mac: String, bucket: AggregatedBucket)
        ensures
            final(self)@ == (HistogramModel {
                device: old(self)@.device.with_bucket((ifindex, mac@), bucket),
                ..old(self)@
            }),
            old(self)@.distinct() ==> final(self)@.distinct(),
    {
        self.device.restore_bucket(DeviceSeriesKey { ifindex, mac }, bucket);
    }

    /// Takes in a completed hour of an address.
    pub fn restore_ip_bucket(&mut self, ifindex: u32, ip: String, bucket: AggregatedBucket)
        ensures
            final(self)@ == (HistogramModel {
                ip: old(self)@.ip.with_bucket((ifindex, ip@), bucket),
                ..old(self)@
            }),
            old(self)@.distinct() ==> final(self)@.distinct(),
    {
        self.ip.restore_bucket(IpSeriesKey { ifindex, ip }, bucket);
    }

    /// Takes in the points of the running hour of an interface, unless they are of another hour
    /// than the local hour of `now_ms`.
    pub fn restore_current_hour_iface_state(
        &mut self,
        ifindex: u32,
        hour_start_ts_ms: u64,
        points: Vec<CurrentHourPointState>,
        now_ms: u64,
    )
        ensures
            exists|hour: (u64, u64)| #[trigger]
                may_be_hour(now_ms, hour) && final(self)@ == (HistogramModel {
                    iface: old(self)@.iface.with_current(
                        ifindex,
                        hour_start_ts_ms,
                        points@,
                        hour.0,
                    ),
                    ..old(self)@
                }),
            old(self)@.distinct() ==> final(self)@.distinct(),
    {
        let (expected_start, expected_end) = hourly_bucket_local(now_ms);
        self.iface.restore_current(ifindex, hour_start_ts_ms, points, expected_start);
        assert(may_be_hour(now_ms, (expected_start, expected_end)));
    }

    /// Takes in the points of the running hour of a device, unless they are of another hour than
    /// the local hour of `now_ms`.
    pub fn restore_current_hour_device_state(
        &mut self,
        ifindex: u32,
        mac: String,
        hour_start_ts_ms: u64,
        points: Vec<CurrentHourPointState>,
        now_ms: u64,
    )
        ensures
            exists|hour: (u64, u64)| #[trigger]
                may_be_hour(now_ms, hour) && final(self)@ == (HistogramModel {
                    device: old(self)@.device.with_current(
                        (ifindex, mac@),
                        hour_start_ts_ms,
                        points@,
                        hour.0,
                    ),
                    ..old(self)@
                }),
            old(self)@.distinct() ==> final(self)@.distinct(),
    {
        let (expected_start, expected_end) = hourly_bucket_local(now_ms);
        let key = DeviceSeriesKey { ifindex, mac };
        self.device.restore_current(key, hour_start_ts_ms, points, expected_start);
        assert(may_be_hour(now_ms, (expected_start, expected_end)));
    }

    /// Takes in the points of the running hour of an address, unless they are of another hour
    /// than the local hour of `now_ms`.
    pub fn restore_current_hour_ip_state(
        &mut self,
        ifindex: u32,
        ip: String,
        hour_start_ts_ms: u64,
        points: Vec<CurrentHourPointState>,
        now_ms: u64,
    )
        ensures
            exists|hour: (u64, u64)| #[trigger]
                may_be_hour(now_ms, hour) && final(self)@ == (HistogramModel {
                    ip: old(self)@.ip.with_current(
                        (ifindex, ip@),
                        hour_start_ts_ms,
                        points@,
                        hour.0,
                    ),
                    ..old(self)@
                }),
            old(self)@.distinct() ==> final(self)@.distinct(),
    {
        let (expected_start, expected_end) = hourly_bucket_local(now_ms);
        let key = IpSeriesKey { ifindex, ip };
        self.ip.restore_current(key, hour_start_ts_ms, points, expected_start);
        assert(may_be_hour(now_ms, (expected_start, expected_end)));
    }
}

/// The points of the running hour of an interface, as they are saved.
#[derive(Debug, Clone)]
pub struct ExportedCurrentHourIfaceState {
    pub ifindex: u32,
    pub hour_start_ts_ms: u64,
    pub points: Vec<CurrentHourPointState>,
}

/// The points of the running hour of a device, as they are saved.
#[derive(Debug, Clone)]
pub struct ExportedCurrentHourDeviceState {
    pub ifindex: u32,
    pub mac: String,
    pub hour_start_ts_ms: u64,
    pub points: Vec<CurrentHourPointState>,
}

/// The points of the running hour of an address, as they are saved.
#[derive(Debug, Clone)]
pub struct ExportedCurrentHourIpState {
    pub ifindex: u32,
    pub ip: String,
    pub hour_start_ts_ms: u64,
    pub points: Vec<CurrentHourPointState>,
}

/// The points of the running hour of all series, as they are saved.
#[derive(Debug, Clone)]
pub struct ExportedCurrentHourState {
    pub iface: Vec<ExportedCurrentHourIfaceState>,
    pub device: Vec<ExportedCurrentHourDeviceState>,
    pub ip: Vec<ExportedCurrentHourIpState>,
}

impl View for ExportedCurrentHourIfaceState {
    type V = (u32, (u64, Seq<CurrentHourPointState>));

    open spec fn view(&self) -> (u32, (u64, Seq<CurrentHourPointState>)) {
        (self.ifindex, (self.hour_start_ts_ms, self.points@))
    }
}

impl View for ExportedCurrentHourDeviceState {
    type V = ((u32, Seq<char>), (u64, Seq<CurrentHourPointState>));

    open spec fn view(&self) -> ((u32, Seq<char>), (u64, Seq<CurrentHourPointState>)) {
        ((self.ifindex, self.mac@), (self.hour_start_ts_ms, self.points@))
    }
}

impl View for ExportedCurrentHourIpState {
    type V = ((u32, Seq<char>), (u64, Seq<CurrentHourPointState>));

    open spec fn view(&self) -> ((u32, Seq<char>), (u64, Seq<CurrentHourPointState>)) {
        ((self.ifindex, self.ip@), (self.hour_start_ts_ms, self.points@))
    }
}

/// A copy of some points.
pub fn point_copies(points: &Vec<CurrentHourPointState>) -> (r: Vec<CurrentHourPointState>)
    ensures
        r@ == points@,
{
    let mut r: Vec<CurrentHourPointState> = Vec::new();
    let n = points.len();
    let mut i: usize = 0;
    while i < n
        invariant
            i <= n,
            n == points@.len(),
            r@ == points@.take(i as int),
        decreases n - i,
    {
        r.push(points[i]);
        i += 1;
        assert(r@ =~= points@.take(i as int));
    }
    assert(points@.take(i as int) =~= points@);
    r
}

impl HistogramHistory {
    /// The points of the running hour of each series.
    pub fn export_current_hour_state(&self) -> (r: ExportedCurrentHourState)
        ensures
            views(r.iface@) == self@.iface.current,
            views(r.device@) == self@.device.current,
            views(r.ip@) == self@.ip.current,
    {
        let mut iface: Vec<ExportedCurrentHourIfaceState> = Vec::new();
        let n = self.iface.current.entries.len();
        let mut i: usize = 0;
        while i < n
            invariant
                i <= n,
                n == self.iface.current.entries@.len(),
                views(iface@) == self@.iface.current.take(i as int),
            decreases n - i,
        {
            let entry = &self.iface.current.entries[i];
            let saved = ExportedCurrentHourIfaceState {
                ifindex: entry.0,
                hour_start_ts_ms: entry.1.0,
                points: point_copies(&entry.1.1),
            };
            proof {
                lemma_views_push(iface@, saved);
                assert(saved@ == self@.iface.current[i as int]);
                assert(self@.iface.current.take(i + 1) =~= self@.iface.current.take(i as int).push(
                    saved@,
                ));
            }
            iface.push(saved);
            i += 1;
        }
        assert(self@.iface.current.take(i as int) =~= self@.iface.current);

        let mut device: Vec<ExportedCurrentHourDeviceState> = Vec::new();
        let n = self.device.current.entries.len();
        let mut i: usize = 0;
        while i < n
            invariant
                i <= n,
                n == self.device.current.entries@.len(),
                views(device@) == self@.device.current.take(i as int),
            decreases n - i,
        {
            let entry = &self.device.current.entries[i];
            let saved = ExportedCurrentHourDeviceState {
                ifindex: entry.0.ifindex,
                mac: entry.0.mac.clone(),
                hour_start_ts_ms: entry.1.0,
                points: point_copies(&entry.1.1),
            };
            proof {
                lemma_views_push(device@, saved);
                assert(saved@ == self@.device.current[i as int]);
                assert(self@.device.current.take(i + 1) =~= self@.device.current.take(i as int).push(
                    saved@,
                ));
            }
            device.push(saved);
            i += 1;
        }
        assert(self@.device.current.take(i as int) =~= self@.device.current);

        let mut ip: Vec<ExportedCurrentHourIpState> = Vec::new();
        let n = self.ip.current.entries.len();
        let mut i: usize = 0;
        while i < n
            invariant
                i <= n,
                n == self.ip.current.entries@.len(),
                views(ip@) == self@.ip.current.take(i as int),
            decreases n - i,
        {
            let entry = &self.ip.current.entries[i];
            let saved = ExportedCurrentHourIpState {
                ifindex: entry.0.ifindex,
                ip: entry.0.ip.clone(),
                hour_start_ts_ms: entry.1.0,
                points: point_copies(&entry.1.1),
            };
            proof {
                lemma_views_push(ip@, saved);
                assert(saved@ == self@.ip.current[i as int]);
                assert(self@.ip.current.take(i + 1) =~= self@.ip.current.take(i as int).push(
                    saved@,
                ));
            }
            ip.push(saved);
            i += 1;
        }
        assert(self@.ip.current.take(i as int) =~= self@.ip.current);

        ExportedCurrentHourState { iface, device, ip }
    }
}

/// Takes in the counters of a snapshot, by the given local hours.
pub fn update_histogram_state_in(
    state: &mut HistogramHistory,
    snapshot: &SnapshotData,
    cal: &LocalCalendar,
)
    ensures
        final(state)@ == old(state)@.updated(snapshot@, *cal),
        old(state)@.distinct() ==> final(state)@.distinct(),
{
    let ts = snapshot.timestamp_ms;
    let (hour_start, _) = cal.hour(ts);

    let ghost before = state@;
    let n = snapshot.interfaces.len();
    let mut i: usize = 0;
    let ghost points = iface_points(snapshot@.interfaces);
    assert(points.take(0) =~= Seq::empty());
    while i < n
        invariant
            i <= n,
            n == snapshot.interfaces@.len(),
            points == iface_points(snapshot@.interfaces),
            ts == snapshot.timestamp_ms,
            state@ == (HistogramModel {
                iface: before.iface.observed_all(points.take(i as int), hour_start, ts, *cal),
                ..before
            }),
        decreases n - i,
    {
        let item = &snapshot.interfaces[i];
        state.iface.observe(item.ifindex, hour_start, ts, &item.metrics, cal);
        i += 1;
        assert(points.take(i as int).drop_last() =~= points.take(i - 1));
        assert(points[i - 1] == (item.ifindex, item.metrics));
    }
    assert(points.take(i as int) =~= points);

    let ghost before = state@;
    let n = snapshot.devices.len();
    let mut i: usize = 0;
    let ghost points = device_points(snapshot@.devices);
    assert(points.take(0) =~= Seq::empty());
    while i < n
        invariant
            i <= n,
            n == snapshot.devices@.len(),
            points == device_points(snapshot@.devices),
            ts == snapshot.timestamp_ms,
            state@ == (HistogramModel {
                device: before.device.observed_all(points.take(i as int), hour_start, ts, *cal),
                ..before
            }),
        decreases n - i,
    {
        let item = &snapshot.devices[i];
        let key = DeviceSeriesKey { ifindex: item.ifindex, mac: item.mac.clone() };
        state.device.observe(key, hour_start, ts, &item.metrics, cal);
        i += 1;
        assert(points.take(i as int).drop_last() =~= points.take(i - 1));
        assert(points[i - 1] == ((item.ifindex, item.mac@), item.metrics));
    }
    assert(points.take(i as int) =~= points);

    let ghost before = state@;
    let n = snapshot.ips.len();
    let mut i: usize = 0;
    let ghost points = ip_points(snapshot@.ips);
    assert(points.take(0) =~= Seq::empty());
    while i < n
        invariant
            i <= n,
            n == snapshot.ips@.len(),
            points == ip_points(snapshot@.ips),
            ts == snapshot.timestamp_ms,
            state@ == (HistogramModel {
                ip: before.ip.observed_all(points.take(i as int), hour_start, ts, *cal),
                ..before
            }),
        decreases n - i,
    {
        let item = &snapshot.ips[i];
        let key = IpSeriesKey { ifindex: item.ifindex, ip: item.ip_addr.clone() };
        state.ip.observe(key, hour_start, ts, &item.metrics, cal);
        i += 1;
        assert(points.take(i as int).drop_last() =~= points.take(i - 1));
        assert(points[i - 1] == ((item.ifindex, item.ip_addr@), item.metrics));
    }
    assert(points.take(i as int) =~= points);
    proof {
        if old(state)@.distinct() {
            law_update_stays_distinct(old(state)@, snapshot@, *cal);
        }
    }
}

/// Taking in a snapshot keeps the series distinct.
pub proof fn law_update_stays_distinct(
    m: HistogramModel,
    snapshot: SnapshotShown,
    cal: LocalCalendar,
)
    requires
        m.distinct(),
    ensures
        m.updated(snapshot, cal).distinct(),
{
    let ts = snapshot.timestamp_ms;
    let hour_start = cal.hour_of(ts).0;
    law_observed_all_stays_distinct(
        m.iface,
        iface_points(snapshot.interfaces),
        hour_start,
        ts,
        cal,
    );
    law_observed_all_stays_distinct(
        m.device,
        device_points(snapshot.devices),
        hour_start,
        ts,
        cal,
    );
    law_observed_all_stays_distinct(m.ip, ip_points(snapshot.ips), hour_start, ts, cal);
}

/// Looks up the local hours that taking in a snapshot at `ts_ms` depends on.
pub fn calendar_for_points(state: &HistogramHistory, ts_ms: u64) -> (cal: LocalCalendar)
    ensures
        state@.covered_points(ts_ms, cal),
{
    let mut cal = LocalCalendar::new();
    state.iface.learn_points(ts_ms, &mut cal);
    state.device.learn_points(ts_ms, &mut cal);
    state.ip.learn_points(ts_ms, &mut cal);
    cal
}

/// Takes in the counters of a snapshot, by the local time of the machine.
pub fn update_histogram_state(state: &mut HistogramHistory, snapshot: &SnapshotData)
    ensures
        exists|cal: LocalCalendar| #[trigger]
            old(state)@.covered_points(snapshot.timestamp_ms, cal) && final(state)@ == old(
                state,
            )@.updated(snapshot@, cal),
        old(state)@.distinct() ==> final(state)@.distinct(),
{
    let cal = calendar_for_points(state, snapshot.timestamp_ms);
    update_histogram_state_in(state, snapshot, &cal);
}

/// A series ends, in the hour that runs, with this point.
pub open spec fn runs_with<K>(
    m: SeriesModel<K>,
    key: K,
    hour_start: u64,
    ts_ms: u64,
    metrics: CounterQuad,
) -> bool {
    get(m.current, key) matches Some((start, points)) && start == hour_start && points.len() > 0
        && points.last().ts_ms == ts_ms && points.last().metrics == metrics
}

proof fn lemma_observed_at<K>(
    m: SeriesModel<K>,
    items: Seq<(K, CounterQuad)>,
    hour_start: u64,
    ts_ms: u64,
    cal: LocalCalendar,
    at: int,
)
    requires
        0 <= at < items.len(),
        forall|j: int| at < j < items.len() ==> (#[trigger] items[j]).0 != items[at].0,
    ensures
        runs_with(
            m.observed_all(items, hour_start, ts_ms, cal),
            items[at].0,
            hour_start,
            ts_ms,
            items[at].1,
        ),
    decreases items.len(),
{
    let init = items.drop_last();
    let before = m.observed_all(init, hour_start, ts_ms, cal);
    let (key, metrics) = items.last();
    if at == items.len() - 1 {
        law_observe_is_last(before, key, hour_start, ts_ms, metrics, cal);
    } else {
        assert(init[at] == items[at]);
        assert forall|j: int| at < j < init.len() implies (#[trigger] init[j]).0 != init[at].0 by {
            assert(items[j].0 != items[at].0);
        }
        lemma_observed_at(m, init, hour_start, ts_ms, cal, at);
        assert(items[items.len() - 1].0 != items[at].0);
        law_observe_leaves_others(before, key, hour_start, ts_ms, metrics, cal, items[at].0);
    }
}

/// What a snapshot shows to be added for an interface is the last point of its series, in the
/// local hour of the snapshot.
pub proof fn law_snapshot_enters_interface_hour(
    m: HistogramModel,
    s: SnapshotShown,
    cal: LocalCalendar,
    at: int,
)
    requires
        0 <= at < s.interfaces.len(),
        forall|j: int|
            at < j < s.interfaces.len() ==> (#[trigger] s.interfaces[j]).ifindex
                != s.interfaces[at].ifindex,
    ensures
        runs_with(
            m.updated(s, cal).iface,
            s.interfaces[at].ifindex,
            cal.hour_of(s.timestamp_ms).0,
            s.timestamp_ms,
            s.interfaces[at].metrics,
        ),
{
    let items = iface_points(s.interfaces);
    assert forall|j: int| at < j < items.len() implies (#[trigger] items[j]).0 != items[at].0 by {
        assert(s.interfaces[j].ifindex != s.interfaces[at].ifindex);
    }
    lemma_observed_at(m.iface, items, cal.hour_of(s.timestamp_ms).0, s.timestamp_ms, cal, at);
}

/// What a snapshot shows to be added for a device is the last point of the series of its interface
/// and MAC address, in the local hour of the snapshot.
pub proof fn law_snapshot_enters_device_hour(
    m: HistogramModel,
    s: SnapshotShown,
    cal: LocalCalendar,
    at: int,
)
    requires
        0 <= at < s.devices.len(),
        forall|j: int|
            at < j < s.devices.len() ==> ((#[trigger] s.devices[j]).ifindex, s.devices[j].mac) != (
                s.devices[at].ifindex,
                s.devices[at].mac,
            ),
    ensures
        runs_with(
            m.updated(s, cal).device,
            (s.devices[at].ifindex, s.devices[at].mac),
            cal.hour_of(s.timestamp_ms).0,
            s.timestamp_ms,
            s.devices[at].metrics,
        ),
{
    let items = device_points(s.devices);
    assert forall|j: int| at < j < items.len() implies (#[trigger] items[j]).0 != items[at].0 by {
        assert((s.devices[j].ifindex, s.devices[j].mac) != (
            s.devices[at].ifindex,
            s.devices[at].mac,
        ));
    }
    lemma_observed_at(m.device, items, cal.hour_of(s.timestamp_ms).0, s.timestamp_ms, cal, at);
}

/// What a snapshot shows to be added for an address is the last point of the series of its
/// interface and address, in the local hour of the snapshot.
pub proof fn law_snapshot_enters_ip_hour(
    m: HistogramModel,
    s: SnapshotShown,
    cal: LocalCalendar,
    at: int,
)
    requires
        0 <= at < s.ips.len(),
        forall|j: int|
            at < j < s.ips.len() ==> ((#[trigger] s.ips[j]).ifindex, s.ips[j].ip_addr) != (
                s.ips[at].ifindex,
                s.ips[at].ip_addr,
            ),
    ensures
        runs_with(
            m.updated(s, cal).ip,
            (s.ips[at].ifindex, s.ips[at].ip_addr),
            cal.hour_of(s.timestamp_ms).0,
            s.timestamp_ms,
            s.ips[at].metrics,
        ),
{
    let items = ip_points(s.ips);
    assert forall|j: int| at < j < items.len() implies (#[trigger] items[j]).0 != items[at].0 by {
        assert((s.ips[j].ifindex, s.ips[j].ip_addr) != (s.ips[at].ifindex, s.ips[at].ip_addr));
    }
    lemma_observed_at(m.ip, items, cal.hour_of(s.timestamp_ms).0, s.timestamp_ms, cal, at);
}

/// Whose buckets are asked for: those of the interface where no name is given, of an address where
/// the name has a dot or a colon, of a device where it has neither. Nothing else that the history
/// holds has a part in the answer.
pub proof fn law_whose_buckets(
    a: HistogramModel,
    b: HistogramModel,
    ifindex: u32,
    name: Seq<char>,
    range: (u64, u64),
    cal: LocalCalendar,
)
    ensures
        a.iface == b.iface ==> a.aggregate(
            ifindex,
            None,
            range.0,
            range.1,
            AggregateBucket::Hourly,
            cal,
        ) == b.iface.hourly(ifindex, range.0, range.1, cal),
        a.iface == b.iface ==> a.aggregate(
            ifindex,
            None,
            range.0,
            range.1,
            AggregateBucket::Daily,
            cal,
        ) == b.iface.daily(ifindex, range.0, range.1, cal),
        a.ip == b.ip && (name.contains('.') || name.contains(':')) ==> a.aggregate(
            ifindex,
            Some(name),
            range.0,
            range.1,
            AggregateBucket::Hourly,
            cal,
        ) == b.ip.hourly((ifindex, name), range.0, range.1, cal) && a.aggregate(
            ifindex,
            Some(name),
            range.0,
            range.1,
            AggregateBucket::Daily,
            cal,
        ) == b.ip.daily((ifindex, name), range.0, range.1, cal),
        a.device == b.device && !name.contains('.') && !name.contains(':') ==> a.aggregate(
            ifindex,
            Some(name),
            range.0,
            range.1,
            AggregateBucket::Hourly,
            cal,
        ) == b.device.hourly((ifindex, name), range.0, range.1, cal) && a.aggregate(
            ifindex,
            Some(name),
            range.0,
            range.1,
            AggregateBucket::Daily,
            cal,
        ) == b.device.daily((ifindex, name), range.0, range.1, cal),
{
}


} // verus!
