//! What requests ask for, and what they are answered.
use vstd::prelude::*;
use vstd::string::*;

use crate::bucket::{
    asks_for, bucket_bytes_total, bucket_lane, bucket_only, cumulative_from_buckets, lane_sum,
    law_bytes_of_buckets, law_only_what_is_asked_for, AggregatedBucket, HistoryDirection,
    HistoryTrafficType,
};
use crate::calendar::{may_be_period, period_range_ms, LocalCalendar, PeriodScope};
use crate::counters::{capped, is_lane, rate_in, CounterQuad};
use crate::daily::AggregateBucket;
use crate::histogram::{arg_text, names_address, HistogramHistory, HistogramModel};
use crate::history::{merged_history, samples, HistoryModel, TrafficHistory};
use crate::items::{
    copies, lemma_views_push, text_of, views, DeviceListItem, DeviceShown, Duplicate, HistorySample,
    InterfaceOverviewItem, InterfaceShown, IpListItem, SnapshotData,
};
use crate::keys::{DeviceSeriesKey, IpSeriesKey};
use crate::table::{get_or, lemma_absent};
use crate::text::{has_char, same_text};
use crate::topology::{
    by_name, index_of_name, law_interfaces_are_found, InterfaceFacts, TopologySnapshot,
};

verus! {

/// Request for the devices.
#[derive(Debug, Clone)]
pub struct DevicesQuery {
    pub iface: Option<String>,
    pub period: Option<String>,
}

/// Request for the interfaces.
#[derive(Debug, Clone)]
pub struct OverviewQuery {
    pub period: Option<String>,
}

/// Request to name a device.
#[derive(Debug, Clone)]
pub struct SetDeviceHostnameRequest {
    pub iface: String,
    pub mac: String,
    pub hostname: String,
}

/// Request to switch something on or off.
#[derive(Debug, Clone)]
pub struct SetEnabledRequest {
    pub enabled: bool,
}

/// Request for the history of an interface, by its name, or of a device behind it.
#[derive(Debug, Clone)]
pub struct HistoryQuery {
    pub iface: Option<String>,
    pub mac: Option<String>,
    pub traffic_type: Option<String>,
    pub direction: Option<String>,
}

/// Request for the buckets of an interface, by its name, or of a device or an address behind it:
/// `hourly`, which is the default, or `daily`; of `all` traffic, which is the default, or of
/// `ipv4` or `ipv6` alone.
#[derive(Debug, Clone)]
pub struct AggregateQuery {
    pub iface: Option<String>,
    pub mac: Option<String>,
    pub traffic_type: Option<String>,
    pub start_ms: Option<u64>,
    pub end_ms: Option<u64>,
    pub bucket: Option<String>,
}

/// Request for those that use most: behind one interface, by its name, or all; of `all` traffic,
/// which is the default, or of `ipv4` or `ipv6` alone. A limit of zero is none.
#[derive(Debug, Clone)]
pub struct UsageRankingQuery {
    pub iface: Option<String>,
    pub traffic_type: Option<String>,
    pub start_ms: Option<u64>,
    pub end_ms: Option<u64>,
    pub limit: Option<usize>,
}

/// An answer: what was asked for, or what was wrong.
#[derive(Debug, Clone)]
pub struct ApiEnvelope<T> {
    pub ok: bool,
    pub data: T,
    pub error: Option<String>,
}

/// The answer says what was wrong.
pub open spec fn fails_with<T>(e: ApiEnvelope<Vec<T>>, message: Seq<char>) -> bool {
    &&& !e.ok
    &&& e.data@.len() == 0
    &&& e.error matches Some(m) && m@ == message
}

/// The answer shows some items.
pub open spec fn shows<T: View>(e: ApiEnvelope<Vec<T>>, items: Seq<T::V>) -> bool {
    &&& e.ok
    &&& views(e.data@) == items
    &&& e.error is None
}

/// The answer holds some values.
pub open spec fn holds<T>(e: ApiEnvelope<Vec<T>>, values: Seq<T>) -> bool {
    &&& e.ok
    &&& e.data@ == values
    &&& e.error is None
}

fn failure<T>(message: String) -> (e: ApiEnvelope<Vec<T>>)
    ensures
        fails_with(e, message@),
{
    ApiEnvelope { ok: false, data: Vec::new(), error: Some(message) }
}

fn success<T>(data: Vec<T>) -> (e: ApiEnvelope<Vec<T>>)
    ensures
        holds(e, data@),
{
    ApiEnvelope { ok: true, data, error: None }
}

/// The text of an optional string.
fn text_arg(s: &Option<String>) -> (r: Option<&str>)
    ensures
        arg_text(r) == text_of(*s),
{
    match s {
        Some(t) => Some(t.as_str()),
        None => None,
    }
}

/// The text of an optional string, or a default.
pub open spec fn text_or(s: Option<String>, default: Seq<char>) -> Seq<char> {
    match s {
        Some(t) => t@,
        None => default,
    }
}

/// The IP versions that a request asks for. What is not known counts as all.
pub open spec fn traffic_type_of(s: Option<String>) -> HistoryTrafficType {
    let text = text_or(s, "all"@);
    if text == "ipv4"@ {
        HistoryTrafficType::Ipv4
    } else if text == "ipv6"@ {
        HistoryTrafficType::Ipv6
    } else {
        HistoryTrafficType::All
    }
}

/// The directions that a request asks for. What is not known counts as both.
pub open spec fn direction_of(s: Option<String>) -> HistoryDirection {
    let text = text_or(s, "both"@);
    if text == "up"@ {
        HistoryDirection::Up
    } else if text == "down"@ {
        HistoryDirection::Down
    } else {
        HistoryDirection::Both
    }
}

/// The IP versions that a request asks for.
pub fn parse_traffic_type(s: &Option<String>) -> (r: HistoryTrafficType)
    ensures
        r == traffic_type_of(*s),
{
    let text = match s {
        Some(t) => t.as_str(),
        None => "all",
    };
    if same_text(text, "ipv4") {
        HistoryTrafficType::Ipv4
    } else if same_text(text, "ipv6") {
        HistoryTrafficType::Ipv6
    } else {
        HistoryTrafficType::All
    }
}

/// The directions that a request asks for.
pub fn parse_direction(s: &Option<String>) -> (r: HistoryDirection)
    ensures
        r == direction_of(*s),
{
    let text = match s {
        Some(t) => t.as_str(),
        None => "both",
    };
    if same_text(text, "up") {
        HistoryDirection::Up
    } else if same_text(text, "down") {
        HistoryDirection::Down
    } else {
        HistoryDirection::Both
    }
}

/// The period that a request asks for, where it asks for one; nothing where it is not known.
pub open spec fn period_of(s: Option<Seq<char>>) -> Option<Option<PeriodScope>> {
    match s {
        None => Some(None),
        Some(text) => if text == "today"@ {
            Some(Some(PeriodScope::Today))
        } else if text == "yesterday"@ {
            Some(Some(PeriodScope::Yesterday))
        } else if text == "this_week"@ {
            Some(Some(PeriodScope::ThisWeek))
        } else if text == "last_week"@ {
            Some(Some(PeriodScope::LastWeek))
        } else if text == "this_month"@ {
            Some(Some(PeriodScope::ThisMonth))
        } else if text == "last_month"@ {
            Some(Some(PeriodScope::LastMonth))
        } else if text == ""@ {
            Some(None)
        } else {
            None
        },
    }
}

/// The period that a request asks for, where it asks for one.
pub fn parse_period_scope(s: Option<&str>) -> (r: Result<Option<PeriodScope>, String>)
    ensures
        match period_of(arg_text(s)) {
            Some(p) => r == Ok::<Option<PeriodScope>, String>(p),
            None => r matches Err(e) && e@ == "unknown period: "@ + arg_text(s)->0,
        },
{
    let text = match s {
        None => {
            return Ok(None);
        },
        Some(text) => text,
    };
    if same_text(text, "today") {
        Ok(Some(PeriodScope::Today))
    } else if same_text(text, "yesterday") {
        Ok(Some(PeriodScope::Yesterday))
    } else if same_text(text, "this_week") {
        Ok(Some(PeriodScope::ThisWeek))
    } else if same_text(text, "last_week") {
        Ok(Some(PeriodScope::LastWeek))
    } else if same_text(text, "this_month") {
        Ok(Some(PeriodScope::ThisMonth))
    } else if same_text(text, "last_month") {
        Ok(Some(PeriodScope::LastMonth))
    } else if same_text(text, "") {
        Ok(None)
    } else {
        let mut message = "unknown period: ".to_string();
        message.append(text);
        Err(message)
    }
}

/// The length of the buckets that a request asks for, where it is known.
pub open spec fn bucket_of(s: Option<String>) -> Option<AggregateBucket> {
    let text = text_or(s, "hourly"@);
    if text == "hourly"@ {
        Some(AggregateBucket::Hourly)
    } else if text == "daily"@ {
        Some(AggregateBucket::Daily)
    } else {
        None
    }
}

/// The length of the buckets that a request asks for.
pub fn parse_bucket(s: &Option<String>) -> (r: Option<AggregateBucket>)
    ensures
        r == bucket_of(*s),
{
    let text = match s {
        Some(t) => t.as_str(),
        None => "hourly",
    };
    if same_text(text, "hourly") {
        Some(AggregateBucket::Hourly)
    } else if same_text(text, "daily") {
        Some(AggregateBucket::Daily)
    } else {
        None
    }
}

/// The message for an interface that is not known.
pub open spec fn unknown_iface(iface: Seq<char>) -> Seq<char> {
    "unknown iface: "@ + iface
}

fn unknown_iface_message(iface: &str) -> (r: String)
    ensures
        r@ == unknown_iface(iface@),
{
    let mut message = "unknown iface: ".to_string();
    message.append(iface);
    message
}

/// Answers whether anything answers.
pub fn health() -> (e: ApiEnvelope<String>)
    ensures
        e.ok,
        e.data@ == "ok"@,
        e.error is None,
{
    ApiEnvelope { ok: true, data: "ok".to_string(), error: None }
}

/// Answers with the latest snapshot.
pub fn snapshot(latest: &SnapshotData) -> (e: ApiEnvelope<SnapshotData>)
    ensures
        e.ok,
        e.data@ == latest@,
        e.error is None,
{
    ApiEnvelope { ok: true, data: latest.copy_of(), error: None }
}

/// Answers with the addresses of the latest snapshot.
pub fn ips(latest: &SnapshotData) -> (e: ApiEnvelope<Vec<IpListItem>>)
    ensures
        shows(e, latest@.ips),
{
    success(copies(&latest.ips))
}

/// What a request for history is answered: the history of a device where interface and device
/// are given, of the interface where it alone is.
pub open spec fn history_answer(
    e: ApiEnvelope<Vec<HistorySample>>,
    topology: Seq<InterfaceFacts>,
    history: HistoryModel,
    q: HistoryQuery,
) -> bool {
    match q.iface {
        None => fails_with(e, "missing iface param"@),
        Some(iface) => match index_of_name(topology, iface@) {
            None => fails_with(e, unknown_iface(iface@)),
            Some(ifindex) => match q.mac {
                Some(mac) => holds(e, merged_history(history.device, Some(ifindex), mac@)),
                None => holds(e, samples(get_or(history.iface, ifindex, Seq::empty()))),
            },
        },
    }
}

/// Answers a request for history.
pub fn history(topology: &TopologySnapshot, kept: &TrafficHistory, q: &HistoryQuery) -> (e:
    ApiEnvelope<Vec<HistorySample>>)
    ensures
        history_answer(e, topology@, kept@, *q),
{
    let traffic_type = parse_traffic_type(&q.traffic_type);
    let direction = parse_direction(&q.direction);
    let iface = match &q.iface {
        Some(iface) => iface,
        None => {
            return failure("missing iface param".to_string());
        },
    };
    let ifindex = match topology.ifindex_by_name(iface.as_str()) {
        Some(ifindex) => ifindex,
        None => {
            return failure(unknown_iface_message(iface.as_str()));
        },
    };
    match &q.mac {
        Some(mac) => success(
            kept.query_device(Some(ifindex), mac.as_str(), traffic_type, direction),
        ),
        None => success(kept.query_iface(ifindex, traffic_type, direction)),
    }
}

/// Buckets of some IP versions alone.
pub open spec fn buckets_only(
    s: Seq<AggregatedBucket>,
    traffic_type: HistoryTrafficType,
) -> Seq<AggregatedBucket> {
    s.map_values(|b: AggregatedBucket| bucket_only(b, traffic_type))
}

/// What a request for buckets is answered, given the buckets that it asks for.
pub open spec fn aggregate_answer(
    e: ApiEnvelope<Vec<AggregatedBucket>>,
    topology: Seq<InterfaceFacts>,
    histogram: HistogramModel,
    q: AggregateQuery,
    cal: LocalCalendar,
) -> bool {
    match q.iface {
        None => fails_with(e, "missing iface param"@),
        Some(iface) => match index_of_name(topology, iface@) {
            None => fails_with(e, unknown_iface(iface@)),
            Some(ifindex) => match bucket_of(q.bucket) {
                None => fails_with(e, "invalid bucket param, expect 'hourly' or 'daily'"@),
                Some(bucket) => holds(
                    e,
                    buckets_only(
                        histogram.aggregate(
                            ifindex,
                            text_of(q.mac),
                            query_start(q),
                            query_end(q),
                            bucket,
                            cal,
                        ),
                        traffic_type_of(q.traffic_type),
                    ),
                ),
            },
        },
    }
}

/// The start of the range that a request asks for.
pub open spec fn query_start(q: AggregateQuery) -> u64 {
    match q.start_ms {
        Some(ms) => ms,
        None => 0,
    }
}

/// The end of the range that a request asks for.
pub open spec fn query_end(q: AggregateQuery) -> u64 {
    match q.end_ms {
        Some(ms) => ms,
        None => u64::MAX,
    }
}

/// The calendar holds what the answer to a request for buckets depends on.
pub open spec fn aggregate_covered(
    topology: Seq<InterfaceFacts>,
    histogram: HistogramModel,
    q: AggregateQuery,
    cal: LocalCalendar,
) -> bool {
    q.iface matches Some(iface) ==> (index_of_name(topology, iface@) matches Some(ifindex) ==> (
    bucket_of(q.bucket) matches Some(bucket) ==> histogram.covered(
        ifindex,
        text_of(q.mac),
        query_start(q),
        query_end(q),
        bucket,
        cal,
    )))
}

/// Buckets of some IP versions alone.
pub fn only_of_type(buckets: &Vec<AggregatedBucket>, traffic_type: HistoryTrafficType) -> (r: Vec<
    AggregatedBucket,
>)
    ensures
        r@ == buckets_only(buckets@, traffic_type),
{
    let mut r: Vec<AggregatedBucket> = Vec::new();
    let n = buckets.len();
    let mut i: usize = 0;
    while i < n
        invariant
            i <= n,
            n == buckets@.len(),
            r@ == buckets_only(buckets@.take(i as int), traffic_type),
        decreases n - i,
    {
        r.push(buckets[i].with_traffic_type(traffic_type));
        i += 1;
        assert(r@ =~= buckets_only(buckets@.take(i as int), traffic_type));
    }
    assert(buckets@.take(i as int) =~= buckets@);
    r
}

/// Answers a request for buckets, by the given local hours and days, or, where none are given,
/// by the local time of the machine.
fn answer_aggregate(
    topology: &TopologySnapshot,
    histogram: &HistogramHistory,
    q: &AggregateQuery,
    given: Option<&LocalCalendar>,
) -> (e: ApiEnvelope<Vec<AggregatedBucket>>)
    ensures
        match given {
            Some(cal) => aggregate_answer(e, topology@, histogram@, *q, *cal),
            None => exists|cal: LocalCalendar| #[trigger]
                aggregate_covered(topology@, histogram@, *q, cal) && aggregate_answer(
                    e,
                    topology@,
                    histogram@,
                    *q,
                    cal,
                ),
        },
{
    let unread = LocalCalendar::new();
    let iface = match &q.iface {
        Some(iface) => iface,
        None => {
            assert(aggregate_covered(topology@, histogram@, *q, unread));
            return failure("missing iface param".to_string());
        },
    };
    let ifindex = match topology.ifindex_by_name(iface.as_str()) {
        Some(ifindex) => ifindex,
        None => {
            assert(aggregate_covered(topology@, histogram@, *q, unread));
            return failure(unknown_iface_message(iface.as_str()));
        },
    };
    let bucket = match parse_bucket(&q.bucket) {
        Some(bucket) => bucket,
        None => {
            assert(aggregate_covered(topology@, histogram@, *q, unread));
            return failure("invalid bucket param, expect 'hourly' or 'daily'".to_string());
        },
    };
    let start_ms = match q.start_ms {
        Some(ms) => ms,
        None => 0,
    };
    let end_ms = match q.end_ms {
        Some(ms) => ms,
        None => u64::MAX,
    };
    let mac = text_arg(&q.mac);
    let data = match given {
        Some(cal) => histogram.query_aggregate_in(ifindex, mac, start_ms, end_ms, bucket, cal),
        None => {
            let cal = histogram.calendar_for(ifindex, mac, start_ms, end_ms, bucket);
            assert(aggregate_covered(topology@, histogram@, *q, cal));
            histogram.query_aggregate_in(ifindex, mac, start_ms, end_ms, bucket, &cal)
        },
    };
    success(only_of_type(&data, parse_traffic_type(&q.traffic_type)))
}

/// Answers a request for buckets, by the given local hours and days.
pub fn aggregate_in(
    topology: &TopologySnapshot,
    histogram: &HistogramHistory,
    q: &AggregateQuery,
    cal: &LocalCalendar,
) -> (e: ApiEnvelope<Vec<AggregatedBucket>>)
    ensures
        aggregate_answer(e, topology@, histogram@, *q, *cal),
{
    answer_aggregate(topology, histogram, q, Some(cal))
}

/// Answers a request for buckets, by the local time of the machine.
pub fn aggregate(
    topology: &TopologySnapshot,
    histogram: &HistogramHistory,
    q: &AggregateQuery,
) -> (e: ApiEnvelope<Vec<AggregatedBucket>>)
    ensures
        exists|cal: LocalCalendar| #[trigger]
            aggregate_covered(topology@, histogram@, *q, cal) && aggregate_answer(
                e,
                topology@,
                histogram@,
                *q,
                cal,
            ),
{
    answer_aggregate(topology, histogram, q, None)
}

/// The bytes of a series in a range, by its hourly buckets.
pub open spec fn bytes_in(
    histogram: HistogramModel,
    ifindex: u32,
    mac_or_ip: Option<Seq<char>>,
    range: (u64, u64),
    cal: LocalCalendar,
) -> CounterQuad {
    bucket_bytes_total(
        histogram.aggregate(ifindex, mac_or_ip, range.0, range.1, AggregateBucket::Hourly, cal),
    )
}

/// An interface with its totals in a range in place of all of them.
pub open spec fn iface_in_range(
    i: InterfaceShown,
    histogram: HistogramModel,
    range: (u64, u64),
    cal: LocalCalendar,
) -> InterfaceShown {
    InterfaceShown { cumulative: bytes_in(histogram, i.ifindex, None, range, cal), ..i }
}

/// Interfaces with their totals in a range, where one is given, in place of all of them.
pub open spec fn ifaces_in_range(
    items: Seq<InterfaceShown>,
    histogram: HistogramModel,
    range: Option<(u64, u64)>,
    cal: LocalCalendar,
) -> Seq<InterfaceShown> {
    match range {
        Some(r) => items.map_values(|i: InterfaceShown| iface_in_range(i, histogram, r, cal)),
        None => items,
    }
}

/// A device with its totals in a range in place of all of them.
pub open spec fn device_in_range(
    d: DeviceShown,
    histogram: HistogramModel,
    range: (u64, u64),
    cal: LocalCalendar,
) -> DeviceShown {
    DeviceShown { cumulative: bytes_in(histogram, d.ifindex, Some(d.mac), range, cal), ..d }
}

/// Devices with their totals in a range, where one is given, in place of all of them.
pub open spec fn devices_in_range(
    items: Seq<DeviceShown>,
    histogram: HistogramModel,
    range: Option<(u64, u64)>,
    cal: LocalCalendar,
) -> Seq<DeviceShown> {
    match range {
        Some(r) => items.map_values(|d: DeviceShown| device_in_range(d, histogram, r, cal)),
        None => items,
    }
}

/// The devices behind an interface, where one is given.
pub open spec fn devices_behind(items: Seq<DeviceShown>, ifindex: Option<u32>) -> Seq<DeviceShown>
    decreases items.len(),
{
    match ifindex {
        None => items,
        Some(i) => if items.len() == 0 {
            items
        } else {
            let before = devices_behind(items.drop_last(), ifindex);
            if items.last().ifindex == i {
                before.push(items.last())
            } else {
                before
            }
        },
    }
}

/// Interfaces with their totals in a range, where one is given, by the given local hours.
pub fn overview_in(
    latest: &SnapshotData,
    histogram: &HistogramHistory,
    range: Option<(u64, u64)>,
    cal: &LocalCalendar,
) -> (r: Vec<InterfaceOverviewItem>)
    ensures
        views(r@) == ifaces_in_range(latest@.interfaces, histogram@, range, *cal),
{
    let (start_ms, end_ms) = match range {
        None => {
            return copies(&latest.interfaces);
        },
        Some(bounds) => bounds,
    };
    let mut r: Vec<InterfaceOverviewItem> = Vec::new();
    let n = latest.interfaces.len();
    let mut i: usize = 0;
    while i < n
        invariant
            i <= n,
            n == latest.interfaces@.len(),
            r@.len() == i,
            forall|j: int|
                0 <= j < i ==> (#[trigger] r@[j])@ == iface_in_range(
                    latest.interfaces@[j]@,
                    histogram@,
                    (start_ms, end_ms),
                    *cal,
                ),
        decreases n - i,
    {
        let mut item = latest.interfaces[i].copy_of();
        let buckets = histogram.query_aggregate_in(
            item.ifindex,
            None,
            start_ms,
            end_ms,
            AggregateBucket::Hourly,
            cal,
        );
        item.cumulative = cumulative_from_buckets(buckets.as_slice());
        r.push(item);
        i += 1;
    }
    assert(views(r@) =~= ifaces_in_range(latest@.interfaces, histogram@, range, *cal));
    r
}

/// The devices behind an interface, where one is given, with their totals in a range, where one
/// is given, by the given local hours.
pub fn devices_in(
    latest: &SnapshotData,
    histogram: &HistogramHistory,
    ifindex: Option<u32>,
    range: Option<(u64, u64)>,
    cal: &LocalCalendar,
) -> (r: Vec<DeviceListItem>)
    ensures
        views(r@) == devices_in_range(
            devices_behind(latest@.devices, ifindex),
            histogram@,
            range,
            *cal,
        ),
{
    let mut r: Vec<DeviceListItem> = Vec::new();
    let ghost all = latest@.devices;
    let n = latest.devices.len();
    let mut i: usize = 0;
    assert(views(r@) =~= devices_in_range(
        devices_behind(all.take(0), ifindex),
        histogram@,
        range,
        *cal,
    ));
    while i < n
        invariant
            i <= n,
            n == latest.devices@.len(),
            all == latest@.devices,
            views(r@) == devices_in_range(
                devices_behind(all.take(i as int), ifindex),
                histogram@,
                range,
                *cal,
            ),
        decreases n - i,
    {
        let device = &latest.devices[i];
        assert(all.take(i + 1).drop_last() =~= all.take(i as int));
        assert(all[i as int] == device@);
        assert(all.take(i + 1) =~= all.take(i as int).push(device@));
        let ghost before = devices_behind(all.take(i as int), ifindex);
        let wanted = match ifindex {
            Some(index) => device.ifindex == index,
            None => true,
        };
        if wanted {
            let mut item = device.copy_of();
            if let Some((start_ms, end_ms)) = range {
                let buckets = histogram.query_aggregate_in(
                    item.ifindex,
                    Some(item.mac.as_str()),
                    start_ms,
                    end_ms,
                    AggregateBucket::Hourly,
                    cal,
                );
                item.cumulative = cumulative_from_buckets(buckets.as_slice());
            }
            proof {
                lemma_views_push(r@, item);
                assert(devices_behind(all.take(i + 1), ifindex) =~= before.push(device@));
                assert(devices_in_range(before.push(device@), histogram@, range, *cal)
                    =~= devices_in_range(before, histogram@, range, *cal).push(item@));
            }
            r.push(item);
        }
        i += 1;
    }
    assert(all.take(i as int) =~= all);
    r
}

/// The calendar holds the hours that the hourly buckets of a device depend on.
pub open spec fn device_hours_known(
    histogram: HistogramModel,
    d: DeviceShown,
    cal: LocalCalendar,
) -> bool {
    if names_address(d.mac) {
        histogram.ip.hours_known((d.ifindex, d.mac), cal)
    } else {
        histogram.device.hours_known((d.ifindex, d.mac), cal)
    }
}

/// The calendar holds the hours that the totals of interfaces in a range depend on.
pub open spec fn ifaces_covered(
    items: Seq<InterfaceShown>,
    histogram: HistogramModel,
    cal: LocalCalendar,
) -> bool {
    &&& cal.faithful()
    &&& forall|i: int|
        0 <= i < items.len() ==> histogram.iface.hours_known((#[trigger] items[i]).ifindex, cal)
}

/// The calendar holds the hours that the totals of devices in a range depend on.
pub open spec fn devices_covered(
    items: Seq<DeviceShown>,
    histogram: HistogramModel,
    cal: LocalCalendar,
) -> bool {
    &&& cal.faithful()
    &&& forall|i: int|
        0 <= i < items.len() ==> device_hours_known(histogram, #[trigger] items[i], cal)
}

fn calendar_for_ifaces(latest: &SnapshotData, histogram: &HistogramHistory) -> (cal: LocalCalendar)
    ensures
        ifaces_covered(latest@.interfaces, histogram@, cal),
{
    let mut cal = LocalCalendar::new();
    let n = latest.interfaces.len();
    let mut i: usize = 0;
    while i < n
        invariant
            i <= n,
            n == latest.interfaces@.len(),
            cal.faithful(),
            forall|j: int|
                0 <= j < i ==> histogram@.iface.hours_known(
                    (#[trigger] latest@.interfaces[j]).ifindex,
                    cal,
                ),
        decreases n - i,
    {
        histogram.iface.learn_hours(&latest.interfaces[i].ifindex, &mut cal);
        assert(latest@.interfaces[i as int].ifindex == latest.interfaces@[i as int].ifindex);
        i += 1;
    }
    cal
}

fn calendar_for_devices(latest: &SnapshotData, histogram: &HistogramHistory) -> (cal: LocalCalendar)
    ensures
        devices_covered(latest@.devices, histogram@, cal),
{
    let mut cal = LocalCalendar::new();
    let n = latest.devices.len();
    let mut i: usize = 0;
    while i < n
        invariant
            i <= n,
            n == latest.devices@.len(),
            cal.faithful(),
            forall|j: int|
                0 <= j < i ==> device_hours_known(
                    histogram@,
                    #[trigger] latest@.devices[j],
                    cal,
                ),
        decreases n - i,
    {
        let d = &latest.devices[i];
        assert(latest@.devices[i as int] == d@);
        if has_char(d.mac.as_str(), '.') || has_char(d.mac.as_str(), ':') {
            let key = IpSeriesKey { ifindex: d.ifindex, ip: d.mac.clone() };
            histogram.ip.learn_hours(&key, &mut cal);
        } else {
            let key = DeviceSeriesKey { ifindex: d.ifindex, mac: d.mac.clone() };
            histogram.device.learn_hours(&key, &mut cal);
        }
        i += 1;
    }
    cal
}

/// The message for a period that is not known.
pub open spec fn unknown_period(period: Option<String>) -> Seq<char> {
    "unknown period: "@ + text_or(period, Seq::empty())
}

/// Answers a request for the interfaces, with their totals in a period where one is asked for.
/// There is no answer where the bounds of the period cannot be told.
pub fn overview(
    latest: &SnapshotData,
    histogram: &HistogramHistory,
    q: &OverviewQuery,
    now_ms: u64,
) -> (r: Option<ApiEnvelope<Vec<InterfaceOverviewItem>>>)
    ensures
        match period_of(text_of(q.period)) {
            None => r matches Some(e) && fails_with(e, unknown_period(q.period)),
            Some(None) => r matches Some(e) && shows(e, latest@.interfaces),
            Some(Some(scope)) => exists|range: Option<(u64, u64)>, cal: LocalCalendar|
                #![trigger may_be_period(scope, now_ms, range), ifaces_covered(latest@.interfaces, histogram@, cal)]
                may_be_period(scope, now_ms, range) && ifaces_covered(
                    latest@.interfaces,
                    histogram@,
                    cal,
                ) && match range {
                    None => r is None,
                    Some(_) => r matches Some(e) && shows(
                        e,
                        ifaces_in_range(latest@.interfaces, histogram@, range, cal),
                    ),
                },
        },
{
    let scope = match parse_period_scope(text_arg(&q.period)) {
        Err(message) => {
            return Some(failure(message));
        },
        Ok(None) => {
            return Some(success(copies(&latest.interfaces)));
        },
        Ok(Some(scope)) => scope,
    };
    let range = period_range_ms(scope, now_ms);
    let cal = calendar_for_ifaces(latest, histogram);
    assert(may_be_period(scope, now_ms, range));
    assert(ifaces_covered(latest@.interfaces, histogram@, cal));
    match range {
        None => None,
        Some(_) => Some(success(overview_in(latest, histogram, range, &cal))),
    }
}

/// Answers a request for the devices, behind one interface where it is given, with their totals
/// in a period where one is asked for. There is no answer where the bounds of the period cannot
/// be told.
pub fn devices(
    topology: &TopologySnapshot,
    latest: &SnapshotData,
    histogram: &HistogramHistory,
    q: &DevicesQuery,
    now_ms: u64,
) -> (r: Option<ApiEnvelope<Vec<DeviceListItem>>>)
    ensures
        match (q.iface, period_of(text_of(q.period))) {
            (Some(iface), _) if index_of_name(topology@, iface@) is None => r matches Some(e)
                && fails_with(e, unknown_iface(iface@)),
            (_, None) => r matches Some(e) && fails_with(e, unknown_period(q.period)),
            (_, Some(None)) => r matches Some(e) && shows(
                e,
                devices_behind(latest@.devices, asked_interface(topology@, q.iface)),
            ),
            (_, Some(Some(scope))) => exists|range: Option<(u64, u64)>, cal: LocalCalendar|
                #![trigger may_be_period(scope, now_ms, range), devices_covered(latest@.devices, histogram@, cal)]
                may_be_period(scope, now_ms, range) && devices_covered(
                    latest@.devices,
                    histogram@,
                    cal,
                ) && match range {
                    None => r is None,
                    Some(_) => r matches Some(e) && shows(
                        e,
                        devices_in_range(
                            devices_behind(latest@.devices, asked_interface(topology@, q.iface)),
                            histogram@,
                            range,
                            cal,
                        ),
                    ),
                },
        },
{
    let ifindex = match &q.iface {
        None => None,
        Some(iface) => match topology.ifindex_by_name(iface.as_str()) {
            None => {
                return Some(failure(unknown_iface_message(iface.as_str())));
            },
            Some(index) => Some(index),
        },
    };
    let scope = match parse_period_scope(text_arg(&q.period)) {
        Err(message) => {
            return Some(failure(message));
        },
        Ok(None) => {
            let cal = LocalCalendar::new();
            return Some(success(devices_in(latest, histogram, ifindex, None, &cal)));
        },
        Ok(Some(scope)) => scope,
    };
    let range = period_range_ms(scope, now_ms);
    let cal = calendar_for_devices(latest, histogram);
    assert(may_be_period(scope, now_ms, range));
    assert(devices_covered(latest@.devices, histogram@, cal));
    match range {
        None => None,
        Some(_) => Some(success(devices_in(latest, histogram, ifindex, range, &cal))),
    }
}

/// The index of the interface that a request asks for, where it asks for one.
pub open spec fn asked_interface(
    topology: Seq<InterfaceFacts>,
    iface: Option<String>,
) -> Option<u32> {
    match iface {
        Some(name) => index_of_name(topology, name@),
        None => None,
    }
}

/// A request for one IP version is answered, by the same local hours and days, as the request for
/// all is: with the same buckets in the same order, each without the bytes and rates of the other
/// version.
pub proof fn law_buckets_of_one_version(
    all: ApiEnvelope<Vec<AggregatedBucket>>,
    one: ApiEnvelope<Vec<AggregatedBucket>>,
    topology: Seq<InterfaceFacts>,
    histogram: HistogramModel,
    q: AggregateQuery,
    traffic_type: Option<String>,
    cal: LocalCalendar,
)
    requires
        traffic_type_of(q.traffic_type) == HistoryTrafficType::All,
        aggregate_answer(all, topology, histogram, q, cal),
        aggregate_answer(one, topology, histogram, AggregateQuery { traffic_type, ..q }, cal),
        all.ok,
    ensures
        one.ok,
        one.data@.len() == all.data@.len(),
        forall|i: int|
            0 <= i < all.data@.len() ==> #[trigger] one.data@[i] == bucket_only(
                all.data@[i],
                traffic_type_of(traffic_type),
            ),
{
}


/// The word by which a request asks for a period.
pub open spec fn period_word(scope: PeriodScope) -> Seq<char> {
    match scope {
        PeriodScope::Today => seq!['t', 'o', 'd', 'a', 'y'],
        PeriodScope::Yesterday => seq!['y', 'e', 's', 't', 'e', 'r', 'd', 'a', 'y'],
        PeriodScope::ThisWeek => seq!['t', 'h', 'i', 's', '_', 'w', 'e', 'e', 'k'],
        PeriodScope::LastWeek => seq!['l', 'a', 's', 't', '_', 'w', 'e', 'e', 'k'],
        PeriodScope::ThisMonth => seq!['t', 'h', 'i', 's', '_', 'm', 'o', 'n', 't', 'h'],
        PeriodScope::LastMonth => seq!['l', 'a', 's', 't', '_', 'm', 'o', 'n', 't', 'h'],
    }
}

/// Each period is asked for by its own word and by no other, none by an empty word or by no word,
/// and any other word is refused.
pub proof fn law_period_words(word: Seq<char>, scope: PeriodScope)
    ensures
        period_of(Some(word)) == Some(Some(scope)) <==> word == period_word(scope),
        period_of(Some(word)) == Some(None::<PeriodScope>) <==> word.len() == 0,
        period_of(None) == Some(None::<PeriodScope>),
        period_of(Some(word)) is None <==> word.len() > 0 && forall|s: PeriodScope|
            word != #[trigger] period_word(s),
{
    reveal_strlit("today");
    reveal_strlit("yesterday");
    reveal_strlit("this_week");
    reveal_strlit("last_week");
    reveal_strlit("this_month");
    reveal_strlit("last_month");
    reveal_strlit("");
    let today = period_word(PeriodScope::Today);
    let yesterday = period_word(PeriodScope::Yesterday);
    let this_week = period_word(PeriodScope::ThisWeek);
    let last_week = period_word(PeriodScope::LastWeek);
    let this_month = period_word(PeriodScope::ThisMonth);
    let last_month = period_word(PeriodScope::LastMonth);
    assert("today"@ =~= today);
    assert("yesterday"@ =~= yesterday);
    assert("this_week"@ =~= this_week);
    assert("last_week"@ =~= last_week);
    assert("this_month"@ =~= this_month);
    assert("last_month"@ =~= last_month);
    assert(""@ =~= Seq::empty());
    if word.len() == 0 {
        assert(word =~= Seq::empty());
    }
    assert(yesterday[0] == 'y' && this_week[0] == 't' && last_week[0] == 'l');
    assert(this_month[0] == 't' && last_month[0] == 'l');
    if period_of(Some(word)) is None {
        assert forall|s: PeriodScope| word != #[trigger] period_word(s) by {
            match s {
                PeriodScope::Today => {},
                PeriodScope::Yesterday => {},
                PeriodScope::ThisWeek => {},
                PeriodScope::LastWeek => {},
                PeriodScope::ThisMonth => {},
                PeriodScope::LastMonth => {},
            }
        }
    }
}

/// One IP version is asked for by its own word alone; any other word, and none, asks for both. The
/// same holds of the directions.
pub proof fn law_words_of_versions_and_directions(s: Option<String>)
    ensures
        traffic_type_of(s) == HistoryTrafficType::Ipv4 <==> s is Some && s->0@ == seq![
            'i',
            'p',
            'v',
            '4',
        ],
        traffic_type_of(s) == HistoryTrafficType::Ipv6 <==> s is Some && s->0@ == seq![
            'i',
            'p',
            'v',
            '6',
        ],
        direction_of(s) == HistoryDirection::Up <==> s is Some && s->0@ == seq!['u', 'p'],
        direction_of(s) == HistoryDirection::Down <==> s is Some && s->0@ == seq![
            'd',
            'o',
            'w',
            'n',
        ],
{
    reveal_strlit("all");
    reveal_strlit("ipv4");
    reveal_strlit("ipv6");
    reveal_strlit("both");
    reveal_strlit("up");
    reveal_strlit("down");
    assert("ipv4"@ =~= seq!['i', 'p', 'v', '4']);
    assert("ipv6"@ =~= seq!['i', 'p', 'v', '6']);
    assert("up"@ =~= seq!['u', 'p']);
    assert("down"@ =~= seq!['d', 'o', 'w', 'n']);
    assert("ipv4"@[3] != "ipv6"@[3]);
    assert("all"@.len() == 3);
    assert("both"@.len() == 4 && "both"@[0] == 'b');
    assert("down"@[0] == 'd');
}

/// Hourly buckets are asked for by their word and by none at all, daily ones by theirs, and any
/// other word is refused.
pub proof fn law_words_of_buckets(s: Option<String>)
    ensures
        bucket_of(s) == Some(AggregateBucket::Hourly) <==> s is None || s->0@ == seq![
            'h',
            'o',
            'u',
            'r',
            'l',
            'y',
        ],
        bucket_of(s) == Some(AggregateBucket::Daily) <==> s is Some && s->0@ == seq![
            'd',
            'a',
            'i',
            'l',
            'y',
        ],
{
    reveal_strlit("hourly");
    reveal_strlit("daily");
    assert("hourly"@ =~= seq!['h', 'o', 'u', 'r', 'l', 'y']);
    assert("daily"@ =~= seq!['d', 'a', 'i', 'l', 'y']);
    assert("hourly"@.len() != "daily"@.len());
}

/// A request without a start asks from the first instant on, one without an end until the last.
pub proof fn law_range_of_request(q: AggregateQuery, t: u64)
    ensures
        query_start(q) <= t <==> (q.start_ms matches Some(start) ==> start <= t),
        t <= query_end(q) <==> (q.end_ms matches Some(end) ==> t <= end),
{
}

/// The devices behind an interface are all that are shown there, in order, and without an
/// interface all that are shown.
pub proof fn law_devices_behind_interface(items: Seq<DeviceShown>, ifindex: Option<u32>)
    ensures
        devices_behind(items, ifindex) == items.filter(
            |d: DeviceShown| ifindex matches Some(i) ==> d.ifindex == i,
        ),
    decreases items.len(),
{
    reveal(Seq::filter);
    let kept = |d: DeviceShown| ifindex matches Some(i) ==> d.ifindex == i;
    if items.len() > 0 {
        law_devices_behind_interface(items.drop_last(), ifindex);
        if ifindex is None {
            assert(items.drop_last().push(items.last()) =~= items);
        }
    } else {
        assert(items.filter(kept) =~= items);
    }
}

/// Counters hold the bytes of some buckets, and no rates.
pub open spec fn holds_bytes_of(c: CounterQuad, buckets: Seq<AggregatedBucket>) -> bool {
    forall|ip_version: u8, direction: u8|
        #![trigger rate_in(c, ip_version, direction)]
        is_lane(ip_version, direction) ==> rate_in(c, ip_version, direction) == 0
            && crate::counters::bytes_in(c, ip_version, direction) == capped(
            lane_sum(buckets, ip_version, direction),
        )
}

/// In a period an interface keeps what it shows but for its total, which is that of its hours in
/// the period; without a period it keeps its total too.
pub proof fn law_interfaces_in_period(
    items: Seq<InterfaceShown>,
    histogram: HistogramModel,
    range: (u64, u64),
    cal: LocalCalendar,
    i: int,
)
    requires
        0 <= i < items.len(),
    ensures
        ({
            let shown = ifaces_in_range(items, histogram, Some(range), cal);
            &&& ifaces_in_range(items, histogram, None, cal) == items
            &&& shown.len() == items.len()
            &&& shown[i].ifindex == items[i].ifindex
            &&& shown[i].ifname == items[i].ifname
            &&& shown[i].zone == items[i].zone
            &&& shown[i].metrics == items[i].metrics
            &&& holds_bytes_of(
                shown[i].cumulative,
                histogram.iface.hourly(items[i].ifindex, range.0, range.1, cal),
            )
        }),
{
    let hours = histogram.iface.hourly(items[i].ifindex, range.0, range.1, cal);
    let c = ifaces_in_range(items, histogram, Some(range), cal)[i].cumulative;
    lemma_holds_bytes(c, hours);
}

proof fn lemma_holds_bytes(c: CounterQuad, hours: Seq<AggregatedBucket>)
    requires
        c == bucket_bytes_total(hours),
    ensures
        holds_bytes_of(c, hours),
{
    assert forall|v: u8, d: u8| #![trigger rate_in(c, v, d)] is_lane(v, d) implies rate_in(c, v, d)
        == 0 && crate::counters::bytes_in(c, v, d) == capped(lane_sum(hours, v, d)) by {
        law_bytes_of_buckets(hours, v, d);
    }
}

/// In a period a device keeps what it shows but for its total, which is that of the hours in the
/// period of the series under its MAC address: the one among addresses, where the text has a dot
/// or a colon, else the one among devices. Without a period it keeps its total too.
pub proof fn law_devices_in_period(
    items: Seq<DeviceShown>,
    histogram: HistogramModel,
    range: (u64, u64),
    cal: LocalCalendar,
    i: int,
)
    requires
        0 <= i < items.len(),
    ensures
        ({
            let shown = devices_in_range(items, histogram, Some(range), cal);
            let key = (items[i].ifindex, items[i].mac);
            let hours = if items[i].mac.contains('.') || items[i].mac.contains(':') {
                histogram.ip.hourly(key, range.0, range.1, cal)
            } else {
                histogram.device.hourly(key, range.0, range.1, cal)
            };
            &&& devices_in_range(items, histogram, None, cal) == items
            &&& shown.len() == items.len()
            &&& shown[i] == (DeviceShown { cumulative: shown[i].cumulative, ..items[i] })
            &&& holds_bytes_of(shown[i].cumulative, hours)
        }),
{
    let shown = devices_in_range(items, histogram, Some(range), cal);
    let key = (items[i].ifindex, items[i].mac);
    let hours = if items[i].mac.contains('.') || items[i].mac.contains(':') {
        histogram.ip.hourly(key, range.0, range.1, cal)
    } else {
        histogram.device.hourly(key, range.0, range.1, cal)
    };
    lemma_holds_bytes(shown[i].cumulative, hours);
}

/// A request for history is answered where its interface is known, else refused: it says which
/// interface is not known. Whatever IP version and direction it asks for, the answer is the same.
pub proof fn law_history_requests(
    e: ApiEnvelope<Vec<HistorySample>>,
    other: ApiEnvelope<Vec<HistorySample>>,
    topology: Seq<InterfaceFacts>,
    history: HistoryModel,
    q: HistoryQuery,
    traffic_type: Option<String>,
    direction: Option<String>,
)
    requires
        history_answer(e, topology, history, q),
        history_answer(
            other,
            topology,
            history,
            HistoryQuery { traffic_type, direction, ..q },
        ),
    ensures
        e.ok <==> q.iface is Some && exists|i: int|
            0 <= i < topology.len() && (#[trigger] topology[i]).name == q.iface->0@,
        e.ok <==> e.error is None,
        !e.ok ==> e.data@.len() == 0,
        !e.ok && q.iface is Some ==> (e.error->0@).len() == 15 + q.iface->0@.len()
            && e.error->0@.skip(15) =~= q.iface->0@,
        e.ok == other.ok,
        e.data@ == other.data@,
{
    if let Some(iface) = q.iface {
        reveal_strlit("unknown iface: ");
        if exists|i: int| 0 <= i < topology.len() && (#[trigger] topology[i]).name == iface@ {
            let i = choose|i: int| 0 <= i < topology.len() && (#[trigger] topology[i]).name == iface@;
            law_interfaces_are_found(topology, i);
        } else {
            let names = by_name(topology);
            assert forall|j: int| 0 <= j < names.len() implies (#[trigger] names[j]).0 != iface@ by {
                assert(topology[j].name != iface@);
            }
            lemma_absent(names, iface@);
        }
    }
}


/// A request for buckets is answered where its interface is known and the length of the buckets
/// is, else refused: first for want of an interface, then for the length. The answer has one
/// bucket for each of the series that is asked for, with its time.
pub proof fn law_bucket_requests(
    e: ApiEnvelope<Vec<AggregatedBucket>>,
    topology: Seq<InterfaceFacts>,
    histogram: HistogramModel,
    q: AggregateQuery,
    cal: LocalCalendar,
)
    requires
        aggregate_answer(e, topology, histogram, q, cal),
    ensures
        e.ok <==> e.error is None,
        !e.ok ==> e.data@.len() == 0,
        e.ok <==> q.iface is Some && index_of_name(topology, q.iface->0@) is Some && bucket_of(
            q.bucket,
        ) is Some,
        !e.ok && q.iface is Some && index_of_name(topology, q.iface->0@) is None ==> (
        e.error->0@).skip(15) =~= q.iface->0@,
        e.ok ==> {
            let asked = histogram.aggregate(
                index_of_name(topology, q.iface->0@)->0,
                text_of(q.mac),
                query_start(q),
                query_end(q),
                bucket_of(q.bucket)->0,
                cal,
            );
            &&& e.data@.len() == asked.len()
            &&& forall|i: int|
                0 <= i < asked.len() ==> (#[trigger] e.data@[i]).start_ts_ms == asked[i].start_ts_ms
                    && e.data@[i].end_ts_ms == asked[i].end_ts_ms
            &&& forall|i: int, v: u8, d: u8|
                #![trigger bucket_lane(e.data@[i], v, d)]
                0 <= i < asked.len() && is_lane(v, d) && asks_for(
                    traffic_type_of(q.traffic_type),
                    v,
                ) ==> bucket_lane(e.data@[i], v, d) == bucket_lane(asked[i], v, d)
        },
{
    if let Some(iface) = q.iface {
        reveal_strlit("unknown iface: ");
        if index_of_name(topology, iface@) is Some && bucket_of(q.bucket) is Some {
            let asked = histogram.aggregate(
                index_of_name(topology, iface@)->0,
                text_of(q.mac),
                query_start(q),
                query_end(q),
                bucket_of(q.bucket)->0,
                cal,
            );
            let none = crate::counters::zero_quad();
            let asked_type = traffic_type_of(q.traffic_type);
            assert forall|i: int, v: u8, d: u8|
                #![trigger bucket_lane(e.data@[i], v, d)]
                0 <= i < asked.len() && is_lane(v, d) && asks_for(
                    asked_type,
                    v,
                ) implies bucket_lane(e.data@[i], v, d) == bucket_lane(asked[i], v, d) by {
                law_only_what_is_asked_for(none, asked[i], asked_type, v, d);
                assert(e.data@[i] == bucket_only(asked[i], asked_type));
            }
            assert forall|i: int| 0 <= i < asked.len() implies (#[trigger] e.data@[i]).start_ts_ms
                == asked[i].start_ts_ms && e.data@[i].end_ts_ms == asked[i].end_ts_ms by {
                law_only_what_is_asked_for(none, asked[i], asked_type, 4, 1);
                assert(e.data@[i] == bucket_only(asked[i], asked_type));
            }
        }
    }
}


} // verus!
