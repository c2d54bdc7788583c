//! What is kept on disk: the names of the files, what goes into them, and what is made of them
//! when they are read again.
use vstd::prelude::*;
use vstd::string::*;
use vstd::utf8::encode_utf8;

use crate::bucket::{AggregatedBucket, CurrentHourPointState};
use crate::calendar::{hourly_bucket_local, may_be_hour};
use crate::histogram::{point_copies, HistogramHistory, HistogramModel};
use crate::items::{lemma_views_push, views};
use crate::keys::DeviceSeriesKey;
use crate::names::{encode_component, hex_text, law_two_digits_each, mac_digits, normalize_mac_hex};
use crate::ring::{
    advanced, append_ring_record, compact, default_ring_header, header_bytes, header_wf,
    law_header_round_trip, law_ring_keeps_recent, min_size, open_or_create_ring, parse_header,
    record_bytes, ring_after, size_fits, slot_offset, write_ring_header, written, RingAppend,
    RingError, RingHeader, RingOpen, RingRecord,
};
use crate::series::{law_current_stays_distinct, SeriesModel};
use crate::table::{lemma_absent, occurs, put, unique_keys};
use crate::text::{decimal, law_digits, lemma_hex_char, push_decimal};
use crate::topology::{index_of_name, interface_at, InterfaceFacts, TopologySnapshot};

verus! {

/// Version of the file of rate limits.
pub const POLICY_SCHEMA_VERSION: u32 = 1;

/// Version of the file of devices.
pub const DEVICES_SCHEMA_VERSION: u32 = 1;

/// Version of the file of the running hour.
pub const CURRENT_HOUR_SCHEMA_VERSION: u32 = 1;

/// The rate limits as they are saved.
#[derive(Debug, Clone)]
pub struct PersistedPolicyFile<S> {
    pub schema_version: u32,
    pub state: S,
}

/// The devices as they are saved.
#[derive(Debug, Clone)]
pub struct PersistedDevicesFile<S> {
    pub schema_version: u32,
    pub state: S,
}

/// The running hour as it is saved.
#[derive(Debug, Clone)]
pub struct PersistedCurrentHourFile {
    pub schema_version: u32,
    pub state: PersistedCurrentHourState,
}

/// The points of the running hour as they are saved.
#[derive(Debug, Clone)]
pub struct PersistedCurrentHourState {
    pub iface: Vec<PersistedCurrentHourIface>,
    pub device: Vec<PersistedCurrentHourDevice>,
}

/// The points of the running hour of an interface as they are saved, by its name.
#[derive(Debug, Clone)]
pub struct PersistedCurrentHourIface {
    pub logical_iface: String,
    pub hour_start_ts_ms: u64,
    pub points: Vec<CurrentHourPointState>,
}

/// The points of the running hour of a device as they are saved, by the name of its interface.
#[derive(Debug, Clone)]
pub struct PersistedCurrentHourDevice {
    pub logical_iface: String,
    pub mac: String,
    pub hour_start_ts_ms: u64,
    pub points: Vec<CurrentHourPointState>,
}

/// The start of an hour, and points of it.
pub type HourPoints = (u64, Seq<CurrentHourPointState>);

impl View for PersistedCurrentHourIface {
    type V = (Seq<char>, HourPoints);

    open spec fn view(&self) -> (Seq<char>, HourPoints) {
        (self.logical_iface@, (self.hour_start_ts_ms, self.points@))
    }
}

impl View for PersistedCurrentHourDevice {
    type V = ((Seq<char>, Seq<char>), HourPoints);

    open spec fn view(&self) -> ((Seq<char>, Seq<char>), HourPoints) {
        ((self.logical_iface@, self.mac@), (self.hour_start_ts_ms, self.points@))
    }
}

/// What a saved file is about.
#[derive(Debug, Clone, Copy, PartialEq, Eq, Structural)]
pub enum StateFile {
    Policy,
    Devices,
    CurrentHour,
}

/// A saved file has a version that is not known.
#[derive(Debug, Clone)]
pub struct SchemaError {
    pub file: StateFile,
    pub version: u32,
    pub path: String,
}

/// How a file is called in messages.
pub open spec fn file_word(file: StateFile) -> Seq<char> {
    match file {
        StateFile::Policy => "policy"@,
        StateFile::Devices => "devices"@,
        StateFile::CurrentHour => "current-hour"@,
    }
}

impl SchemaError {
    /// The message of the error.
    pub fn message(&self) -> (s: String)
        ensures
            s@ == "unsupported "@ + file_word(self.file) + " schema version "@ + decimal(
                self.version as nat,
            ) + " in "@ + self.path@,
    {
        let mut s = "unsupported ".to_string();
        s.append(
            match self.file {
                StateFile::Policy => "policy",
                StateFile::Devices => "devices",
                StateFile::CurrentHour => "current-hour",
            },
        );
        s.append(" schema version ");
        push_decimal(&mut s, self.version as u64);
        s.append(" in ");
        s.append(self.path.as_str());
        s
    }
}

/// The path of a file in a directory.
pub open spec fn path_in(dir: Seq<char>, name: Seq<char>) -> Seq<char> {
    if dir.len() == 0 || dir.last() == '/' {
        dir + name
    } else {
        dir + seq!['/'] + name
    }
}

/// The path of a file in a directory.
pub fn join_path(dir: &str, name: &str) -> (r: String)
    ensures
        r@ == path_in(dir@, name@),
{
    let mut r = dir.to_string();
    let n = dir.unicode_len();
    if n > 0 && dir.get_char(n - 1) != '/' {
        r.push('/');
        assert(r@ =~= dir@ + seq!['/']);
    }
    r.append(name);
    r
}

/// The places in a directory where everything is kept.
#[derive(Debug, Clone)]
pub struct PersistenceManager {
    pub data_dir: String,
    pub policy_path: String,
    pub devices_path: String,
    pub current_hour_path: String,
    pub iface_traffic_dir: String,
    pub device_traffic_dir: String,
}

/// The file name of the ring of an interface.
pub open spec fn iface_ring_name(iface: Seq<char>) -> Seq<char> {
    hex_text(encode_utf8(iface)) + ".ring"@
}

/// The file name of the ring of a device, whose MAC address is given by its digits.
pub open spec fn device_ring_name(iface: Seq<char>, digits: Seq<char>) -> Seq<char> {
    hex_text(encode_utf8(iface)) + "-"@ + digits + ".ring"@
}

/// A text is not a MAC address.
#[derive(Debug, Clone)]
pub struct MacError {
    pub mac: String,
}

impl MacError {
    /// The message of the error.
    pub fn message(&self) -> (s: String)
        ensures
            s@ == "invalid mac for ring path: "@ + self.mac@,
    {
        let mut s = "invalid mac for ring path: ".to_string();
        s.append(self.mac.as_str());
        s
    }
}

/// How to append a record to a ring file.
pub enum AppendPlan {
    /// The header of the file contradicts itself: nothing is written.
    Fail(RingError),
    /// Write a record. A damaged file is moved out of the way first; then, or where there is no
    /// file, one with the given first bytes is made.
    Write { quarantine: bool, create: Option<Vec<u8>>, append: RingAppend },
}

/// The header of a ring without records.
pub open spec fn new_ring_header() -> RingHeader {
    RingHeader { slot_count: 8760, write_pos: 0, valid_count: 0, record_size: 180 }
}

/// The writes that append a bucket to a ring with a header.
pub open spec fn appends(a: RingAppend, h: RingHeader, bucket: AggregatedBucket) -> bool {
    &&& a.offset == slot_offset(h.write_pos as int)
    &&& a.record@ == record_bytes(bucket)
    &&& a.header@ == header_bytes(advanced(h))
}

/// `plan` appends a bucket to a file of which `head` holds the first bytes, where there is one.
pub open spec fn plan_appends(
    plan: AppendPlan,
    head: Option<Seq<u8>>,
    file_len: u64,
    bucket: AggregatedBucket,
) -> bool {
    let made_anew = |quarantine: bool|
        plan matches AppendPlan::Write { quarantine: q, create: Some(block), append } && q
            == quarantine && block@ == header_bytes(new_ring_header()) && appends(
            append,
            new_ring_header(),
            bucket,
        );
    match head {
        None => made_anew(false),
        Some(bytes) => match parse_header(bytes) {
            Err(_) => made_anew(true),
            Ok(h) => match min_size(h) {
                Err(e) => plan == AppendPlan::Fail(e),
                Ok(_) => if size_fits(h, file_len as int) {
                    plan matches AppendPlan::Write { quarantine, create, append } && !quarantine
                        && create is None && appends(append, h, bucket)
                } else {
                    made_anew(true)
                },
            },
        },
    }
}

/// The bytes of an optional argument.
pub open spec fn arg_bytes(head: Option<&[u8]>) -> Option<Seq<u8>> {
    match head {
        Some(b) => Some(b@),
        None => None,
    }
}

/// Plans to append a bucket to a ring file of which `head` holds the first bytes and `file_len`
/// is the size; `head` is `None` where there is no file.
pub fn plan_append(head: Option<&[u8]>, file_len: u64, bucket: &AggregatedBucket) -> (plan:
    AppendPlan)
    ensures
        plan_appends(plan, arg_bytes(head), file_len, *bucket),
{
    let record = RingRecord { bucket: *bucket };
    let quarantine = match open_or_create_ring(head, file_len) {
        RingOpen::Use(header) => {
            return AppendPlan::Write {
                quarantine: false,
                create: None,
                append: append_ring_record(&header, &record),
            };
        },
        RingOpen::Fail(e) => {
            return AppendPlan::Fail(e);
        },
        RingOpen::Quarantine => true,
        RingOpen::Create(_) => false,
    };
    let header = default_ring_header();
    AppendPlan::Write {
        quarantine,
        create: Some(write_ring_header(&header)),
        append: append_ring_record(&header, &record),
    }
}

impl PersistenceManager {
    /// The places in a directory where everything is kept.
    pub fn new(data_dir: String) -> (r: PersistenceManager)
        ensures
            r.data_dir@ == data_dir@,
            r.policy_path@ == path_in(data_dir@, "policy_state.json"@),
            r.devices_path@ == path_in(data_dir@, "devices_state.json"@),
            r.current_hour_path@ == path_in(data_dir@, "current_hour_state.json"@),
            r.iface_traffic_dir@ == path_in(path_in(data_dir@, "traffic"@), "iface"@),
            r.device_traffic_dir@ == path_in(path_in(data_dir@, "traffic"@), "device"@),
    {
        let traffic = join_path(data_dir.as_str(), "traffic");
        PersistenceManager {
            policy_path: join_path(data_dir.as_str(), "policy_state.json"),
            devices_path: join_path(data_dir.as_str(), "devices_state.json"),
            current_hour_path: join_path(data_dir.as_str(), "current_hour_state.json"),
            iface_traffic_dir: join_path(traffic.as_str(), "iface"),
            device_traffic_dir: join_path(traffic.as_str(), "device"),
            data_dir,
        }
    }

    /// The directory where everything is kept.
    pub fn data_dir(&self) -> (r: &str)
        ensures
            r@ == self.data_dir@,
    {
        self.data_dir.as_str()
    }

    /// Where the rate limits are saved, and what is saved there.
    pub fn save_policy_runtime<S>(&self, state: S) -> (r: (String, PersistedPolicyFile<S>))
        ensures
            r.0@ == self.policy_path@,
            r.1 == (PersistedPolicyFile { schema_version: 1, state }),
    {
        (
            self.policy_path.clone(),
            PersistedPolicyFile { schema_version: POLICY_SCHEMA_VERSION, state },
        )
    }

    /// The rate limits of a saved file, where there is one.
    pub fn load_policy_runtime<S>(&self, data: Option<PersistedPolicyFile<S>>) -> (r: Result<
        Option<S>,
        SchemaError,
    >)
        ensures
            match data {
                None => r == Ok::<Option<S>, SchemaError>(None),
                Some(file) => if file.schema_version == 1 {
                    r == Ok::<Option<S>, SchemaError>(Some(file.state))
                } else {
                    r matches Err(e) && e.file == StateFile::Policy && e.version
                        == file.schema_version && e.path@ == self.policy_path@
                },
            },
    {
        match data {
            None => Ok(None),
            Some(file) => {
                if file.schema_version != POLICY_SCHEMA_VERSION {
                    return Err(
                        SchemaError {
                            file: StateFile::Policy,
                            version: file.schema_version,
                            path: self.policy_path.clone(),
                        },
                    );
                }
                Ok(Some(file.state))
            },
        }
    }

    /// Where the devices are saved, and what is saved there.
    pub fn save_monitor_runtime<S>(&self, state: S) -> (r: (String, PersistedDevicesFile<S>))
        ensures
            r.0@ == self.devices_path@,
            r.1 == (PersistedDevicesFile { schema_version: 1, state }),
    {
        (
            self.devices_path.clone(),
            PersistedDevicesFile { schema_version: DEVICES_SCHEMA_VERSION, state },
        )
    }

    /// The devices of a saved file, where there is one.
    pub fn load_monitor_runtime<S>(&self, data: Option<PersistedDevicesFile<S>>) -> (r: Result<
        Option<S>,
        SchemaError,
    >)
        ensures
            match data {
                None => r == Ok::<Option<S>, SchemaError>(None),
                Some(file) => if file.schema_version == 1 {
                    r == Ok::<Option<S>, SchemaError>(Some(file.state))
                } else {
                    r matches Err(e) && e.file == StateFile::Devices && e.version
                        == file.schema_version && e.path@ == self.devices_path@
                },
            },
    {
        match data {
            None => Ok(None),
            Some(file) => {
                if file.schema_version != DEVICES_SCHEMA_VERSION {
                    return Err(
                        SchemaError {
                            file: StateFile::Devices,
                            version: file.schema_version,
                            path: self.devices_path.clone(),
                        },
                    );
                }
                Ok(Some(file.state))
            },
        }
    }

    /// The path of the ring of an interface.
    pub fn iface_ring_path(&self, iface_name: &str) -> (r: String)
        ensures
            r@ == path_in(self.iface_traffic_dir@, iface_ring_name(iface_name@)),
    {
        let mut name = encode_component(iface_name);
        name.append(".ring");
        join_path(self.iface_traffic_dir.as_str(), name.as_str())
    }

    /// The path of the ring of a device.
    pub fn device_ring_path(&self, iface_name: &str, mac: &str) -> (r: Result<String, MacError>)
        ensures
            match mac_digits(mac@) {
                Some(digits) => r matches Ok(p) && p@ == path_in(
                    self.device_traffic_dir@,
                    device_ring_name(iface_name@, digits),
                ),
                None => r matches Err(e) && e.mac@ == mac@,
            },
    {
        match normalize_mac_hex(mac) {
            Some(digits) => {
                let mut name = encode_component(iface_name);
                name.append("-");
                name.append(digits.as_str());
                name.append(".ring");
                Ok(join_path(self.device_traffic_dir.as_str(), name.as_str()))
            },
            None => Err(MacError { mac: mac.to_string() }),
        }
    }

    /// Plans to append a completed hour of an interface to its ring, of which `head` holds the
    /// first bytes and `file_len` is the size; `head` is `None` where there is no file.
    pub fn append_iface_bucket(
        &self,
        iface_name: &str,
        bucket: &AggregatedBucket,
        head: Option<&[u8]>,
        file_len: u64,
    ) -> (r: (String, AppendPlan))
        ensures
            r.0@ == path_in(self.iface_traffic_dir@, iface_ring_name(iface_name@)),
            plan_appends(r.1, arg_bytes(head), file_len, *bucket),
    {
        (self.iface_ring_path(iface_name), plan_append(head, file_len, bucket))
    }

    /// Plans to append a completed hour of a device to its ring, of which `head` holds the first
    /// bytes and `file_len` is the size; `head` is `None` where there is no file.
    pub fn append_device_bucket(
        &self,
        iface_name: &str,
        mac: &str,
        bucket: &AggregatedBucket,
        head: Option<&[u8]>,
        file_len: u64,
    ) -> (r: Result<(String, AppendPlan), MacError>)
        ensures
            match mac_digits(mac@) {
                Some(digits) => r matches Ok((p, plan)) && p@ == path_in(
                    self.device_traffic_dir@,
                    device_ring_name(iface_name@, digits),
                ) && plan_appends(plan, arg_bytes(head), file_len, *bucket),
                None => r matches Err(e) && e.mac@ == mac@,
            },
    {
        match self.device_ring_path(iface_name, mac) {
            Ok(path) => Ok((path, plan_append(head, file_len, bucket))),
            Err(e) => Err(e),
        }
    }

    /// The path of the file that is to be removed where the history of a device is.
    pub fn remove_device_history_file(&self, iface_name: &str, mac: &str) -> (r: Result<
        String,
        MacError,
    >)
        ensures
            match mac_digits(mac@) {
                Some(digits) => r matches Ok(p) && p@ == path_in(
                    self.device_traffic_dir@,
                    device_ring_name(iface_name@, digits),
                ),
                None => r matches Err(e) && e.mac@ == mac@,
            },
    {
        self.device_ring_path(iface_name, mac)
    }
}

/// The name under which a damaged file is kept.
pub fn quarantine_name(file_name: &str, now_ms: u64) -> (r: String)
    ensures
        r@ == file_name@ + ".bad."@ + decimal(now_ms as nat),
{
    let mut r = file_name.to_string();
    r.append(".bad.");
    push_decimal(&mut r, now_ms);
    r
}

/// The points of the running hour of interfaces that are known, by their names.
pub open spec fn named_ifaces(
    current: Seq<(u32, HourPoints)>,
    topology: Seq<InterfaceFacts>,
) -> Seq<(Seq<char>, HourPoints)>
    decreases current.len(),
{
    if current.len() == 0 {
        Seq::empty()
    } else {
        let before = named_ifaces(current.drop_last(), topology);
        match interface_at(topology, current.last().0) {
            Some(info) => before.push((info.name, current.last().1)),
            None => before,
        }
    }
}

/// The points of the running hour of devices behind known interfaces, by the names of these.
pub open spec fn named_devices(
    current: Seq<((u32, Seq<char>), HourPoints)>,
    topology: Seq<InterfaceFacts>,
) -> Seq<((Seq<char>, Seq<char>), HourPoints)>
    decreases current.len(),
{
    if current.len() == 0 {
        Seq::empty()
    } else {
        let before = named_devices(current.drop_last(), topology);
        let ((ifindex, mac), points) = current.last();
        match interface_at(topology, ifindex) {
            Some(info) => before.push(((info.name, mac), points)),
            None => before,
        }
    }
}

/// The history with saved points of interfaces taken in: those of known interfaces and of the
/// hour that begins at `hour_start`.
pub open spec fn ifaces_loaded(
    m: SeriesModel<u32>,
    saved: Seq<(Seq<char>, HourPoints)>,
    topology: Seq<InterfaceFacts>,
    hour_start: u64,
) -> SeriesModel<u32>
    decreases saved.len(),
{
    if saved.len() == 0 {
        m
    } else {
        let before = ifaces_loaded(m, saved.drop_last(), topology, hour_start);
        let (name, (start, points)) = saved.last();
        match index_of_name(topology, name) {
            Some(ifindex) => before.with_current(ifindex, start, points, hour_start),
            None => before,
        }
    }
}

/// The history with saved points of devices taken in: those behind known interfaces and of the
/// hour that begins at `hour_start`.
pub open spec fn devices_loaded(
    m: SeriesModel<(u32, Seq<char>)>,
    saved: Seq<((Seq<char>, Seq<char>), HourPoints)>,
    topology: Seq<InterfaceFacts>,
    hour_start: u64,
) -> SeriesModel<(u32, Seq<char>)>
    decreases saved.len(),
{
    if saved.len() == 0 {
        m
    } else {
        let before = devices_loaded(m, saved.drop_last(), topology, hour_start);
        let ((name, mac), (start, points)) = saved.last();
        match index_of_name(topology, name) {
            Some(ifindex) => before.with_current((ifindex, mac), start, points, hour_start),
            None => before,
        }
    }
}

/// The history with a saved running hour taken in.
pub open spec fn current_hour_loaded(
    m: HistogramModel,
    state: PersistedCurrentHourState,
    topology: Seq<InterfaceFacts>,
    hour_start: u64,
) -> HistogramModel {
    HistogramModel {
        iface: ifaces_loaded(m.iface, views(state.iface@), topology, hour_start),
        device: devices_loaded(m.device, views(state.device@), topology, hour_start),
        ..m
    }
}

/// Taking in a saved running hour keeps the series distinct.
pub proof fn law_current_hour_stays_distinct(
    m: HistogramModel,
    state: PersistedCurrentHourState,
    topology: Seq<InterfaceFacts>,
    hour_start: u64,
)
    requires
        m.distinct(),
    ensures
        current_hour_loaded(m, state, topology, hour_start).distinct(),
{
    lemma_ifaces_loaded_distinct(m.iface, views(state.iface@), topology, hour_start);
    lemma_devices_loaded_distinct(m.device, views(state.device@), topology, hour_start);
}

proof fn lemma_ifaces_loaded_distinct(
    m: SeriesModel<u32>,
    saved: Seq<(Seq<char>, HourPoints)>,
    topology: Seq<InterfaceFacts>,
    hour_start: u64,
)
    requires
        m.distinct(),
    ensures
        ifaces_loaded(m, saved, topology, hour_start).distinct(),
    decreases saved.len(),
{
    if saved.len() > 0 {
        lemma_ifaces_loaded_distinct(m, saved.drop_last(), topology, hour_start);
        let before = ifaces_loaded(m, saved.drop_last(), topology, hour_start);
        let (name, (start, points)) = saved.last();
        if let Some(ifindex) = index_of_name(topology, name) {
            law_current_stays_distinct(before, ifindex, start, points, hour_start);
        }
    }
}

proof fn lemma_devices_loaded_distinct(
    m: SeriesModel<(u32, Seq<char>)>,
    saved: Seq<((Seq<char>, Seq<char>), HourPoints)>,
    topology: Seq<InterfaceFacts>,
    hour_start: u64,
)
    requires
        m.distinct(),
    ensures
        devices_loaded(m, saved, topology, hour_start).distinct(),
    decreases saved.len(),
{
    if saved.len() > 0 {
        lemma_devices_loaded_distinct(m, saved.drop_last(), topology, hour_start);
        let before = devices_loaded(m, saved.drop_last(), topology, hour_start);
        let ((name, mac), (start, points)) = saved.last();
        if let Some(ifindex) = index_of_name(topology, name) {
            law_current_stays_distinct(before, (ifindex, mac), start, points, hour_start);
        }
    }
}

impl PersistenceManager {
    /// Where the running hour is saved, and what is saved there: the points of known interfaces
    /// and of the devices behind them.
    pub fn save_current_hour_histogram(
        &self,
        histogram: &HistogramHistory,
        topology: &TopologySnapshot,
    ) -> (r: (String, PersistedCurrentHourFile))
        ensures
            r.0@ == self.current_hour_path@,
            r.1.schema_version == 1,
            views(r.1.state.iface@) == named_ifaces(histogram@.iface.current, topology@),
            views(r.1.state.device@) == named_devices(histogram@.device.current, topology@),
    {
        let exported = histogram.export_current_hour_state();
        let mut iface: Vec<PersistedCurrentHourIface> = Vec::new();
        let ghost all = views(exported.iface@);
        let n = exported.iface.len();
        let mut i: usize = 0;
        assert(views(iface@) =~= Seq::empty());
        while i < n
            invariant
                i <= n,
                n == exported.iface@.len(),
                all == views(exported.iface@),
                views(iface@) == named_ifaces(all.take(i as int), topology@),
            decreases n - i,
        {
            let item = &exported.iface[i];
            assert(all.take(i + 1).drop_last() =~= all.take(i as int));
            assert(all[i as int] == item@);
            if let Some(info) = topology.by_ifindex(item.ifindex) {
                let saved = PersistedCurrentHourIface {
                    logical_iface: info.name.clone(),
                    hour_start_ts_ms: item.hour_start_ts_ms,
                    points: point_copies(&item.points),
                };
                proof {
                    lemma_views_push(iface@, saved);
                }
                iface.push(saved);
            }
            i += 1;
        }
        assert(all.take(i as int) =~= all);

        let mut device: Vec<PersistedCurrentHourDevice> = Vec::new();
        let ghost all = views(exported.device@);
        let n = exported.device.len();
        let mut i: usize = 0;
        assert(views(device@) =~= Seq::empty());
        while i < n
            invariant
                i <= n,
                n == exported.device@.len(),
                all == views(exported.device@),
                views(device@) == named_devices(all.take(i as int), topology@),
            decreases n - i,
        {
            let item = &exported.device[i];
            assert(all.take(i + 1).drop_last() =~= all.take(i as int));
            assert(all[i as int] == item@);
            if let Some(info) = topology.by_ifindex(item.ifindex) {
                let saved = PersistedCurrentHourDevice {
                    logical_iface: info.name.clone(),
                    mac: item.mac.clone(),
                    hour_start_ts_ms: item.hour_start_ts_ms,
                    points: point_copies(&item.points),
                };
                proof {
                    lemma_views_push(device@, saved);
                }
                device.push(saved);
            }
            i += 1;
        }
        assert(all.take(i as int) =~= all);
        (
            self.current_hour_path.clone(),
            PersistedCurrentHourFile {
                schema_version: CURRENT_HOUR_SCHEMA_VERSION,
                state: PersistedCurrentHourState { iface, device },
            },
        )
    }

    /// Takes in a saved running hour, where there is one, as far as it is of the hour that begins
    /// at `hour_start`.
    pub fn load_current_hour_in(
        &self,
        topology: &TopologySnapshot,
        histogram: &mut HistogramHistory,
        hour_start: u64,
        data: &Option<PersistedCurrentHourFile>,
    ) -> (r: Result<(), SchemaError>)
        ensures
            match *data {
                None => r is Ok && final(histogram)@ == old(histogram)@,
                Some(file) => if file.schema_version == 1 {
                    r is Ok && final(histogram)@ == current_hour_loaded(
                        old(histogram)@,
                        file.state,
                        topology@,
                        hour_start,
                    )
                } else {
                    &&& r matches Err(e) && e.file == StateFile::CurrentHour && e.version
                        == file.schema_version && e.path@ == self.current_hour_path@
                    &&& final(histogram)@ == old(histogram)@
                },
            },
            old(histogram)@.distinct() ==> final(histogram)@.distinct(),
    {
        let file = match data {
            None => {
                return Ok(());
            },
            Some(file) => file,
        };
        if file.schema_version != CURRENT_HOUR_SCHEMA_VERSION {
            return Err(
                SchemaError {
                    file: StateFile::CurrentHour,
                    version: file.schema_version,
                    path: self.current_hour_path.clone(),
                },
            );
        }
        let ghost before = histogram@;
        let ghost all = views(file.state.iface@);
        let n = file.state.iface.len();
        let mut i: usize = 0;
        while i < n
            invariant
                i <= n,
                n == file.state.iface@.len(),
                all == views(file.state.iface@),
                histogram@ == (HistogramModel {
                    iface: ifaces_loaded(before.iface, all.take(i as int), topology@, hour_start),
                    ..before
                }),
            decreases n - i,
        {
            let item = &file.state.iface[i];
            assert(all.take(i + 1).drop_last() =~= all.take(i as int));
            assert(all[i as int] == item@);
            if let Some(ifindex) = topology.ifindex_by_name(item.logical_iface.as_str()) {
                histogram.iface.restore_current(
                    ifindex,
                    item.hour_start_ts_ms,
                    point_copies(&item.points),
                    hour_start,
                );
            }
            i += 1;
        }
        assert(all.take(i as int) =~= all);

        let ghost before = histogram@;
        let ghost all = views(file.state.device@);
        let n = file.state.device.len();
        let mut i: usize = 0;
        while i < n
            invariant
                i <= n,
                n == file.state.device@.len(),
                all == views(file.state.device@),
                histogram@ == (HistogramModel {
                    device: devices_loaded(
                        before.device,
                        all.take(i as int),
                        topology@,
                        hour_start,
                    ),
                    ..before
                }),
            decreases n - i,
        {
            let item = &file.state.device[i];
            assert(all.take(i + 1).drop_last() =~= all.take(i as int));
            assert(all[i as int] == item@);
            if let Some(ifindex) = topology.ifindex_by_name(item.logical_iface.as_str()) {
                histogram.device.restore_current(
                    DeviceSeriesKey { ifindex, mac: item.mac.clone() },
                    item.hour_start_ts_ms,
                    point_copies(&item.points),
                    hour_start,
                );
            }
            i += 1;
        }
        assert(all.take(i as int) =~= all);
        proof {
            if old(histogram)@.distinct() {
                law_current_hour_stays_distinct(
                    old(histogram)@,
                    file.state,
                    topology@,
                    hour_start,
                );
            }
        }
        Ok(())
    }

    /// Takes in a saved running hour, where there is one, as far as it is of the local hour of
    /// `now_ms`.
    pub fn load_current_hour_histogram(
        &self,
        topology: &TopologySnapshot,
        histogram: &mut HistogramHistory,
        now_ms: u64,
        data: &Option<PersistedCurrentHourFile>,
    ) -> (r: Result<(), SchemaError>)
        ensures
            match *data {
                None => r is Ok && final(histogram)@ == old(histogram)@,
                Some(file) => if file.schema_version == 1 {
                    r is Ok && exists|hour: (u64, u64)| #[trigger]
                        may_be_hour(now_ms, hour) && final(histogram)@ == current_hour_loaded(
                            old(histogram)@,
                            file.state,
                            topology@,
                            hour.0,
                        )
                } else {
                    &&& r matches Err(e) && e.file == StateFile::CurrentHour && e.version
                        == file.schema_version && e.path@ == self.current_hour_path@
                    &&& final(histogram)@ == old(histogram)@
                },
            },
            old(histogram)@.distinct() ==> final(histogram)@.distinct(),
    {
        let hour = hourly_bucket_local(now_ms);
        assert(may_be_hour(now_ms, hour));
        self.load_current_hour_in(topology, histogram, hour.0, data)
    }
}

/// There is an interface with an index, and its name leads back to it.
pub open spec fn found_by_name(topology: Seq<InterfaceFacts>, ifindex: u32) -> bool {
    interface_at(topology, ifindex) matches Some(info) && index_of_name(topology, info.name)
        == Some(ifindex)
}

/// The interface is known.
pub open spec fn known_iface(topology: Seq<InterfaceFacts>) -> spec_fn(u32) -> bool {
    |ifindex: u32| interface_at(topology, ifindex) is Some
}

/// The interface of a device is known.
pub open spec fn behind_known_iface(topology: Seq<InterfaceFacts>) -> spec_fn(
    (u32, Seq<char>),
) -> bool {
    |device: (u32, Seq<char>)| interface_at(topology, device.0) is Some
}

/// The points of the running hour that a restart leaves: those of the series that are known, and
/// of the hour that begins at `hour_start`, in order.
pub open spec fn surviving<K>(
    current: Seq<(K, HourPoints)>,
    known: spec_fn(K) -> bool,
    hour_start: u64,
) -> Seq<(K, HourPoints)>
    decreases current.len(),
{
    if current.len() == 0 {
        Seq::empty()
    } else {
        let before = surviving(current.drop_last(), known, hour_start);
        let (key, (start, _)) = current.last();
        if known(key) && start == hour_start {
            before.push(current.last())
        } else {
            before
        }
    }
}

proof fn lemma_surviving_absent<K>(
    current: Seq<(K, HourPoints)>,
    known: spec_fn(K) -> bool,
    hour_start: u64,
    key: K,
)
    requires
        forall|j: int| 0 <= j < current.len() ==> (#[trigger] current[j]).0 != key,
    ensures
        forall|j: int|
            0 <= j < surviving(current, known, hour_start).len() ==> (#[trigger] surviving(
                current,
                known,
                hour_start,
            )[j]).0 != key,
        !occurs(surviving(current, known, hour_start), key),
    decreases current.len(),
{
    let kept = surviving(current, known, hour_start);
    if current.len() > 0 {
        let init = current.drop_last();
        assert forall|j: int| 0 <= j < init.len() implies (#[trigger] init[j]).0 != key by {
            assert(init[j] == current[j]);
        }
        lemma_surviving_absent(init, known, hour_start, key);
        let before = surviving(init, known, hour_start);
        assert(current[current.len() - 1].0 != key);
        assert forall|j: int| 0 <= j < kept.len() implies (#[trigger] kept[j]).0 != key by {
            if j < before.len() {
                assert(kept[j] == before[j]);
            }
        }
    }
    lemma_absent(kept, key);
}

/// The running hour survives a restart: saved and taken in again within the same hour, the points
/// of the interfaces that are known come back, where the name of each leads back to it. Those of
/// interfaces that are not known, or of another hour, are left out, and completed hours stay as
/// they are.
pub proof fn law_iface_hour_survives(
    m: SeriesModel<u32>,
    current: Seq<(u32, HourPoints)>,
    topology: Seq<InterfaceFacts>,
    hour_start: u64,
)
    requires
        m.current.len() == 0,
        unique_keys(current),
        forall|i: int|
            0 <= i < current.len() && interface_at(topology, (#[trigger] current[i]).0) is Some
                ==> found_by_name(topology, current[i].0),
    ensures
        ({
            let after = ifaces_loaded(m, named_ifaces(current, topology), topology, hour_start);
            &&& after.current == surviving(current, known_iface(topology), hour_start)
            &&& after.completed == m.completed
        }),
    decreases current.len(),
{
    let known = known_iface(topology);
    if current.len() > 0 {
        let init = current.drop_last();
        let last = current.last();
        let n = current.len() - 1;
        assert(unique_keys(init)) by {
            assert forall|i: int| 0 <= i < init.len() implies (#[trigger] init[i]) == current[i] by {
            }
        }
        assert forall|i: int|
            0 <= i < init.len() && interface_at(topology, (#[trigger] init[i]).0) is Some implies found_by_name(
            topology,
            init[i].0,
        ) by {
            assert(init[i] == current[i]);
        }
        law_iface_hour_survives(m, init, topology, hour_start);
        let named = named_ifaces(current, topology);
        let kept = surviving(init, known, hour_start);
        if interface_at(topology, last.0) is Some {
            assert(current[n] == last);
            assert(found_by_name(topology, last.0));
            assert(named.drop_last() =~= named_ifaces(init, topology));
            assert forall|j: int| 0 <= j < init.len() implies (#[trigger] init[j]).0 != last.0 by {
                assert(current[j].0 != current[n].0);
            }
            lemma_surviving_absent(init, known, hour_start, last.0);
            assert(put(kept, last.0, last.1) =~= kept.push(last));
        }
    } else {
        assert(m.current =~= Seq::empty());
    }
}

/// The running hour survives a restart: saved and taken in again within the same hour, the points
/// of the devices behind interfaces that are known come back, where the name of each interface
/// leads back to it. Those behind interfaces that are not known, or of another hour, are left
/// out, and completed hours stay as they are.
pub proof fn law_device_hour_survives(
    m: SeriesModel<(u32, Seq<char>)>,
    current: Seq<((u32, Seq<char>), HourPoints)>,
    topology: Seq<InterfaceFacts>,
    hour_start: u64,
)
    requires
        m.current.len() == 0,
        unique_keys(current),
        forall|i: int|
            0 <= i < current.len() && interface_at(topology, (#[trigger] current[i]).0.0) is Some
                ==> found_by_name(topology, current[i].0.0),
    ensures
        ({
            let after = devices_loaded(m, named_devices(current, topology), topology, hour_start);
            &&& after.current == surviving(current, behind_known_iface(topology), hour_start)
            &&& after.completed == m.completed
        }),
    decreases current.len(),
{
    let known = behind_known_iface(topology);
    if current.len() > 0 {
        let init = current.drop_last();
        let last = current.last();
        let n = current.len() - 1;
        assert(unique_keys(init)) by {
            assert forall|i: int| 0 <= i < init.len() implies (#[trigger] init[i]) == current[i] by {
            }
        }
        assert forall|i: int|
            0 <= i < init.len() && interface_at(topology, (#[trigger] init[i]).0.0) is Some implies found_by_name(
            topology,
            init[i].0.0,
        ) by {
            assert(init[i] == current[i]);
        }
        law_device_hour_survives(m, init, topology, hour_start);
        let named = named_devices(current, topology);
        let kept = surviving(init, known, hour_start);
        if interface_at(topology, last.0.0) is Some {
            assert(current[n] == last);
            assert(found_by_name(topology, last.0.0));
            assert(named.drop_last() =~= named_devices(init, topology));
            assert forall|j: int| 0 <= j < init.len() implies (#[trigger] init[j]).0 != last.0 by {
                assert(current[j].0 != current[n].0);
            }
            lemma_surviving_absent(init, known, hour_start, last.0);
            assert(put(kept, last.0, last.1) =~= kept.push(last));
        }
    } else {
        assert(m.current =~= Seq::empty());
    }
}

/// The running hour survives a restart as a whole: what is saved of one history and taken in by
/// another that has no running hours yet, within the same hour, are the points of the interfaces
/// that are known and of the devices behind them. The points of addresses are not saved, and
/// completed hours stay as they are.
pub proof fn law_running_hour_survives(
    saved_from: HistogramModel,
    state: PersistedCurrentHourState,
    m: HistogramModel,
    topology: Seq<InterfaceFacts>,
    hour_start: u64,
)
    requires
        saved_from.distinct(),
        views(state.iface@) == named_ifaces(saved_from.iface.current, topology),
        views(state.device@) == named_devices(saved_from.device.current, topology),
        m.iface.current.len() == 0,
        m.device.current.len() == 0,
        forall|ifindex: u32|
            interface_at(topology, ifindex) is Some ==> #[trigger] found_by_name(
                topology,
                ifindex,
            ),
    ensures
        ({
            let after = current_hour_loaded(m, state, topology, hour_start);
            &&& after.iface.current == surviving(
                saved_from.iface.current,
                known_iface(topology),
                hour_start,
            )
            &&& after.device.current == surviving(
                saved_from.device.current,
                behind_known_iface(topology),
                hour_start,
            )
            &&& after.iface.completed == m.iface.completed
            &&& after.device.completed == m.device.completed
            &&& after.ip == m.ip
        }),
{
    assert forall|i: int|
        0 <= i < saved_from.iface.current.len() && interface_at(
            topology,
            (#[trigger] saved_from.iface.current[i]).0,
        ) is Some implies found_by_name(topology, saved_from.iface.current[i].0) by {
        assert(found_by_name(topology, saved_from.iface.current[i].0));
    }
    law_iface_hour_survives(m.iface, saved_from.iface.current, topology, hour_start);
    assert forall|i: int|
        0 <= i < saved_from.device.current.len() && interface_at(
            topology,
            (#[trigger] saved_from.device.current[i]).0.0,
        ) is Some implies found_by_name(topology, saved_from.device.current[i].0.0) by {
        assert(found_by_name(topology, saved_from.device.current[i].0.0));
    }
    law_device_hour_survives(m.device, saved_from.device.current, topology, hour_start);
}

/// Points of another hour than the running one are not taken in again.
pub proof fn law_stale_hour_is_left_out(
    m: SeriesModel<u32>,
    saved: Seq<(Seq<char>, HourPoints)>,
    topology: Seq<InterfaceFacts>,
    hour_start: u64,
)
    requires
        forall|i: int| 0 <= i < saved.len() ==> (#[trigger] saved[i]).1.0 != hour_start,
    ensures
        ifaces_loaded(m, saved, topology, hour_start) == m,
    decreases saved.len(),
{
    if saved.len() > 0 {
        let init = saved.drop_last();
        assert forall|i: int| 0 <= i < init.len() implies (#[trigger] init[i]).1.0
            != hour_start by {
            assert(init[i] == saved[i]);
        }
        law_stale_hour_is_left_out(m, init, topology, hour_start);
        assert(saved[saved.len() - 1].1.0 != hour_start);
    }
}

/// A file after a plan was carried out.
pub open spec fn carried_out(plan: AppendPlan, file: Seq<u8>) -> Seq<u8> {
    match plan {
        AppendPlan::Fail(_) => file,
        AppendPlan::Write { quarantine: _, create, append } => {
            let base = match create {
                Some(block) => block@,
                None => file,
            };
            written(written(base, append.offset as int, append.record@), 0, append.header@)
        },
    }
}

proof fn lemma_header_in_head(file: Seq<u8>, head: Seq<u8>)
    requires
        head.is_prefix_of(file),
        head.len() >= 64,
    ensures
        parse_header(head) == parse_header(file),
{
    assert(head.subrange(0, 8) =~= file.subrange(0, 8));
    assert(head.subrange(0, 28) =~= file.subrange(0, 28));
    assert(head.subrange(8, 12) =~= file.subrange(8, 12));
    assert(head.subrange(12, 16) =~= file.subrange(12, 16));
    assert(head.subrange(16, 20) =~= file.subrange(16, 20));
    assert(head.subrange(20, 24) =~= file.subrange(20, 24));
    assert(head.subrange(24, 28) =~= file.subrange(24, 28));
    assert(head.subrange(28, 32) =~= file.subrange(28, 32));
}

/// Carrying out a plan extends the file of a series by one hour, and the first makes it: the
/// file stays the one that the hours, one by one, give.
pub proof fn law_append_plan_extends(
    plan: AppendPlan,
    head: Option<Seq<u8>>,
    buckets: Seq<AggregatedBucket>,
    bucket: AggregatedBucket,
)
    requires
        plan_appends(plan, head, ring_after(buckets).len() as u64, bucket),
        head is None <==> buckets.len() == 0,
        head matches Some(bytes) ==> bytes.is_prefix_of(ring_after(buckets)) && bytes.len() >= 64,
    ensures
        carried_out(plan, ring_after(buckets)) == ring_after(buckets.push(bucket)),
{
    let file = ring_after(buckets);
    law_ring_keeps_recent(buckets);
    assert(buckets.push(bucket).drop_last() =~= buckets);
    let h = parse_header(file)->Ok_0;
    match head {
        Some(bytes) => {
            lemma_header_in_head(file, bytes);
            assert(size_fits(h, file.len() as int));
        },
        None => {
            law_header_round_trip(new_ring_header(), Seq::empty());
            assert(file =~= header_bytes(new_ring_header()));
            assert(file + Seq::<u8>::empty() =~= file);
        },
    }
}

/// What a plan to append is made from: the first bytes of a file, as many as a header has.
pub open spec fn head_of(file: Seq<u8>) -> Seq<u8> {
    if file.len() < 64 {
        file
    } else {
        file.take(64)
    }
}

/// A file after plans were carried out one after the other, the first of them where there was no
/// file.
pub open spec fn grown(plans: Seq<AppendPlan>) -> Seq<u8>
    decreases plans.len(),
{
    if plans.len() == 0 {
        Seq::empty()
    } else {
        carried_out(plans.last(), grown(plans.drop_last()))
    }
}

/// Each of the plans appends one of the buckets to the file that those before it leave.
pub open spec fn append_one_by_one(plans: Seq<AppendPlan>, buckets: Seq<AggregatedBucket>) -> bool {
    &&& plans.len() == buckets.len()
    &&& forall|k: int|
        0 <= k < plans.len() ==> plan_appends(
            #[trigger] plans[k],
            if k == 0 {
                None
            } else {
                Some(head_of(grown(plans.take(k))))
            },
            grown(plans.take(k)).len() as u64,
            buckets[k],
        )
}

/// Hours that are appended one by one, each by the plan that is made for it, give the file that a
/// ring has after them.
pub proof fn law_appends_make_the_ring(plans: Seq<AppendPlan>, buckets: Seq<AggregatedBucket>)
    requires
        append_one_by_one(plans, buckets),
        plans.len() > 0,
    ensures
        grown(plans) == ring_after(buckets),
    decreases plans.len(),
{
    let n = plans.len() - 1;
    let before = plans.drop_last();
    let init = buckets.drop_last();
    let plan = plans.last();
    assert(plans.take(n) =~= before);
    assert(plans[n] == plan && buckets[n] == buckets.last());
    assert(init.push(buckets.last()) =~= buckets);
    if n == 0 {
        assert(init =~= Seq::empty());
        law_append_plan_extends(plan, None, init, buckets.last());
    } else {
        assert forall|k: int| 0 <= k < before.len() implies plan_appends(
            #[trigger] before[k],
            if k == 0 {
                None
            } else {
                Some(head_of(grown(before.take(k))))
            },
            grown(before.take(k)).len() as u64,
            init[k],
        ) by {
            assert(before.take(k) =~= plans.take(k));
            assert(before[k] == plans[k] && init[k] == buckets[k]);
        }
        law_appends_make_the_ring(before, init);
        law_ring_keeps_recent(init);
        law_append_plan_extends(plan, Some(head_of(ring_after(init))), init, buckets.last());
    }
}


/// A path begins with its directory and ends with the name; one slash stands between them, which
/// the directory may end with.
pub proof fn law_path_in_directory(dir: Seq<char>, name: Seq<char>)
    ensures
        ({
            let path = path_in(dir, name);
            let at = path.len() - name.len();
            &&& path.subrange(0, dir.len() as int) =~= dir
            &&& path.subrange(at, path.len() as int) =~= name
            &&& dir.len() > 0 ==> at > 0 && path[at - 1] == '/'
            &&& dir.len() > 0 && dir.last() != '/' ==> at == dir.len() + 1
            &&& dir.len() == 0 || dir.last() == '/' ==> at == dir.len()
        }),
{
}

/// Rings of different interfaces have different names, and so have those of different devices.
pub proof fn law_ring_names_are_apart(
    a: Seq<char>,
    b: Seq<char>,
    x: Seq<char>,
    y: Seq<char>,
)
    requires
        x.len() == y.len(),
    ensures
        iface_ring_name(a) == iface_ring_name(b) <==> a == b,
        device_ring_name(a, x) == device_ring_name(b, y) <==> a == b && x == y,
{
    let p = hex_text(encode_utf8(a));
    let q = hex_text(encode_utf8(b));
    reveal_strlit(".ring");
    reveal_strlit("-");
    if iface_ring_name(a) == iface_ring_name(b) {
        let n = iface_ring_name(a);
        assert(p =~= n.subrange(0, n.len() - 5));
        assert(q =~= n.subrange(0, n.len() - 5));
        lemma_component_apart(a, b);
    }
    if device_ring_name(a, x) == device_ring_name(b, y) {
        let n = device_ring_name(a, x);
        let k = n.len() - 6 - x.len();
        assert(p =~= n.subrange(0, k));
        assert(q =~= n.subrange(0, k));
        assert(x =~= n.subrange(k + 1, n.len() - 5));
        assert(y =~= n.subrange(k + 1, n.len() - 5));
        lemma_component_apart(a, b);
    }
}

proof fn lemma_component_apart(a: Seq<char>, b: Seq<char>)
    requires
        hex_text(encode_utf8(a)) == hex_text(encode_utf8(b)),
    ensures
        a == b,
{
    let p = encode_utf8(a);
    let q = encode_utf8(b);
    if p.len() > 0 {
        law_two_digits_each(p, 0);
    }
    if q.len() > 0 {
        law_two_digits_each(q, 0);
    }
    assert(p.len() == 0 ==> hex_text(p).len() == 0);
    assert(q.len() == 0 ==> hex_text(q).len() == 0);
    assert(p.len() == q.len());
    assert forall|i: int| 0 <= i < p.len() implies p[i] == q[i] by {
        law_two_digits_each(p, i);
        law_two_digits_each(q, i);
        lemma_hex_char((p[i] / 16) as u8);
        lemma_hex_char((p[i] % 16) as u8);
        lemma_hex_char((q[i] / 16) as u8);
        lemma_hex_char((q[i] % 16) as u8);
        law_digits((p[i] / 16) as u8, '0');
        law_digits((p[i] % 16) as u8, '0');
        law_digits((q[i] / 16) as u8, '0');
        law_digits((q[i] % 16) as u8, '0');
    }
    assert(p =~= q);
    vstd::utf8::encode_utf8_decode_utf8(a);
    vstd::utf8::encode_utf8_decode_utf8(b);
}

/// A new ring holds the hours of a year of 365 days, and none of them yet.
pub proof fn law_new_ring_is_empty()
    ensures
        new_ring_header().slot_count == 365 * 24,
        new_ring_header().valid_count == 0,
        header_wf(new_ring_header()),
        compact(new_ring_header()),
{
}


} // verus!
