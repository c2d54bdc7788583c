//! Reading the ring files of a directory back into the hourly history.
use vstd::prelude::*;
use vstd::utf8::encode_utf8;

use crate::bucket::AggregatedBucket;
use crate::histogram::{HistogramHistory, HistogramModel};
use crate::items::{texts, views};
use crate::keys::DeviceSeriesKey;
use crate::names::{
    all_hex, dangling, decode_component, decoded, hex_text, is_dangling, is_last_dash, is_ring_file,
    is_ring_name, law_component_round_trip, mac_digits, mac_hex_to_colon, ring_stem,
    split_at_last_dash, with_colons, without_colons,
};
use crate::persistence::{
    append_one_by_one, device_ring_name, grown, iface_ring_name, law_appends_make_the_ring,
    AppendPlan, PersistenceManager,
};
use crate::ring::{
    buckets_of, law_ring_keeps_recent, read_ring_records, recent, ring_after, ring_records,
    RingRead,
};
use crate::series::{law_bucket_stays_distinct, SeriesHistory, SeriesModel};
use crate::table::{get, law_put_get, law_put_get_other, TableKey};
use crate::text::{is_hex, lower, lower_char};
use crate::topology::{index_of_name, InterfaceFacts, TopologySnapshot};

verus! {

/// A file of a directory: its name and what is in it.
pub struct RingFile {
    pub name: String,
    pub content: Vec<u8>,
}

impl View for RingFile {
    type V = (Seq<char>, Seq<u8>);

    open spec fn view(&self) -> (Seq<char>, Seq<u8>) {
        (self.name@, self.content@)
    }
}

/// What a file is good for.
#[derive(Debug, Clone)]
pub enum FileUse<K> {
    /// Nothing: it is not a ring file, or its interface is not known.
    Skip,
    /// Its name is damaged: it is moved out of the way.
    Quarantine,
    /// It holds the history of a series.
    Read(K),
}

/// The name of a ring file without its ending.
pub open spec fn stem_of(name: Seq<char>) -> Seq<char> {
    name.subrange(0, name.len() - 5)
}

/// The position of the last dash.
pub open spec fn last_dash(s: Seq<char>) -> int {
    choose|at: int| is_last_dash(s, at)
}

/// What stands before the last dash.
pub open spec fn before_dash(s: Seq<char>) -> Seq<char> {
    s.subrange(0, last_dash(s))
}

/// What stands behind the last dash.
pub open spec fn behind_dash(s: Seq<char>) -> Seq<char> {
    s.subrange(last_dash(s) + 1, s.len() as int)
}

/// What a file in the directory of interfaces is good for.
pub open spec fn iface_file_use(name: Seq<char>, topology: Seq<InterfaceFacts>) -> FileUse<u32> {
    if !is_ring_name(name) {
        FileUse::Skip
    } else {
        match decoded(stem_of(name)) {
            None => FileUse::Quarantine,
            Some(iface) => match index_of_name(topology, iface) {
                None => FileUse::Skip,
                Some(ifindex) => FileUse::Read(ifindex),
            },
        }
    }
}

/// What a file in the directory of devices is good for.
pub open spec fn device_file_use(name: Seq<char>, topology: Seq<InterfaceFacts>) -> FileUse<
    (u32, Seq<char>),
> {
    let stem = stem_of(name);
    if !is_ring_name(name) {
        FileUse::Skip
    } else if !stem.contains('-') {
        FileUse::Quarantine
    } else {
        match decoded(before_dash(stem)) {
            None => FileUse::Quarantine,
            Some(iface) => match index_of_name(topology, iface) {
                None => FileUse::Skip,
                Some(ifindex) => {
                    let digits = behind_dash(stem);
                    if digits.len() == 12 && all_hex(digits) {
                        FileUse::Read((ifindex, with_colons(lower(digits))))
                    } else {
                        FileUse::Quarantine
                    }
                },
            },
        }
    }
}

/// The name of a file in the directory of interfaces can be taken apart.
pub open spec fn iface_name_ok(name: Seq<char>) -> bool {
    is_ring_name(name) ==> !dangling(stem_of(name))
}

/// The name of a file in the directory of devices can be taken apart.
pub open spec fn device_name_ok(name: Seq<char>) -> bool {
    is_ring_name(name) && stem_of(name).contains('-') ==> !dangling(before_dash(stem_of(name)))
}

/// What each of some keys stands for.
pub open spec fn use_view<K: View>(u: FileUse<K>) -> FileUse<K::V> {
    match u {
        FileUse::Skip => FileUse::Skip,
        FileUse::Quarantine => FileUse::Quarantine,
        FileUse::Read(k) => FileUse::Read(k@),
    }
}

/// Whether the name of a file in the directory of interfaces can be taken apart.
pub fn is_iface_name_ok(name: &str) -> (r: bool)
    ensures
        r == iface_name_ok(name@),
{
    !is_ring_file(name) || !is_dangling(ring_stem(name).as_str())
}

proof fn lemma_last_dash(s: Seq<char>, at: int)
    requires
        is_last_dash(s, at),
    ensures
        last_dash(s) == at,
{
    let d = last_dash(s);
    assert(is_last_dash(s, d));
    if d < at {
        assert(s[at] != '-');
    } else if at < d {
        assert(s[d] != '-');
    }
}

/// Whether the name of a file in the directory of devices can be taken apart.
pub fn is_device_name_ok(name: &str) -> (r: bool)
    ensures
        r == device_name_ok(name@),
{
    if !is_ring_file(name) {
        return true;
    }
    let stem = ring_stem(name);
    match split_at_last_dash(stem.as_str()) {
        Some((before, _)) => {
            proof {
                lemma_last_dash(stem@, before@.len() as int);
            }
            !is_dangling(before.as_str())
        },
        None => true,
    }
}

/// What a file in the directory of interfaces is good for.
pub fn use_iface_file(name: &str, topology: &TopologySnapshot) -> (r: FileUse<u32>)
    requires
        iface_name_ok(name@),
    ensures
        r == iface_file_use(name@, topology@),
{
    if !is_ring_file(name) {
        return FileUse::Skip;
    }
    let stem = ring_stem(name);
    match decode_component(stem.as_str()) {
        None => FileUse::Quarantine,
        Some(iface) => match topology.ifindex_by_name(iface.as_str()) {
            None => FileUse::Skip,
            Some(ifindex) => FileUse::Read(ifindex),
        },
    }
}

/// What a file in the directory of devices is good for.
pub fn use_device_file(name: &str, topology: &TopologySnapshot) -> (r: FileUse<DeviceSeriesKey>)
    requires
        device_name_ok(name@),
    ensures
        use_view(r) == device_file_use(name@, topology@),
{
    if !is_ring_file(name) {
        return FileUse::Skip;
    }
    let stem = ring_stem(name);
    let (iface_hex, mac_hex) = match split_at_last_dash(stem.as_str()) {
        None => {
            return FileUse::Quarantine;
        },
        Some(parts) => parts,
    };
    proof {
        lemma_last_dash(stem@, iface_hex@.len() as int);
    }
    let iface = match decode_component(iface_hex.as_str()) {
        None => {
            return FileUse::Quarantine;
        },
        Some(iface) => iface,
    };
    let ifindex = match topology.ifindex_by_name(iface.as_str()) {
        None => {
            return FileUse::Skip;
        },
        Some(ifindex) => ifindex,
    };
    match mac_hex_to_colon(mac_hex.as_str()) {
        None => FileUse::Quarantine,
        Some(mac) => FileUse::Read(DeviceSeriesKey { ifindex, mac }),
    }
}

/// A history with more completed hours of a series, in order.
pub open spec fn with_buckets<K>(
    m: SeriesModel<K>,
    key: K,
    buckets: Seq<AggregatedBucket>,
) -> SeriesModel<K>
    decreases buckets.len(),
{
    if buckets.len() == 0 {
        m
    } else {
        with_buckets(m, key, buckets.drop_last()).with_bucket(key, buckets.last())
    }
}

/// A history with a file taken in, and whether the file is to be moved out of the way.
pub open spec fn file_loaded<K>(m: SeriesModel<K>, file_use: FileUse<K>, content: Seq<u8>) -> (
    SeriesModel<K>,
    bool,
) {
    match file_use {
        FileUse::Skip => (m, false),
        FileUse::Quarantine => (m, true),
        FileUse::Read(key) => match ring_records(content) {
            None => (m, true),
            Some(buckets) => (with_buckets(m, key, buckets), false),
        },
    }
}

/// Takes a file in. The result is whether it is to be moved out of the way.
pub fn load_file<K: TableKey>(
    series: &mut SeriesHistory<K>,
    file_use: FileUse<K>,
    content: &Vec<u8>,
) -> (quarantine: bool)
    ensures
        (final(series).model(), quarantine) == file_loaded(
            old(series).model(),
            use_view(file_use),
            content@,
        ),
{
    match file_use {
        FileUse::Skip => false,
        FileUse::Quarantine => true,
        FileUse::Read(key) => match read_ring_records(content.as_slice()) {
            RingRead::Quarantine => true,
            RingRead::Records(records) => {
                let ghost all = buckets_of(records@);
                let n = records.len();
                let mut i: usize = 0;
                while i < n
                    invariant
                        i <= n,
                        n == records@.len(),
                        all == buckets_of(records@),
                        series.model() == with_buckets(
                            old(series).model(),
                            key@,
                            all.take(i as int),
                        ),
                    decreases n - i,
                {
                    series.restore_bucket(key.duplicate(), records[i].bucket);
                    i += 1;
                    assert(all.take(i as int).drop_last() =~= all.take(i - 1));
                    assert(all[i - 1] == records@[i - 1].bucket);
                }
                assert(all.take(i as int) =~= all);
                false
            },
        },
    }
}

/// A history with the files of interfaces taken in, and the names of those that are to be moved
/// out of the way.
pub open spec fn iface_files_loaded(
    m: SeriesModel<u32>,
    files: Seq<(Seq<char>, Seq<u8>)>,
    topology: Seq<InterfaceFacts>,
) -> (SeriesModel<u32>, Seq<Seq<char>>)
    decreases files.len(),
{
    if files.len() == 0 {
        (m, Seq::empty())
    } else {
        let (before, bad) = iface_files_loaded(m, files.drop_last(), topology);
        let (name, content) = files.last();
        let (after, quarantine) = file_loaded(before, iface_file_use(name, topology), content);
        (
            after,
            if quarantine {
                bad.push(name)
            } else {
                bad
            },
        )
    }
}

/// A history with the files of devices taken in, and the names of those that are to be moved out
/// of the way.
pub open spec fn device_files_loaded(
    m: SeriesModel<(u32, Seq<char>)>,
    files: Seq<(Seq<char>, Seq<u8>)>,
    topology: Seq<InterfaceFacts>,
) -> (SeriesModel<(u32, Seq<char>)>, Seq<Seq<char>>)
    decreases files.len(),
{
    if files.len() == 0 {
        (m, Seq::empty())
    } else {
        let (before, bad) = device_files_loaded(m, files.drop_last(), topology);
        let (name, content) = files.last();
        let (after, quarantine) = file_loaded(before, device_file_use(name, topology), content);
        (
            after,
            if quarantine {
                bad.push(name)
            } else {
                bad
            },
        )
    }
}

impl PersistenceManager {
    /// Takes in the files of the directories of interfaces and devices. The results are the
    /// names of those that are to be moved out of the way, in each of the two.
    pub fn load_histogram(
        &self,
        topology: &TopologySnapshot,
        histogram: &mut HistogramHistory,
        iface_files: &Vec<RingFile>,
        device_files: &Vec<RingFile>,
    ) -> (r: (Vec<String>, Vec<String>))
        requires
            forall|i: int|
                0 <= i < iface_files@.len() ==> iface_name_ok((#[trigger] iface_files@[i]).name@),
            forall|i: int|
                0 <= i < device_files@.len() ==> device_name_ok(
                    (#[trigger] device_files@[i]).name@,
                ),
        ensures
            ({
                let (iface, bad_iface) = iface_files_loaded(
                    old(histogram)@.iface,
                    views(iface_files@),
                    topology@,
                );
                let (device, bad_device) = device_files_loaded(
                    old(histogram)@.device,
                    views(device_files@),
                    topology@,
                );
                &&& final(histogram)@ == (HistogramModel { iface, device, ..old(histogram)@ })
                &&& texts(r.0@) == bad_iface
                &&& texts(r.1@) == bad_device
            }),
            old(histogram)@.distinct() ==> final(histogram)@.distinct(),
    {
        let bad_iface = self.load_iface_histogram(topology, histogram, iface_files);
        let bad_device = self.load_device_histogram(topology, histogram, device_files);
        (bad_iface, bad_device)
    }

    /// Takes in the files of the directory of interfaces. The result are the names of those that
    /// are to be moved out of the way.
    pub fn load_iface_histogram(
        &self,
        topology: &TopologySnapshot,
        histogram: &mut HistogramHistory,
        files: &Vec<RingFile>,
    ) -> (bad: Vec<String>)
        requires
            forall|i: int| 0 <= i < files@.len() ==> iface_name_ok((#[trigger] files@[i]).name@),
        ensures
            ({
                let (iface, names) = iface_files_loaded(
                    old(histogram)@.iface,
                    views(files@),
                    topology@,
                );
                &&& final(histogram)@ == (HistogramModel { iface, ..old(histogram)@ })
                &&& texts(bad@) == names
            }),
            old(histogram)@.distinct() ==> final(histogram)@.distinct(),
    {
        let mut bad: Vec<String> = Vec::new();
        let ghost before = histogram@;
        let ghost all = views(files@);
        let n = files.len();
        let mut i: usize = 0;
        assert(texts(bad@) =~= Seq::empty());
        while i < n
            invariant
                i <= n,
                n == files@.len(),
                all == views(files@),
                forall|i: int|
                    0 <= i < files@.len() ==> iface_name_ok((#[trigger] files@[i]).name@),
                ({
                    let (iface, names) = iface_files_loaded(
                        before.iface,
                        all.take(i as int),
                        topology@,
                    );
                    &&& histogram@ == (HistogramModel { iface, ..before })
                    &&& texts(bad@) == names
                }),
            decreases n - i,
        {
            let file = &files[i];
            assert(all.take(i + 1).drop_last() =~= all.take(i as int));
            assert(all[i as int] == file@);
            let file_use = use_iface_file(file.name.as_str(), topology);
            assert(use_view(file_use) == file_use);
            if load_file(&mut histogram.iface, file_use, &file.content) {
                let ghost names = texts(bad@);
                bad.push(file.name.clone());
                assert(texts(bad@) =~= names.push(file.name@));
            }
            i += 1;
        }
        assert(all.take(i as int) =~= all);
        proof {
            if before.distinct() {
                law_iface_files_stay_distinct(before.iface, all, topology@);
            }
        }
        bad
    }

    /// Takes in the files of the directory of devices. The result are the names of those that
    /// are to be moved out of the way.
    pub fn load_device_histogram(
        &self,
        topology: &TopologySnapshot,
        histogram: &mut HistogramHistory,
        files: &Vec<RingFile>,
    ) -> (bad: Vec<String>)
        requires
            forall|i: int| 0 <= i < files@.len() ==> device_name_ok((#[trigger] files@[i]).name@),
        ensures
            ({
                let (device, names) = device_files_loaded(
                    old(histogram)@.device,
                    views(files@),
                    topology@,
                );
                &&& final(histogram)@ == (HistogramModel { device, ..old(histogram)@ })
                &&& texts(bad@) == names
            }),
            old(histogram)@.distinct() ==> final(histogram)@.distinct(),
    {
        let mut bad: Vec<String> = Vec::new();
        let ghost before = histogram@;
        let ghost all = views(files@);
        let n = files.len();
        let mut i: usize = 0;
        assert(texts(bad@) =~= Seq::empty());
        while i < n
            invariant
                i <= n,
                n == files@.len(),
                all == views(files@),
                forall|i: int|
                    0 <= i < files@.len() ==> device_name_ok((#[trigger] files@[i]).name@),
                ({
                    let (device, names) = device_files_loaded(
                        before.device,
                        all.take(i as int),
                        topology@,
                    );
                    &&& histogram@ == (HistogramModel { device, ..before })
                    &&& texts(bad@) == names
                }),
            decreases n - i,
        {
            let file = &files[i];
            assert(all.take(i + 1).drop_last() =~= all.take(i as int));
            assert(all[i as int] == file@);
            let file_use = use_device_file(file.name.as_str(), topology);
            if load_file(&mut histogram.device, file_use, &file.content) {
                let ghost names = texts(bad@);
                bad.push(file.name.clone());
                assert(texts(bad@) =~= names.push(file.name@));
            }
            i += 1;
        }
        assert(all.take(i as int) =~= all);
        proof {
            if before.distinct() {
                law_device_files_stay_distinct(before.device, all, topology@);
            }
        }
        bad
    }
}

proof fn lemma_file_loaded_distinct<K>(
    m: SeriesModel<K>,
    file_use: FileUse<K>,
    content: Seq<u8>,
)
    requires
        m.distinct(),
    ensures
        file_loaded(m, file_use, content).0.distinct(),
{
    if let FileUse::Read(key) = file_use {
        if let Some(buckets) = ring_records(content) {
            lemma_with_buckets_distinct(m, key, buckets);
        }
    }
}

proof fn lemma_with_buckets_distinct<K>(m: SeriesModel<K>, key: K, buckets: Seq<AggregatedBucket>)
    requires
        m.distinct(),
    ensures
        with_buckets(m, key, buckets).distinct(),
    decreases buckets.len(),
{
    if buckets.len() > 0 {
        lemma_with_buckets_distinct(m, key, buckets.drop_last());
        law_bucket_stays_distinct(
            with_buckets(m, key, buckets.drop_last()),
            key,
            buckets.last(),
        );
    }
}

/// Taking in the files of interfaces keeps the series distinct.
pub proof fn law_iface_files_stay_distinct(
    m: SeriesModel<u32>,
    files: Seq<(Seq<char>, Seq<u8>)>,
    topology: Seq<InterfaceFacts>,
)
    requires
        m.distinct(),
    ensures
        iface_files_loaded(m, files, topology).0.distinct(),
    decreases files.len(),
{
    if files.len() > 0 {
        law_iface_files_stay_distinct(m, files.drop_last(), topology);
        lemma_file_loaded_distinct(
            iface_files_loaded(m, files.drop_last(), topology).0,
            iface_file_use(files.last().0, topology),
            files.last().1,
        );
    }
}

/// Taking in the files of devices keeps the series distinct.
pub proof fn law_device_files_stay_distinct(
    m: SeriesModel<(u32, Seq<char>)>,
    files: Seq<(Seq<char>, Seq<u8>)>,
    topology: Seq<InterfaceFacts>,
)
    requires
        m.distinct(),
    ensures
        device_files_loaded(m, files, topology).0.distinct(),
    decreases files.len(),
{
    if files.len() > 0 {
        law_device_files_stay_distinct(m, files.drop_last(), topology);
        lemma_file_loaded_distinct(
            device_files_loaded(m, files.drop_last(), topology).0,
            device_file_use(files.last().0, topology),
            files.last().1,
        );
    }
}

proof fn lemma_with_buckets<K>(m: SeriesModel<K>, key: K, buckets: Seq<AggregatedBucket>)
    ensures
        with_buckets(m, key, buckets).completed_of(key) == m.completed_of(key) + buckets,
        with_buckets(m, key, buckets).current == m.current,
    decreases buckets.len(),
{
    if buckets.len() == 0 {
        assert(m.completed_of(key) + buckets =~= m.completed_of(key));
    } else {
        let init = buckets.drop_last();
        lemma_with_buckets(m, key, init);
        let before = with_buckets(m, key, init);
        law_put_get(
            before.completed,
            key,
            before.completed_of(key).push(buckets.last()),
        );
        assert((m.completed_of(key) + init).push(buckets.last()) =~= m.completed_of(key)
            + buckets);
    }
}

proof fn lemma_ring_name(stem: Seq<char>)
    requires
        stem.len() > 0,
    ensures
        is_ring_name(stem + ".ring"@),
        stem_of(stem + ".ring"@) == stem,
{
    reveal_strlit(".ring");
    let name = stem + ".ring"@;
    assert(name.subrange(name.len() - 5, name.len() as int) =~= seq!['.', 'r', 'i', 'n', 'g']);
    assert(stem_of(name) =~= stem);
}

proof fn lemma_with_buckets_other<K>(
    m: SeriesModel<K>,
    key: K,
    buckets: Seq<AggregatedBucket>,
    other: K,
)
    requires
        other != key,
    ensures
        get(with_buckets(m, key, buckets).completed, other) == get(m.completed, other),
    decreases buckets.len(),
{
    if buckets.len() > 0 {
        let before = with_buckets(m, key, buckets.drop_last());
        lemma_with_buckets_other(m, key, buckets.drop_last(), other);
        law_put_get_other(
            before.completed,
            key,
            before.completed_of(key).push(buckets.last()),
            other,
        );
    }
}

/// The file that is written for an interface is found again under the interface, and is left
/// alone where the interface is not known.
pub proof fn law_iface_file_found(iface: Seq<char>, topology: Seq<InterfaceFacts>)
    requires
        iface.len() > 0,
    ensures
        iface_name_ok(iface_ring_name(iface)),
        iface_file_use(iface_ring_name(iface), topology) == match index_of_name(topology, iface) {
            Some(ifindex) => FileUse::Read(ifindex),
            None => FileUse::Skip,
        },
{
    law_component_round_trip(iface);
    lemma_ring_name(hex_text(encode_utf8(iface)));
}

/// The file that is written for a device is found again under its interface and its MAC address
/// in lower case with colons, and is left alone where the interface is not known.
pub proof fn law_device_file_found(
    iface: Seq<char>,
    mac: Seq<char>,
    topology: Seq<InterfaceFacts>,
)
    requires
        iface.len() > 0,
        mac_digits(mac) is Some,
    ensures
        device_name_ok(device_ring_name(iface, mac_digits(mac)->0)),
        device_file_use(device_ring_name(iface, mac_digits(mac)->0), topology)
            == match index_of_name(topology, iface) {
            Some(ifindex) => FileUse::Read((ifindex, with_colons(mac_digits(mac)->0))),
            None => FileUse::Skip,
        },
{
    law_component_round_trip(iface);
    reveal_strlit("-");
    let digits = mac_digits(mac)->0;
    let hex = hex_text(encode_utf8(iface));
    let stem = hex + "-"@ + digits;
    lemma_ring_name(stem);
    assert(device_ring_name(iface, digits) =~= stem + ".ring"@);
    let at = hex.len() as int;
    assert(stem[at] == '-');
    assert forall|j: int| at < j < stem.len() implies stem[j] != '-' by {
        assert(stem[j] == digits[j - at - 1]);
        assert(is_hex(digits[j - at - 1]));
    }
    lemma_last_dash(stem, at);
    assert(before_dash(stem) =~= hex);
    assert(behind_dash(stem) =~= digits);
    assert(lower(digits) =~= digits) by {
        let compact = without_colons(mac);
        assert(digits =~= lower(compact));
        assert forall|i: int| 0 <= i < digits.len() implies lower_char(#[trigger] digits[i])
            == digits[i] by {
            assert(digits[i] == lower_char(compact[i]));
        }
    }
}

/// The hours of an interface, by its name, as they were appended to its file one by one.
pub type IfaceHours = (Seq<char>, Seq<AggregatedBucket>);

/// The hours of a device, by the name of its interface and its MAC address, as they were appended
/// to its file one by one.
pub type DeviceHours = ((Seq<char>, Seq<char>), Seq<AggregatedBucket>);

/// The files of some interfaces.
pub open spec fn iface_files(stored: Seq<IfaceHours>) -> Seq<(Seq<char>, Seq<u8>)> {
    stored.map_values(|e: IfaceHours| (iface_ring_name(e.0), ring_after(e.1)))
}

/// The files of some devices.
pub open spec fn device_files(stored: Seq<DeviceHours>) -> Seq<(Seq<char>, Seq<u8>)> {
    stored.map_values(
        |e: DeviceHours| (device_ring_name(e.0.0, mac_digits(e.0.1)->0), ring_after(e.1)),
    )
}

/// The series of a device, where its interface is known.
pub open spec fn device_key(topology: Seq<InterfaceFacts>, device: (Seq<char>, Seq<char>)) -> Option<
    (u32, Seq<char>),
> {
    match index_of_name(topology, device.0) {
        Some(ifindex) => Some((ifindex, with_colons(mac_digits(device.1)->0))),
        None => None,
    }
}

/// The interfaces have names, and those that are known have different indexes.
pub open spec fn ifaces_apart(stored: Seq<IfaceHours>, topology: Seq<InterfaceFacts>) -> bool {
    &&& forall|k: int| 0 <= k < stored.len() ==> (#[trigger] stored[k]).0.len() > 0
    &&& forall|j: int, k: int|
        0 <= j < k < stored.len() && index_of_name(topology, (#[trigger] stored[j]).0) is Some
            ==> index_of_name(topology, stored[j].0) != index_of_name(
            topology,
            (#[trigger] stored[k]).0,
        )
}

/// The devices have MAC addresses, their interfaces have names, and those behind known interfaces
/// are different series.
pub open spec fn devices_apart(stored: Seq<DeviceHours>, topology: Seq<InterfaceFacts>) -> bool {
    &&& forall|k: int|
        0 <= k < stored.len() ==> (#[trigger] stored[k]).0.0.len() > 0 && mac_digits(
            stored[k].0.1,
        ) is Some
    &&& forall|j: int, k: int|
        0 <= j < k < stored.len() && device_key(topology, (#[trigger] stored[j]).0) is Some
            ==> device_key(topology, stored[j].0) != device_key(
            topology,
            (#[trigger] stored[k]).0,
        )
}

/// `after` is `m` with the hours of the known interfaces behind those that were there, a year of
/// them at most, and nothing else.
pub open spec fn ifaces_back(
    m: SeriesModel<u32>,
    after: SeriesModel<u32>,
    stored: Seq<IfaceHours>,
    topology: Seq<InterfaceFacts>,
) -> bool {
    &&& after.current == m.current
    &&& forall|k: int|
        0 <= k < stored.len() ==> (index_of_name(
            topology,
            (#[trigger] stored[k]).0,
        ) matches Some(ifindex) ==> after.completed_of(ifindex) == m.completed_of(ifindex)
            + recent(stored[k].1, 8760))
    &&& forall|ifindex: u32|
        (forall|k: int|
            0 <= k < stored.len() ==> index_of_name(topology, (#[trigger] stored[k]).0) != Some(
                ifindex,
            )) ==> #[trigger] get(after.completed, ifindex) == get(m.completed, ifindex)
}

/// `after` is `m` with the hours of the devices behind known interfaces behind those that were
/// there, a year of them at most, and nothing else.
pub open spec fn devices_back(
    m: SeriesModel<(u32, Seq<char>)>,
    after: SeriesModel<(u32, Seq<char>)>,
    stored: Seq<DeviceHours>,
    topology: Seq<InterfaceFacts>,
) -> bool {
    &&& after.current == m.current
    &&& forall|k: int|
        0 <= k < stored.len() ==> (device_key(topology, (#[trigger] stored[k]).0) matches Some(key)
            ==> after.completed_of(key) == m.completed_of(key) + recent(stored[k].1, 8760))
    &&& forall|key: (u32, Seq<char>)|
        (forall|k: int|
            0 <= k < stored.len() ==> device_key(topology, (#[trigger] stored[k]).0) != Some(key))
            ==> #[trigger] get(after.completed, key) == get(m.completed, key)
}

/// History survives a restart: of the hours of each known interface, the most recent come back
/// in order behind those that are there already, a year of them at most. The files of interfaces
/// that are gone are left alone, what else the history holds stays as it is, and no file is given
/// up.
pub proof fn law_iface_history_survives(
    m: SeriesModel<u32>,
    stored: Seq<IfaceHours>,
    topology: Seq<InterfaceFacts>,
)
    requires
        ifaces_apart(stored, topology),
    ensures
        ({
            let (after, bad) = iface_files_loaded(m, iface_files(stored), topology);
            bad.len() == 0 && ifaces_back(m, after, stored, topology)
        }),
    decreases stored.len(),
{
    let files = iface_files(stored);
    let (after, bad) = iface_files_loaded(m, files, topology);
    if stored.len() > 0 {
        let init = stored.drop_last();
        let n = stored.len() - 1;
        let (iface, buckets) = stored.last();
        assert(stored[n] == (iface, buckets));
        assert forall|k: int| 0 <= k < init.len() implies (#[trigger] init[k]).0.len() > 0 by {
            assert(init[k] == stored[k]);
        }
        assert forall|j: int, k: int|
            0 <= j < k < init.len() && index_of_name(topology, (#[trigger] init[j]).0) is Some implies index_of_name(
            topology,
            init[j].0,
        ) != index_of_name(topology, (#[trigger] init[k]).0) by {
            assert(init[j] == stored[j] && init[k] == stored[k]);
        }
        law_iface_history_survives(m, init, topology);
        assert(files.drop_last() =~= iface_files(init));
        let (before, bad_before) = iface_files_loaded(m, iface_files(init), topology);
        law_iface_file_found(iface, topology);
        law_ring_keeps_recent(buckets);
        assert(files.last() == (iface_ring_name(iface), ring_after(buckets)));
        match index_of_name(topology, iface) {
            Some(key) => {
                assert(after == with_buckets(before, key, recent(buckets, 8760)));
                lemma_with_buckets(before, key, recent(buckets, 8760));
                assert(forall|k: int|
                    0 <= k < init.len() ==> index_of_name(topology, (#[trigger] init[k]).0) != Some(
                        key,
                    )) by {
                    assert forall|k: int| 0 <= k < init.len() implies index_of_name(
                        topology,
                        (#[trigger] init[k]).0,
                    ) != Some(key) by {
                        assert(init[k] == stored[k]);
                        assert(index_of_name(topology, stored[n].0) == Some(key));
                    }
                }
                assert(get(before.completed, key) == get(m.completed, key));
                assert(before.completed_of(key) == m.completed_of(key));
                assert forall|k: int| 0 <= k < stored.len() implies (index_of_name(
                    topology,
                    (#[trigger] stored[k]).0,
                ) matches Some(ifindex) ==> after.completed_of(ifindex) == m.completed_of(ifindex)
                    + recent(stored[k].1, 8760)) by {
                    if k < n {
                        assert(init[k] == stored[k]);
                        if let Some(ifindex) = index_of_name(topology, stored[k].0) {
                            lemma_with_buckets_other(
                                before,
                                key,
                                recent(buckets, 8760),
                                ifindex,
                            );
                        }
                    }
                }
                assert forall|ifindex: u32|
                    (forall|k: int|
                        0 <= k < stored.len() ==> index_of_name(
                            topology,
                            (#[trigger] stored[k]).0,
                        ) != Some(ifindex)) implies #[trigger] get(after.completed, ifindex) == get(
                    m.completed,
                    ifindex,
                ) by {
                    assert(index_of_name(topology, stored[n].0) != Some(ifindex));
                    assert forall|k: int| 0 <= k < init.len() implies index_of_name(
                        topology,
                        (#[trigger] init[k]).0,
                    ) != Some(ifindex) by {
                        assert(init[k] == stored[k]);
                    }
                    lemma_with_buckets_other(before, key, recent(buckets, 8760), ifindex);
                    assert(get(before.completed, ifindex) == get(m.completed, ifindex));
                }
            },
            None => {
                assert(after == before);
                assert forall|k: int| 0 <= k < stored.len() implies (index_of_name(
                    topology,
                    (#[trigger] stored[k]).0,
                ) matches Some(ifindex) ==> after.completed_of(ifindex) == m.completed_of(ifindex)
                    + recent(stored[k].1, 8760)) by {
                    if k < n {
                        assert(init[k] == stored[k]);
                    }
                }
                assert forall|ifindex: u32|
                    (forall|k: int|
                        0 <= k < stored.len() ==> index_of_name(
                            topology,
                            (#[trigger] stored[k]).0,
                        ) != Some(ifindex)) implies #[trigger] get(after.completed, ifindex) == get(
                    m.completed,
                    ifindex,
                ) by {
                    assert forall|k: int| 0 <= k < init.len() implies index_of_name(
                        topology,
                        (#[trigger] init[k]).0,
                    ) != Some(ifindex) by {
                        assert(init[k] == stored[k]);
                    }
                }
            },
        }
    }
}

/// History survives a restart: of the hours of each device behind a known interface, the most
/// recent come back in order behind those that are there already, a year of them at most. The
/// files of devices behind interfaces that are gone are left alone, what else the history holds
/// stays as it is, and no file is given up.
pub proof fn law_device_history_survives(
    m: SeriesModel<(u32, Seq<char>)>,
    stored: Seq<DeviceHours>,
    topology: Seq<InterfaceFacts>,
)
    requires
        devices_apart(stored, topology),
    ensures
        ({
            let (after, bad) = device_files_loaded(m, device_files(stored), topology);
            bad.len() == 0 && devices_back(m, after, stored, topology)
        }),
    decreases stored.len(),
{
    let files = device_files(stored);
    let (after, bad) = device_files_loaded(m, files, topology);
    if stored.len() > 0 {
        let init = stored.drop_last();
        let n = stored.len() - 1;
        let (device, buckets) = stored.last();
        assert(stored[n] == (device, buckets));
        assert forall|k: int| 0 <= k < init.len() implies (#[trigger] init[k]).0.0.len() > 0
            && mac_digits(init[k].0.1) is Some by {
            assert(init[k] == stored[k]);
        }
        assert forall|j: int, k: int|
            0 <= j < k < init.len() && device_key(topology, (#[trigger] init[j]).0) is Some implies device_key(
            topology,
            init[j].0,
        ) != device_key(topology, (#[trigger] init[k]).0) by {
            assert(init[j] == stored[j] && init[k] == stored[k]);
        }
        law_device_history_survives(m, init, topology);
        assert(files.drop_last() =~= device_files(init));
        let (before, bad_before) = device_files_loaded(m, device_files(init), topology);
        law_device_file_found(device.0, device.1, topology);
        law_ring_keeps_recent(buckets);
        let name = device_ring_name(device.0, mac_digits(device.1)->0);
        assert(files.last() == (name, ring_after(buckets)));
        match device_key(topology, device) {
            Some(last) => {
                assert(after == with_buckets(before, last, recent(buckets, 8760)));
                lemma_with_buckets(before, last, recent(buckets, 8760));
                assert(forall|k: int|
                    0 <= k < init.len() ==> device_key(topology, (#[trigger] init[k]).0) != Some(
                        last,
                    )) by {
                    assert forall|k: int| 0 <= k < init.len() implies device_key(
                        topology,
                        (#[trigger] init[k]).0,
                    ) != Some(last) by {
                        assert(init[k] == stored[k]);
                        assert(device_key(topology, stored[n].0) == Some(last));
                    }
                }
                assert(get(before.completed, last) == get(m.completed, last));
                assert(before.completed_of(last) == m.completed_of(last));
                assert forall|k: int| 0 <= k < stored.len() implies (device_key(
                    topology,
                    (#[trigger] stored[k]).0,
                ) matches Some(key) ==> after.completed_of(key) == m.completed_of(key)
                    + recent(stored[k].1, 8760)) by {
                    if k < n {
                        assert(init[k] == stored[k]);
                        if let Some(key) = device_key(topology, stored[k].0) {
                            lemma_with_buckets_other(
                                before,
                                last,
                                recent(buckets, 8760),
                                key,
                            );
                        }
                    }
                }
                assert forall|key: (u32, Seq<char>)|
                    (forall|k: int|
                        0 <= k < stored.len() ==> device_key(
                            topology,
                            (#[trigger] stored[k]).0,
                        ) != Some(key)) implies #[trigger] get(after.completed, key) == get(
                    m.completed,
                    key,
                ) by {
                    assert(device_key(topology, stored[n].0) != Some(key));
                    assert forall|k: int| 0 <= k < init.len() implies device_key(
                        topology,
                        (#[trigger] init[k]).0,
                    ) != Some(key) by {
                        assert(init[k] == stored[k]);
                    }
                    lemma_with_buckets_other(before, last, recent(buckets, 8760), key);
                    assert(get(before.completed, key) == get(m.completed, key));
                }
            },
            None => {
                assert(after == before);
                assert forall|k: int| 0 <= k < stored.len() implies (device_key(
                    topology,
                    (#[trigger] stored[k]).0,
                ) matches Some(key) ==> after.completed_of(key) == m.completed_of(key)
                    + recent(stored[k].1, 8760)) by {
                    if k < n {
                        assert(init[k] == stored[k]);
                    }
                }
                assert forall|key: (u32, Seq<char>)|
                    (forall|k: int|
                        0 <= k < stored.len() ==> device_key(
                            topology,
                            (#[trigger] stored[k]).0,
                        ) != Some(key)) implies #[trigger] get(after.completed, key) == get(
                    m.completed,
                    key,
                ) by {
                    assert forall|k: int| 0 <= k < init.len() implies device_key(
                        topology,
                        (#[trigger] init[k]).0,
                    ) != Some(key) by {
                        assert(init[k] == stored[k]);
                    }
                }
            },
        }
    }
}

/// The files of a directory, by the names of the interfaces and the plans that were carried out.
pub open spec fn iface_directory(
    stored: Seq<IfaceHours>,
    plans: Seq<Seq<AppendPlan>>,
) -> Seq<(Seq<char>, Seq<u8>)> {
    Seq::new(stored.len(), |k: int| (iface_ring_name(stored[k].0), grown(plans[k])))
}

/// The files of a directory, by interfaces and MAC addresses and the plans that were carried out.
pub open spec fn device_directory(
    stored: Seq<DeviceHours>,
    plans: Seq<Seq<AppendPlan>>,
) -> Seq<(Seq<char>, Seq<u8>)> {
    Seq::new(
        stored.len(),
        |k: int|
            (device_ring_name(stored[k].0.0, mac_digits(stored[k].0.1)->0), grown(plans[k])),
    )
}

/// From single appends to the history after a restart: where the hours of interfaces and devices
/// were appended one by one, each file beginning with the first of its hours, the files give back
/// the hours of all that are known, leave out those that are gone, and none is given up.
pub proof fn law_appended_hours_survive(
    m: HistogramModel,
    ifaces: Seq<IfaceHours>,
    iface_plans: Seq<Seq<AppendPlan>>,
    devices: Seq<DeviceHours>,
    device_plans: Seq<Seq<AppendPlan>>,
    topology: Seq<InterfaceFacts>,
)
    requires
        ifaces_apart(ifaces, topology),
        devices_apart(devices, topology),
        forall|k: int|
            0 <= k < ifaces.len() ==> (#[trigger] ifaces[k]).1.len() > 0 && append_one_by_one(
                iface_plans[k],
                ifaces[k].1,
            ),
        forall|k: int|
            0 <= k < devices.len() ==> (#[trigger] devices[k]).1.len() > 0 && append_one_by_one(
                device_plans[k],
                devices[k].1,
            ),
    ensures
        ({
            let (iface, bad_iface) = iface_files_loaded(
                m.iface,
                iface_directory(ifaces, iface_plans),
                topology,
            );
            let (device, bad_device) = device_files_loaded(
                m.device,
                device_directory(devices, device_plans),
                topology,
            );
            &&& bad_iface.len() == 0
            &&& bad_device.len() == 0
            &&& ifaces_back(m.iface, iface, ifaces, topology)
            &&& devices_back(m.device, device, devices, topology)
        }),
{
    let a = iface_directory(ifaces, iface_plans);
    let b = device_directory(devices, device_plans);
    assert forall|k: int| 0 <= k < ifaces.len() implies a[k] == #[trigger] iface_files(
        ifaces,
    )[k] by {
        assert(ifaces[k].1.len() > 0);
        law_appends_make_the_ring(iface_plans[k], ifaces[k].1);
    }
    assert forall|k: int| 0 <= k < devices.len() implies b[k] == #[trigger] device_files(
        devices,
    )[k] by {
        assert(devices[k].1.len() > 0);
        law_appends_make_the_ring(device_plans[k], devices[k].1);
    }
    assert(a =~= iface_files(ifaces));
    assert(b =~= device_files(devices));
    law_iface_history_survives(m.iface, ifaces, topology);
    law_device_history_survives(m.device, devices, topology);
}

/// Files are moved out of the way for what is wrong with them, and for nothing else: an interface
/// file whose name does not stand for a text, or whose name stands for a known interface while its
/// content is damaged. Other files stay.
pub proof fn law_bad_iface_files(
    m: SeriesModel<u32>,
    files: Seq<(Seq<char>, Seq<u8>)>,
    topology: Seq<InterfaceFacts>,
    name: Seq<char>,
)
    ensures
        iface_files_loaded(m, files, topology).1.contains(name) <==> exists|i: int|
            0 <= i < files.len() && (#[trigger] files[i]).0 == name && is_ring_name(name) && match decoded(
                stem_of(name),
            ) {
                None => true,
                Some(iface) => index_of_name(topology, iface) is Some && ring_records(
                    files[i].1,
                ) is None,
            },
    decreases files.len(),
{
    if files.len() > 0 {
        let init = files.drop_last();
        law_bad_iface_files(m, init, topology, name);
        let bad = iface_files_loaded(m, init, topology).1;
        let after = iface_files_loaded(m, files, topology).1;
        let n = files.len() - 1;
        assert(files[n] == files.last());
        assert forall|i: int| 0 <= i < init.len() implies (#[trigger] init[i]) == files[i] by {}
        lemma_contains_push(bad, files.last().0, name);
        if exists|i: int|
            0 <= i < init.len() && (#[trigger] init[i]).0 == name && is_ring_name(name)
                && match decoded(stem_of(name)) {
                None => true,
                Some(iface) => index_of_name(topology, iface) is Some && ring_records(
                    init[i].1,
                ) is None,
            } {
            let i = choose|i: int|
                0 <= i < init.len() && (#[trigger] init[i]).0 == name && is_ring_name(name)
                    && match decoded(stem_of(name)) {
                    None => true,
                    Some(iface) => index_of_name(topology, iface) is Some && ring_records(
                        init[i].1,
                    ) is None,
                };
            assert(files[i] == init[i]);
        }
        if exists|i: int|
            0 <= i < files.len() && (#[trigger] files[i]).0 == name && is_ring_name(name)
                && match decoded(stem_of(name)) {
                None => true,
                Some(iface) => index_of_name(topology, iface) is Some && ring_records(
                    files[i].1,
                ) is None,
            } {
            let i = choose|i: int|
                0 <= i < files.len() && (#[trigger] files[i]).0 == name && is_ring_name(name)
                    && match decoded(stem_of(name)) {
                    None => true,
                    Some(iface) => index_of_name(topology, iface) is Some && ring_records(
                        files[i].1,
                    ) is None,
                };
            if i < n {
                assert(init[i] == files[i]);
            }
        }
    }
}

proof fn lemma_contains_push(s: Seq<Seq<char>>, last: Seq<char>, x: Seq<char>)
    ensures
        s.push(last).contains(x) <==> s.contains(x) || x == last,
{
    let t = s.push(last);
    if s.contains(x) {
        let i = s.index_of(x);
        assert(t[i] == x);
    }
    if x == last {
        assert(t[s.len() as int] == x);
    }
    if t.contains(x) {
        let i = t.index_of(x);
        if i < s.len() {
            assert(s[i] == x);
        }
    }
}

/// A file that is read adds all its records, in order, behind the hours of its series, and a file
/// that is not read leaves the history as it is. The running hours stay in any case.
pub proof fn law_file_adds_records<K>(
    m: SeriesModel<K>,
    file_use: FileUse<K>,
    content: Seq<u8>,
    other: K,
)
    ensures
        ({
            let (after, bad) = file_loaded(m, file_use, content);
            &&& after.current == m.current
            &&& match (file_use, ring_records(content)) {
                (FileUse::Read(key), Some(records)) => {
                    &&& !bad
                    &&& after.completed_of(key) =~= m.completed_of(key) + records
                    &&& other != key ==> after.completed_of(other) == m.completed_of(other)
                },
                _ => after == m,
            }
            &&& file_use is Skip ==> !bad
            &&& file_use is Quarantine ==> bad
        }),
{
    if let FileUse::Read(key) = file_use {
        if let Some(records) = ring_records(content) {
            lemma_with_buckets(m, key, records);
            if other != key {
                lemma_with_buckets_other(m, key, records, other);
            }
        }
    }
}

/// What the name of a file among those of devices is good for: behind the last dash stand twelve
/// digits, before it the name of an interface. Without a dash, with a name that stands for no text
/// or with other than twelve digits it is moved out of the way; where the interface is not known
/// it stays.
pub proof fn law_device_file_names(name: Seq<char>, at: int, topology: Seq<InterfaceFacts>)
    requires
        is_ring_name(name),
        is_last_dash(name.subrange(0, name.len() - 5), at),
    ensures
        ({
            let first = name.subrange(0, at);
            let last = name.subrange(at + 1, name.len() - 5);
            let r = device_file_use(name, topology);
            match decoded(first) {
                None => r is Quarantine,
                Some(iface) => match index_of_name(topology, iface) {
                    None => r is Skip,
                    Some(ifindex) => if last.len() == 12 && forall|i: int|
                        0 <= i < 12 ==> is_hex(#[trigger] last[i]) {
                        r == FileUse::Read((ifindex, with_colons(lower(last))))
                    } else {
                        r is Quarantine
                    },
                },
            }
        }),
{
    let stem = name.subrange(0, name.len() - 5);
    lemma_last_dash(stem, at);
    assert(stem[at] == '-');
    assert(stem.contains('-'));
    assert(before_dash(stem) =~= name.subrange(0, at));
    assert(behind_dash(stem) =~= name.subrange(at + 1, name.len() - 5));
}


} // verus!
