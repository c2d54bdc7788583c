//! The ring file format: a fixed header followed by fixed-size slots, each holding one
//! hourly bucket. A full ring overwrites its oldest slot.
use vstd::bytes::{
    spec_u32_from_le_bytes, spec_u32_to_le_bytes, spec_u64_from_le_bytes, spec_u64_to_le_bytes,
    u32_from_le_bytes, u32_to_le_bytes, u64_from_le_bytes, u64_to_le_bytes,
};
use vstd::prelude::*;
use vstd::slice::slice_subrange;

use crate::bucket::AggregatedBucket;

verus! {

/// Version number in the header of every ring file.
pub const RING_VERSION: u32 = 1;

/// Slots of a newly created ring: one year of hours.
pub const RING_SLOT_COUNT: u32 = 8760;

/// Bytes before the first slot.
pub const RING_HEADER_SIZE: usize = 64;

/// Bytes of a slot that hold bucket fields.
pub const RING_RECORD_DATA_SIZE: usize = 176;

/// Bytes of a slot: the bucket fields and their checksum.
pub const RING_RECORD_SIZE: usize = 180;

/// Decoded header of a ring file.
#[derive(Debug, Clone, Copy)]
pub struct RingHeader {
    pub slot_count: u32,
    pub write_pos: u32,
    pub valid_count: u32,
    pub record_size: u32,
}

/// Contents of one slot.
#[derive(Debug, Clone, Copy)]
pub struct RingRecord {
    pub bucket: AggregatedBucket,
}

/// Why a ring header or slot is not usable.
#[derive(Debug, Clone, Copy, PartialEq, Eq, Structural)]
pub enum RingError {
    /// Fewer bytes than a header.
    Truncated,
    /// The file does not start with the ring magic.
    InvalidMagic,
    /// The header has a version other than [`RING_VERSION`].
    UnsupportedVersion { version: u32 },
    /// The header checksum does not match.
    HeaderChecksum,
    /// No slots, or slots of another size.
    InvalidValues,
    /// Positions outside the ring.
    InvalidPositions,
    /// A ring that is not full must be written up to its valid count.
    NonFullPosition { write_pos: u32, valid_count: u32 },
    /// A slot of the wrong length.
    RecordLength,
    /// A slot whose checksum does not match.
    RecordChecksum,
}

// ---------------------------------------------------------------- checksum

/// 32-bit FNV-1a of `data`.
pub open spec fn fnv1a(data: Seq<u8>) -> u32
    decreases data.len(),
{
    if data.len() == 0 {
        0x811c9dc5u32
    } else {
        (fnv1a(data.drop_last()) ^ (data.last() as u32)).wrapping_mul(0x01000193u32)
    }
}

/// Checksum of headers and slots.
pub fn checksum32(data: &[u8]) -> (sum: u32)
    ensures
        sum == fnv1a(data@),
{
    let mut hash: u32 = 0x811c9dc5;
    let mut i: usize = 0;
    assert(data@.take(0) =~= Seq::<u8>::empty());
    while i < data.len()
        invariant
            i <= data.len(),
            hash == fnv1a(data@.take(i as int)),
        decreases data.len() - i,
    {
        assert(data@.take(i + 1).drop_last() =~= data@.take(i as int));
        hash = (hash ^ (data[i] as u32)).wrapping_mul(0x01000193);
        i += 1;
    }
    assert(data@.take(i as int) =~= data@);
    hash
}

// ---------------------------------------------------------------- headers

/// First eight bytes of every ring file, `BDXPRNG1`.
pub open spec fn ring_magic() -> Seq<u8> {
    seq![0x42u8, 0x44, 0x58, 0x50, 0x52, 0x4e, 0x47, 0x31]
}

/// The checksummed part of a header.
pub open spec fn header_prefix(h: RingHeader) -> Seq<u8> {
    ring_magic() + spec_u32_to_le_bytes(RING_VERSION) + spec_u32_to_le_bytes(h.slot_count)
        + spec_u32_to_le_bytes(h.write_pos) + spec_u32_to_le_bytes(h.valid_count)
        + spec_u32_to_le_bytes(h.record_size)
}

/// The header block of a ring file: prefix, checksum, zero padding.
pub open spec fn header_bytes(h: RingHeader) -> Seq<u8> {
    header_prefix(h) + spec_u32_to_le_bytes(fnv1a(header_prefix(h))) + Seq::new(32, |i: int| 0u8)
}

/// The little-endian word at byte `at`.
pub open spec fn word32_at(data: Seq<u8>, at: int) -> u32 {
    spec_u32_from_le_bytes(data.subrange(at, at + 4))
}

/// The little-endian double word at byte `at`.
pub open spec fn word64_at(data: Seq<u8>, at: int) -> u64 {
    spec_u64_from_le_bytes(data.subrange(at, at + 8))
}

/// The header at the start of `data`, or the first reason why there is none.
pub open spec fn parse_header(data: Seq<u8>) -> Result<RingHeader, RingError> {
    if data.len() < RING_HEADER_SIZE {
        Err(RingError::Truncated)
    } else if data.subrange(0, 8) != ring_magic() {
        Err(RingError::InvalidMagic)
    } else if word32_at(data, 8) != RING_VERSION {
        Err(RingError::UnsupportedVersion { version: word32_at(data, 8) })
    } else if word32_at(data, 28) != fnv1a(data.subrange(0, 28)) {
        Err(RingError::HeaderChecksum)
    } else if word32_at(data, 12) == 0 || word32_at(data, 24) != RING_RECORD_SIZE {
        Err(RingError::InvalidValues)
    } else if word32_at(data, 16) >= word32_at(data, 12) || word32_at(data, 20) > word32_at(
        data,
        12,
    ) {
        Err(RingError::InvalidPositions)
    } else {
        Ok(
            RingHeader {
                slot_count: word32_at(data, 12),
                write_pos: word32_at(data, 16),
                valid_count: word32_at(data, 20),
                record_size: word32_at(data, 24),
            },
        )
    }
}

/// The positions and sizes that every readable header has.
pub open spec fn header_wf(h: RingHeader) -> bool {
    &&& h.slot_count > 0
    &&& h.record_size == RING_RECORD_SIZE
    &&& h.write_pos < h.slot_count
    &&& h.valid_count <= h.slot_count
}

/// Header of a ring without records.
pub fn default_ring_header() -> (h: RingHeader)
    ensures
        h == (RingHeader {
            slot_count: RING_SLOT_COUNT,
            write_pos: 0,
            valid_count: 0,
            record_size: RING_RECORD_SIZE as u32,
        }),
        header_wf(h),
{
    RingHeader { slot_count: RING_SLOT_COUNT, write_pos: 0, valid_count: 0, record_size: 180 }
}

/// Appends `src` to `dst`.
fn push_bytes(dst: &mut Vec<u8>, src: &Vec<u8>)
    ensures
        final(dst)@ == old(dst)@ + src@,
{
    let ghost before = dst@;
    let mut i: usize = 0;
    assert(before + src@.take(0) =~= before);
    while i < src.len()
        invariant
            i <= src.len(),
            dst@ == before + src@.take(i as int),
        decreases src.len() - i,
    {
        assert(src@.take(i + 1) =~= src@.take(i as int).push(src@[i as int]));
        dst.push(src[i]);
        assert(dst@ =~= before + src@.take(i + 1));
        i += 1;
    }
    assert(src@.take(i as int) =~= src@);
}

/// The header block to be written at the start of a ring file.
pub fn write_ring_header(header: &RingHeader) -> (block: Vec<u8>)
    ensures
        block@ == header_bytes(*header),
        block@.len() == RING_HEADER_SIZE,
{
    let mut block: Vec<u8> = Vec::new();
    block.push(0x42);
    block.push(0x44);
    block.push(0x58);
    block.push(0x50);
    block.push(0x52);
    block.push(0x4e);
    block.push(0x47);
    block.push(0x31);
    assert(block@ =~= ring_magic());
    push_bytes(&mut block, &u32_to_le_bytes(RING_VERSION));
    push_bytes(&mut block, &u32_to_le_bytes(header.slot_count));
    push_bytes(&mut block, &u32_to_le_bytes(header.write_pos));
    push_bytes(&mut block, &u32_to_le_bytes(header.valid_count));
    push_bytes(&mut block, &u32_to_le_bytes(header.record_size));
    assert(block@ =~= header_prefix(*header));
    let sum = checksum32(block.as_slice());
    push_bytes(&mut block, &u32_to_le_bytes(sum));
    proof {
        vstd::bytes::lemma_auto_spec_u32_to_from_le_bytes();
    }
    let ghost filled = block@;
    let mut i: usize = 0;
    while i < 32
        invariant
            i <= 32,
            block@ == filled + Seq::new(i as nat, |k: int| 0u8),
        decreases 32 - i,
    {
        block.push(0);
        i += 1;
        assert(block@ =~= filled + Seq::new(i as nat, |k: int| 0u8));
    }
    block
}

/// The header at the start of a file, given the file's first bytes.
pub fn read_ring_header(data: &[u8]) -> (res: Result<RingHeader, RingError>)
    ensures
        res == parse_header(data@),
        res is Ok ==> header_wf(res->Ok_0),
{
    if data.len() < RING_HEADER_SIZE {
        return Err(RingError::Truncated);
    }
    let magic_ok = data[0] == 0x42 && data[1] == 0x44 && data[2] == 0x58 && data[3] == 0x50
        && data[4] == 0x52 && data[5] == 0x4e && data[6] == 0x47 && data[7] == 0x31;
    proof {
        let m = data@.subrange(0, 8);
        if magic_ok {
            assert(m =~= ring_magic());
        } else {
            assert(m[0] == data@[0] && m[1] == data@[1] && m[2] == data@[2] && m[3] == data@[3]
                && m[4] == data@[4] && m[5] == data@[5] && m[6] == data@[6] && m[7] == data@[7]);
            assert(m != ring_magic());
        }
    }
    if !magic_ok {
        return Err(RingError::InvalidMagic);
    }
    let version = u32_from_le_bytes(slice_subrange(data, 8, 12));
    if version != RING_VERSION {
        return Err(RingError::UnsupportedVersion { version });
    }
    let checksum = u32_from_le_bytes(slice_subrange(data, 28, 32));
    let expected = checksum32(slice_subrange(data, 0, 28));
    if checksum != expected {
        return Err(RingError::HeaderChecksum);
    }
    let slot_count = u32_from_le_bytes(slice_subrange(data, 12, 16));
    let write_pos = u32_from_le_bytes(slice_subrange(data, 16, 20));
    let valid_count = u32_from_le_bytes(slice_subrange(data, 20, 24));
    let record_size = u32_from_le_bytes(slice_subrange(data, 24, 28));
    if slot_count == 0 || record_size as usize != RING_RECORD_SIZE {
        return Err(RingError::InvalidValues);
    }
    if write_pos >= slot_count || valid_count > slot_count {
        return Err(RingError::InvalidPositions);
    }
    Ok(RingHeader { slot_count, write_pos, valid_count, record_size })
}

// ---------------------------------------------------------------- sizes

/// Size of a ring file whose slots are all written.
pub fn ring_total_size(header: &RingHeader) -> (size: u64)
    ensures
        size == RING_HEADER_SIZE + header.slot_count * header.record_size,
{
    assert(header.slot_count * header.record_size <= 0xffff_ffff * 0xffff_ffff) by (nonlinear_arith)
        requires
            header.slot_count <= 0xffff_ffff,
            header.record_size <= 0xffff_ffff,
    ;
    64u64 + (header.slot_count as u64) * (header.record_size as u64)
}

/// Smallest size of a file with this header: every slot that holds a record is there.
pub open spec fn min_size(h: RingHeader) -> Result<nat, RingError> {
    if h.valid_count == 0 {
        Ok(RING_HEADER_SIZE as nat)
    } else if h.valid_count < h.slot_count {
        if h.write_pos != h.valid_count {
            Err(
                RingError::NonFullPosition { write_pos: h.write_pos, valid_count: h.valid_count },
            )
        } else {
            Ok((RING_HEADER_SIZE + h.valid_count * h.record_size) as nat)
        }
    } else {
        Ok((RING_HEADER_SIZE + h.slot_count * h.record_size) as nat)
    }
}

/// Smallest size of a file with this header.
pub fn ring_min_size(header: &RingHeader) -> (res: Result<u64, RingError>)
    ensures
        match min_size(*header) {
            Ok(n) => res is Ok && res->Ok_0 == n,
            Err(e) => res == Err::<u64, RingError>(e),
        },
{
    let prefix: u64 = 64;
    if header.valid_count == 0 {
        return Ok(prefix);
    }
    assert(header.slot_count * header.record_size <= 0xffff_ffff * 0xffff_ffff) by (nonlinear_arith)
        requires
            header.slot_count <= 0xffff_ffff,
            header.record_size <= 0xffff_ffff,
    ;
    assert(header.valid_count * header.record_size <= 0xffff_ffff * 0xffff_ffff)
        by (nonlinear_arith)
        requires
            header.valid_count <= 0xffff_ffff,
            header.record_size <= 0xffff_ffff,
    ;
    if header.valid_count < header.slot_count {
        if header.write_pos != header.valid_count {
            return Err(
                RingError::NonFullPosition {
                    write_pos: header.write_pos,
                    valid_count: header.valid_count,
                },
            );
        }
        return Ok(prefix + (header.valid_count as u64) * (header.record_size as u64));
    }
    Ok(prefix + (header.slot_count as u64) * (header.record_size as u64))
}

/// Smallest and largest size of a file with this header.
pub fn ring_size_bounds(header: &RingHeader) -> (res: Result<(u64, u64), RingError>)
    ensures
        match min_size(*header) {
            Ok(n) => res is Ok && res->Ok_0.0 == n && res->Ok_0.1 == RING_HEADER_SIZE
                + header.slot_count * header.record_size,
            Err(e) => res == Err::<(u64, u64), RingError>(e),
        },
{
    match ring_min_size(header) {
        Ok(min) => Ok((min, ring_total_size(header))),
        Err(e) => Err(e),
    }
}

/// Where slot `slot_idx` starts.
pub open spec fn slot_offset(slot_idx: int) -> int {
    RING_HEADER_SIZE + slot_idx * RING_RECORD_SIZE
}

/// Where slot `slot_idx` starts.
pub fn ring_data_offset(slot_idx: u32) -> (offset: u64)
    ensures
        offset == slot_offset(slot_idx as int),
{
    64u64 + (slot_idx as u64) * 180u64
}

// ---------------------------------------------------------------- slots

/// The bucket fields in the order in which a slot holds them.
pub open spec fn record_words(b: AggregatedBucket) -> Seq<u64> {
    seq![
        b.start_ts_ms,
        b.end_ts_ms,
        b.up_v4_bytes,
        b.down_v4_bytes,
        b.up_v6_bytes,
        b.down_v6_bytes,
        b.up_v4_bps_avg,
        b.up_v4_bps_max,
        b.up_v4_bps_min,
        b.up_v4_bps_p95,
        b.down_v4_bps_avg,
        b.down_v4_bps_max,
        b.down_v4_bps_min,
        b.down_v4_bps_p95,
        b.up_v6_bps_avg,
        b.up_v6_bps_max,
        b.up_v6_bps_min,
        b.up_v6_bps_p95,
        b.down_v6_bps_avg,
        b.down_v6_bps_max,
        b.down_v6_bps_min,
        b.down_v6_bps_p95,
    ]
}

/// The words one after the other, each little-endian.
pub open spec fn words_bytes(words: Seq<u64>) -> Seq<u8>
    decreases words.len(),
{
    if words.len() == 0 {
        Seq::empty()
    } else {
        words_bytes(words.drop_last()) + spec_u64_to_le_bytes(words.last())
    }
}

/// The bytes of a slot that holds `b`.
pub open spec fn record_bytes(b: AggregatedBucket) -> Seq<u8> {
    words_bytes(record_words(b)) + spec_u32_to_le_bytes(fnv1a(words_bytes(record_words(b))))
}

/// The bucket whose fields stand at the start of `data`.
pub open spec fn bucket_of_words(data: Seq<u8>) -> AggregatedBucket {
    AggregatedBucket {
        start_ts_ms: word64_at(data, 0),
        end_ts_ms: word64_at(data, 8),
        up_v4_bytes: word64_at(data, 16),
        down_v4_bytes: word64_at(data, 24),
        up_v6_bytes: word64_at(data, 32),
        down_v6_bytes: word64_at(data, 40),
        up_v4_bps_avg: word64_at(data, 48),
        up_v4_bps_max: word64_at(data, 56),
        up_v4_bps_min: word64_at(data, 64),
        up_v4_bps_p95: word64_at(data, 72),
        down_v4_bps_avg: word64_at(data, 80),
        down_v4_bps_max: word64_at(data, 88),
        down_v4_bps_min: word64_at(data, 96),
        down_v4_bps_p95: word64_at(data, 104),
        up_v6_bps_avg: word64_at(data, 112),
        up_v6_bps_max: word64_at(data, 120),
        up_v6_bps_min: word64_at(data, 128),
        up_v6_bps_p95: word64_at(data, 136),
        down_v6_bps_avg: word64_at(data, 144),
        down_v6_bps_max: word64_at(data, 152),
        down_v6_bps_min: word64_at(data, 160),
        down_v6_bps_p95: word64_at(data, 168),
    }
}

/// The bucket that a slot holds, or why it holds none.
pub open spec fn parse_record(data: Seq<u8>) -> Result<AggregatedBucket, RingError> {
    if data.len() != RING_RECORD_SIZE {
        Err(RingError::RecordLength)
    } else if word32_at(data, 176) != fnv1a(data.subrange(0, 176)) {
        Err(RingError::RecordChecksum)
    } else {
        Ok(bucket_of_words(data))
    }
}

proof fn lemma_words_bytes_len(words: Seq<u64>)
    ensures
        words_bytes(words).len() == 8 * words.len(),
    decreases words.len(),
{
    vstd::bytes::lemma_auto_spec_u64_to_from_le_bytes();
    if words.len() > 0 {
        lemma_words_bytes_len(words.drop_last());
    }
}

proof fn lemma_words_bytes_at(words: Seq<u64>, i: int)
    requires
        0 <= i < words.len(),
    ensures
        words_bytes(words).len() == 8 * words.len(),
        word64_at(words_bytes(words), 8 * i) == words[i],
    decreases words.len(),
{
    vstd::bytes::lemma_auto_spec_u64_to_from_le_bytes();
    lemma_words_bytes_len(words);
    lemma_words_bytes_len(words.drop_last());
    let all = words_bytes(words);
    if i == words.len() - 1 {
        assert(all.subrange(8 * i, 8 * i + 8) =~= spec_u64_to_le_bytes(words.last()));
    } else {
        lemma_words_bytes_at(words.drop_last(), i);
        assert(all.subrange(8 * i, 8 * i + 8) =~= words_bytes(words.drop_last()).subrange(
            8 * i,
            8 * i + 8,
        ));
    }
}

/// The bytes of a slot that holds `record`.
pub fn encode_ring_record(record: &RingRecord) -> (data: Vec<u8>)
    ensures
        data@ == record_bytes(record.bucket),
        data@.len() == RING_RECORD_SIZE,
{
    let b = &record.bucket;
    let mut words: Vec<u64> = Vec::new();
    words.push(b.start_ts_ms);
    words.push(b.end_ts_ms);
    words.push(b.up_v4_bytes);
    words.push(b.down_v4_bytes);
    words.push(b.up_v6_bytes);
    words.push(b.down_v6_bytes);
    words.push(b.up_v4_bps_avg);
    words.push(b.up_v4_bps_max);
    words.push(b.up_v4_bps_min);
    words.push(b.up_v4_bps_p95);
    words.push(b.down_v4_bps_avg);
    words.push(b.down_v4_bps_max);
    words.push(b.down_v4_bps_min);
    words.push(b.down_v4_bps_p95);
    words.push(b.up_v6_bps_avg);
    words.push(b.up_v6_bps_max);
    words.push(b.up_v6_bps_min);
    words.push(b.up_v6_bps_p95);
    words.push(b.down_v6_bps_avg);
    words.push(b.down_v6_bps_max);
    words.push(b.down_v6_bps_min);
    words.push(b.down_v6_bps_p95);
    assert(words@ =~= record_words(*b));
    let mut data: Vec<u8> = Vec::with_capacity(RING_RECORD_SIZE);
    let mut i: usize = 0;
    assert(words@.take(0) =~= Seq::<u64>::empty());
    while i < words.len()
        invariant
            i <= words.len(),
            data@ == words_bytes(words@.take(i as int)),
        decreases words.len() - i,
    {
        assert(words@.take(i + 1).drop_last() =~= words@.take(i as int));
        push_bytes(&mut data, &u64_to_le_bytes(words[i]));
        i += 1;
    }
    assert(words@.take(i as int) =~= words@);
    proof {
        lemma_words_bytes_len(words@);
    }
    let checksum = checksum32(data.as_slice());
    push_bytes(&mut data, &u32_to_le_bytes(checksum));
    data
}

/// The double word at byte `at`.
fn read_word64(data: &[u8], at: usize) -> (v: u64)
    requires
        at + 8 <= data@.len(),
    ensures
        v == word64_at(data@, at as int),
{
    assert(data@.len() == data.len());
    u64_from_le_bytes(slice_subrange(data, at, at + 8))
}

/// The record that a slot holds, or why it holds none.
pub fn decode_ring_record(data: &[u8]) -> (res: Result<RingRecord, RingError>)
    ensures
        match parse_record(data@) {
            Ok(b) => res == Ok::<RingRecord, RingError>(RingRecord { bucket: b }),
            Err(e) => res == Err::<RingRecord, RingError>(e),
        },
{
    if data.len() != RING_RECORD_SIZE {
        return Err(RingError::RecordLength);
    }
    let checksum = u32_from_le_bytes(slice_subrange(data, 176, 180));
    let expected = checksum32(slice_subrange(data, 0, 176));
    if checksum != expected {
        return Err(RingError::RecordChecksum);
    }
    let bucket = AggregatedBucket {
        start_ts_ms: read_word64(data, 0),
        end_ts_ms: read_word64(data, 8),
        up_v4_bytes: read_word64(data, 16),
        down_v4_bytes: read_word64(data, 24),
        up_v6_bytes: read_word64(data, 32),
        down_v6_bytes: read_word64(data, 40),
        up_v4_bps_avg: read_word64(data, 48),
        up_v4_bps_max: read_word64(data, 56),
        up_v4_bps_min: read_word64(data, 64),
        up_v4_bps_p95: read_word64(data, 72),
        down_v4_bps_avg: read_word64(data, 80),
        down_v4_bps_max: read_word64(data, 88),
        down_v4_bps_min: read_word64(data, 96),
        down_v4_bps_p95: read_word64(data, 104),
        up_v6_bps_avg: read_word64(data, 112),
        up_v6_bps_max: read_word64(data, 120),
        up_v6_bps_min: read_word64(data, 128),
        up_v6_bps_p95: read_word64(data, 136),
        down_v6_bps_avg: read_word64(data, 144),
        down_v6_bps_max: read_word64(data, 152),
        down_v6_bps_min: read_word64(data, 160),
        down_v6_bps_p95: read_word64(data, 168),
    };
    Ok(RingRecord { bucket })
}

// ---------------------------------------------------------------- reading

/// Slot of the oldest record.
pub open spec fn first_slot(h: RingHeader) -> int {
    (h.write_pos + h.slot_count - h.valid_count) % (h.slot_count as int)
}

/// Slot of the record that is `i` younger than the oldest.
pub open spec fn record_slot(h: RingHeader, i: int) -> int {
    (first_slot(h) + i) % (h.slot_count as int)
}

/// The bucket in slot `slot`, if the file reaches that far and the slot is intact.
pub open spec fn slot_bucket(file: Seq<u8>, slot: int) -> Option<AggregatedBucket> {
    let at = slot_offset(slot);
    if at + RING_RECORD_SIZE > file.len() {
        None
    } else {
        match parse_record(file.subrange(at, at + RING_RECORD_SIZE)) {
            Ok(b) => Some(b),
            Err(_) => None,
        }
    }
}

/// The `n` oldest records, oldest first, if all of them are intact.
pub open spec fn oldest_records(file: Seq<u8>, h: RingHeader, n: nat) -> Option<
    Seq<AggregatedBucket>,
>
    decreases n,
{
    if n == 0 {
        Some(Seq::empty())
    } else {
        match (oldest_records(file, h, (n - 1) as nat), slot_bucket(file, record_slot(h, n - 1))) {
            (Some(older), Some(b)) => Some(older.push(b)),
            _ => None,
        }
    }
}

/// The size of `file` is one that a file with header `h` can have.
pub open spec fn size_fits(h: RingHeader, file_len: int) -> bool {
    match min_size(h) {
        Ok(min) => min <= file_len <= RING_HEADER_SIZE + h.slot_count * h.record_size,
        Err(_) => false,
    }
}

/// Every record of a ring file, oldest first; `None` if the file is damaged.
pub open spec fn ring_records(file: Seq<u8>) -> Option<Seq<AggregatedBucket>> {
    match parse_header(file) {
        Ok(h) => if size_fits(h, file.len() as int) {
            oldest_records(file, h, h.valid_count as nat)
        } else {
            None
        },
        Err(_) => None,
    }
}

/// What reading a ring file comes to.
pub enum RingRead {
    /// Every record, oldest first.
    Records(Vec<RingRecord>),
    /// The file is damaged and has to be moved out of the way.
    Quarantine,
}

/// The buckets of a sequence of records.
pub open spec fn buckets_of(records: Seq<RingRecord>) -> Seq<AggregatedBucket> {
    records.map_values(|r: RingRecord| r.bucket)
}

proof fn lemma_oldest_records_prefix(file: Seq<u8>, h: RingHeader, n: nat, m: nat)
    requires
        n <= m,
        oldest_records(file, h, n) is None,
    ensures
        oldest_records(file, h, m) is None,
    decreases m,
{
    if n < m {
        lemma_oldest_records_prefix(file, h, n, (m - 1) as nat);
    }
}

/// Every record of a ring file, oldest first, or the order to quarantine it.
pub fn read_ring_records(file: &[u8]) -> (res: RingRead)
    ensures
        match ring_records(file@) {
            Some(buckets) => res is Records && buckets_of(res->Records_0@) == buckets,
            None => res is Quarantine,
        },
{
    let header = match read_ring_header(file) {
        Ok(h) => h,
        Err(_) => {
            return RingRead::Quarantine;
        },
    };
    let size = file.len();
    let file_len = size as u64;
    let (min_expected, max_expected) = match ring_size_bounds(&header) {
        Ok(v) => v,
        Err(_) => {
            return RingRead::Quarantine;
        },
    };
    if file_len < min_expected || file_len > max_expected {
        return RingRead::Quarantine;
    }
    let mut out: Vec<RingRecord> = Vec::new();
    let slots = header.slot_count as u64;
    let start_idx: u64 = (header.write_pos as u64 + slots - header.valid_count as u64) % slots;
    let mut i: u32 = 0;
    assert(buckets_of(out@) =~= Seq::<AggregatedBucket>::empty());
    while i < header.valid_count
        invariant
            i <= header.valid_count,
            header_wf(header),
            parse_header(file@) == Ok::<RingHeader, RingError>(header),
            size_fits(header, file@.len() as int),
            size == file@.len(),
            file_len == size,
            slots == header.slot_count,
            start_idx == first_slot(header),
            start_idx < slots,
            oldest_records(file@, header, i as nat) == Some(buckets_of(out@)),
        decreases header.valid_count - i,
    {
        let idx = ((start_idx + i as u64) % slots) as u32;
        assert(idx == record_slot(header, i as int));
        let offset = ring_data_offset(idx);
        let end = offset + 180;
        if end > file_len {
            proof {
                lemma_oldest_records_prefix(
                    file@,
                    header,
                    (i + 1) as nat,
                    header.valid_count as nat,
                );
            }
            return RingRead::Quarantine;
        }
        let record = match decode_ring_record(
            slice_subrange(file, offset as usize, end as usize),
        ) {
            Ok(r) => r,
            Err(_) => {
                proof {
                    lemma_oldest_records_prefix(
                        file@,
                        header,
                        (i + 1) as nat,
                        header.valid_count as nat,
                    );
                }
                return RingRead::Quarantine;
            },
        };
        let ghost before = buckets_of(out@);
        out.push(record);
        assert(buckets_of(out@) =~= before.push(record.bucket));
        i += 1;
    }
    RingRead::Records(out)
}

// ---------------------------------------------------------------- appending

/// What has to be done before a record can be appended to a ring file.
#[derive(Debug, Clone, Copy)]
pub enum RingOpen {
    /// There is no file: create it with this header.
    Create(RingHeader),
    /// The file is damaged: move it out of the way and try again.
    Quarantine,
    /// The file is usable as it is.
    Use(RingHeader),
    /// The header contradicts itself.
    Fail(RingError),
}

/// How to get at a ring file of which `head` holds the first bytes and `file_len` is the size;
/// `head` is `None` where there is no file.
pub fn open_or_create_ring(head: Option<&[u8]>, file_len: u64) -> (res: RingOpen)
    ensures
        match head {
            None => res is Create && res->Create_0 == (RingHeader {
                slot_count: RING_SLOT_COUNT,
                write_pos: 0,
                valid_count: 0,
                record_size: RING_RECORD_SIZE as u32,
            }),
            Some(bytes) => match parse_header(bytes@) {
                Err(_) => res is Quarantine,
                Ok(h) => match min_size(h) {
                    Err(e) => res == RingOpen::Fail(e),
                    Ok(_) => if size_fits(h, file_len as int) {
                        res == RingOpen::Use(h)
                    } else {
                        res is Quarantine
                    },
                },
            },
        },
        res matches RingOpen::Use(h) ==> header_wf(h),
{
    let bytes = match head {
        None => {
            return RingOpen::Create(default_ring_header());
        },
        Some(b) => b,
    };
    let header = match read_ring_header(bytes) {
        Ok(h) => h,
        Err(_) => {
            return RingOpen::Quarantine;
        },
    };
    let (min_expected, max_expected) = match ring_size_bounds(&header) {
        Ok(v) => v,
        Err(e) => {
            return RingOpen::Fail(e);
        },
    };
    if file_len < min_expected || file_len > max_expected {
        return RingOpen::Quarantine;
    }
    RingOpen::Use(header)
}

/// The two writes that append a record, in the order in which they are made.
pub struct RingAppend {
    /// Where the slot starts.
    pub offset: u64,
    /// What the slot will hold.
    pub record: Vec<u8>,
    /// What the start of the file will hold.
    pub header: Vec<u8>,
}

/// The header after one more record.
pub open spec fn advanced(h: RingHeader) -> RingHeader {
    RingHeader {
        write_pos: ((h.write_pos + 1) % (h.slot_count as int)) as u32,
        valid_count: if h.valid_count < h.slot_count {
            (h.valid_count + 1) as u32
        } else {
            h.slot_count
        },
        ..h
    }
}

/// The writes that append `record` to a file with header `header`.
pub fn append_ring_record(header: &RingHeader, record: &RingRecord) -> (res: RingAppend)
    requires
        header_wf(*header),
    ensures
        res.offset == slot_offset(header.write_pos as int),
        res.record@ == record_bytes(record.bucket),
        res.header@ == header_bytes(advanced(*header)),
{
    proof {
        vstd::arithmetic::div_mod::lemma_small_mod(
            header.write_pos as nat,
            header.slot_count as nat,
        );
    }
    let slot = header.write_pos % header.slot_count;
    let offset = ring_data_offset(slot);
    let encoded = encode_ring_record(record);
    let next = RingHeader {
        slot_count: header.slot_count,
        write_pos: (slot + 1) % header.slot_count,
        valid_count: if header.valid_count < header.slot_count {
            header.valid_count + 1
        } else {
            header.slot_count
        },
        record_size: header.record_size,
    };
    RingAppend { offset, record: encoded, header: write_ring_header(&next) }
}
// ---------------------------------------------------------------- laws

/// `file` after `bytes` have been written at `at`; a gap is filled with zeros.
pub open spec fn written(file: Seq<u8>, at: int, bytes: Seq<u8>) -> Seq<u8> {
    Seq::new(
        if file.len() < at + bytes.len() {
            (at + bytes.len()) as nat
        } else {
            file.len()
        },
        |i: int|
            if at <= i < at + bytes.len() {
                bytes[i - at]
            } else if i < file.len() {
                file[i]
            } else {
                0u8
            },
    )
}

/// `file`, whose header is `h`, after the two writes of an append.
pub open spec fn appended(file: Seq<u8>, h: RingHeader, b: AggregatedBucket) -> Seq<u8> {
    written(
        written(file, slot_offset(h.write_pos as int), record_bytes(b)),
        0,
        header_bytes(advanced(h)),
    )
}

/// A ring that is not full has been written from its first slot on.
pub open spec fn compact(h: RingHeader) -> bool {
    h.valid_count < h.slot_count ==> h.write_pos == h.valid_count
}

/// The last `n` items of `s`, or all of them.
pub open spec fn recent<T>(s: Seq<T>, n: nat) -> Seq<T> {
    if s.len() <= n {
        s
    } else {
        s.subrange(s.len() - n, s.len() as int)
    }
}

/// A header read back from the block that was written for it is the same header.
pub proof fn law_header_round_trip(h: RingHeader, rest: Seq<u8>)
    requires
        header_wf(h),
    ensures
        header_bytes(h).len() == RING_HEADER_SIZE,
        parse_header(header_bytes(h) + rest) == Ok::<RingHeader, RingError>(h),
{
    vstd::bytes::lemma_auto_spec_u32_to_from_le_bytes();
    let p = header_prefix(h);
    let data = header_bytes(h) + rest;
    assert(p.len() == 28);
    assert(data.subrange(0, 8) =~= ring_magic());
    assert(data.subrange(8, 12) =~= spec_u32_to_le_bytes(RING_VERSION));
    assert(data.subrange(12, 16) =~= spec_u32_to_le_bytes(h.slot_count));
    assert(data.subrange(16, 20) =~= spec_u32_to_le_bytes(h.write_pos));
    assert(data.subrange(20, 24) =~= spec_u32_to_le_bytes(h.valid_count));
    assert(data.subrange(24, 28) =~= spec_u32_to_le_bytes(h.record_size));
    assert(data.subrange(0, 28) =~= p);
    assert(data.subrange(28, 32) =~= spec_u32_to_le_bytes(fnv1a(p)));
}

/// A record read back from the slot that was written for it is the same record.
pub proof fn law_record_round_trip(b: AggregatedBucket)
    ensures
        record_bytes(b).len() == RING_RECORD_SIZE,
        parse_record(record_bytes(b)) == Ok::<AggregatedBucket, RingError>(b),
{
    vstd::bytes::lemma_auto_spec_u32_to_from_le_bytes();
    let words = record_words(b);
    let body = words_bytes(words);
    let data = record_bytes(b);
    lemma_words_bytes_len(words);
    assert(data.subrange(0, 176) =~= body);
    assert(data.subrange(176, 180) =~= spec_u32_to_le_bytes(fnv1a(body)));
    assert forall|i: int| 0 <= i < 22 implies word64_at(data, 8 * i) == #[trigger] words[i] by {
        lemma_words_bytes_at(words, i);
        assert(data.subrange(8 * i, 8 * i + 8) =~= body.subrange(8 * i, 8 * i + 8));
    }
    assert(words[0] == b.start_ts_ms);
    assert(words[1] == b.end_ts_ms);
    assert(words[2] == b.up_v4_bytes);
    assert(words[3] == b.down_v4_bytes);
    assert(words[4] == b.up_v6_bytes);
    assert(words[5] == b.down_v6_bytes);
    assert(words[6] == b.up_v4_bps_avg);
    assert(words[7] == b.up_v4_bps_max);
    assert(words[8] == b.up_v4_bps_min);
    assert(words[9] == b.up_v4_bps_p95);
    assert(words[10] == b.down_v4_bps_avg);
    assert(words[11] == b.down_v4_bps_max);
    assert(words[12] == b.down_v4_bps_min);
    assert(words[13] == b.down_v4_bps_p95);
    assert(words[14] == b.up_v6_bps_avg);
    assert(words[15] == b.up_v6_bps_max);
    assert(words[16] == b.up_v6_bps_min);
    assert(words[17] == b.up_v6_bps_p95);
    assert(words[18] == b.down_v6_bps_avg);
    assert(words[19] == b.down_v6_bps_max);
    assert(words[20] == b.down_v6_bps_min);
    assert(words[21] == b.down_v6_bps_p95);
}

proof fn lemma_oldest_records_index(
    file: Seq<u8>,
    h: RingHeader,
    n: nat,
    s: Seq<AggregatedBucket>,
)
    ensures
        oldest_records(file, h, n) == Some(s) <==> s.len() == n && forall|i: int|
            0 <= i < n ==> slot_bucket(file, #[trigger] record_slot(h, i)) == Some(s[i]),
    decreases n,
{
    if n == 0 {
        assert(s.len() == 0 ==> s =~= Seq::empty());
    } else {
        let m = (n - 1) as nat;
        let last = slot_bucket(file, record_slot(h, m as int));
        if s.len() == n {
            lemma_oldest_records_index(file, h, m, s.drop_last());
            assert(s =~= s.drop_last().push(s.last()));
            if oldest_records(file, h, n) == Some(s) {
                let older = oldest_records(file, h, m)->Some_0;
                assert(older =~= s.drop_last());
            }
            if forall|i: int|
                0 <= i < n ==> slot_bucket(file, #[trigger] record_slot(h, i)) == Some(s[i]) {
                assert(last == Some(s[m as int]));
                assert forall|i: int| 0 <= i < m implies slot_bucket(
                    file,
                    #[trigger] record_slot(h, i),
                ) == Some(s.drop_last()[i]) by {}
            }
        } else {
            if oldest_records(file, h, n) == Some(s) {
                let older = oldest_records(file, h, m)->Some_0;
                lemma_oldest_records_index(file, h, m, older);
                assert(s == older.push(last->Some_0));
            }
        }
    }
}

proof fn lemma_slot_unchanged(file: Seq<u8>, h: RingHeader, b: AggregatedBucket, slot: int)
    requires
        header_wf(h),
        0 <= slot,
        slot != h.write_pos,
        slot_offset(slot) + RING_RECORD_SIZE <= file.len(),
    ensures
        slot_bucket(appended(file, h, b), slot) == slot_bucket(file, slot),
{
    law_record_round_trip(b);
    law_header_round_trip(advanced(h), Seq::empty());
    assert(header_bytes(advanced(h)) + Seq::<u8>::empty() =~= header_bytes(advanced(h)));
    let at = slot_offset(slot);
    let now = appended(file, h, b);
    assert(now.subrange(at, at + RING_RECORD_SIZE) =~= file.subrange(at, at + RING_RECORD_SIZE));
}

proof fn lemma_slot_written(file: Seq<u8>, h: RingHeader, b: AggregatedBucket)
    requires
        header_wf(h),
        header_wf(advanced(h)),
    ensures
        slot_bucket(appended(file, h, b), h.write_pos as int) == Some(b),
        parse_header(appended(file, h, b)) == Ok::<RingHeader, RingError>(advanced(h)),
        appended(file, h, b).len() == if file.len() < slot_offset(h.write_pos + 1) {
            slot_offset(h.write_pos + 1)
        } else {
            file.len() as int
        },
{
    law_record_round_trip(b);
    let at = slot_offset(h.write_pos as int);
    let now = appended(file, h, b);
    let hb = header_bytes(advanced(h));
    law_header_round_trip(advanced(h), now.subrange(64, now.len() as int));
    assert(now.subrange(at, at + RING_RECORD_SIZE) =~= record_bytes(b));
    assert(now =~= hb + now.subrange(64, now.len() as int));
}

/// Reading a ring after an append gives what it gave before, followed by the new record, less
/// the oldest record where the ring was full.
pub proof fn law_append_then_read(file: Seq<u8>, b: AggregatedBucket)
    requires
        ring_records(file) is Some,
        compact(parse_header(file)->Ok_0),
    ensures
        ({
            let h = parse_header(file)->Ok_0;
            let now = appended(file, h, b);
            &&& parse_header(now) == Ok::<RingHeader, RingError>(advanced(h))
            &&& compact(advanced(h))
            &&& ring_records(now) == Some(
                recent(ring_records(file)->Some_0.push(b), h.slot_count as nat),
            )
        }),
{
    let h = parse_header(file)->Ok_0;
    let n = h.slot_count as int;
    let v = h.valid_count as int;
    let w = h.write_pos as int;
    let g = advanced(h);
    let old_records = ring_records(file)->Some_0;
    let now = appended(file, h, b);
    let expect = recent(old_records.push(b), h.slot_count as nat);
    lemma_oldest_records_index(file, h, h.valid_count as nat, old_records);
    if w + 1 < n {
        vstd::arithmetic::div_mod::lemma_small_mod((w + 1) as nat, n as nat);
    } else {
        vstd::arithmetic::div_mod::lemma_mod_self_0(n);
    }
    assert(header_wf(g));
    lemma_slot_written(file, h, b);
    if v < n {
        assert(w == v);
        vstd::arithmetic::div_mod::lemma_mod_self_0(n);
        assert(first_slot(h) == 0);
        assert(first_slot(g) == 0) by {
            if v + 1 < n {
                assert(g.write_pos + g.slot_count - g.valid_count == n);
            } else {
                assert(g.write_pos + g.slot_count - g.valid_count == 0);
                vstd::arithmetic::div_mod::lemma_small_mod(0, n as nat);
            }
        }
        assert(expect.len() == g.valid_count);
        assert forall|i: int| 0 <= i < g.valid_count implies slot_bucket(
            now,
            #[trigger] record_slot(g, i),
        ) == Some(expect[i]) by {
            vstd::arithmetic::div_mod::lemma_small_mod(i as nat, n as nat);
            assert(record_slot(g, i) == i);
            if i < v {
                assert(record_slot(h, i) == i);
                lemma_slot_unchanged(file, h, b, i);
            }
        }
    } else {
        assert(first_slot(h) == w) by {
            vstd::arithmetic::div_mod::lemma_small_mod(w as nat, n as nat);
        }
        assert(first_slot(g) == g.write_pos) by {
            vstd::arithmetic::div_mod::lemma_small_mod(g.write_pos as nat, n as nat);
        }
        assert(expect =~= old_records.push(b).subrange(1, n + 1));
        assert forall|i: int| 0 <= i < g.valid_count implies slot_bucket(
            now,
            #[trigger] record_slot(g, i),
        ) == Some(expect[i]) by {
            vstd::arithmetic::div_mod::lemma_add_mod_noop(w + 1, i, n);
            vstd::arithmetic::div_mod::lemma_small_mod(i as nat, n as nat);
            assert(record_slot(g, i) == (w + 1 + i) % n);
            if i == n - 1 {
                vstd::arithmetic::div_mod::lemma_mod_add_multiples_vanish(w, n);
                vstd::arithmetic::div_mod::lemma_small_mod(w as nat, n as nat);
                assert(record_slot(g, i) == w);
            } else {
                assert(record_slot(h, i + 1) == (w + (i + 1)) % n);
                let s = record_slot(g, i);
                assert(s == record_slot(h, i + 1));
                assert(s != w) by {
                    if w + 1 + i < n {
                        vstd::arithmetic::div_mod::lemma_small_mod((w + 1 + i) as nat, n as nat);
                    } else {
                        vstd::arithmetic::div_mod::lemma_mod_add_multiples_vanish(
                            w + 1 + i - n,
                            n,
                        );
                        vstd::arithmetic::div_mod::lemma_small_mod(
                            (w + 1 + i - n) as nat,
                            n as nat,
                        );
                    }
                }
                assert(0 <= s < n) by {
                    vstd::arithmetic::div_mod::lemma_mod_bound(w + 1 + i, n);
                }
                lemma_slot_unchanged(file, h, b, s);
            }
        }
    }
    lemma_oldest_records_index(now, g, g.valid_count as nat, expect);
}

/// A new ring file after `buckets` have been appended one by one.
pub open spec fn ring_after(buckets: Seq<AggregatedBucket>) -> Seq<u8>
    decreases buckets.len(),
{
    if buckets.len() == 0 {
        header_bytes(
            RingHeader {
                slot_count: RING_SLOT_COUNT,
                write_pos: 0,
                valid_count: 0,
                record_size: RING_RECORD_SIZE as u32,
            },
        )
    } else {
        let file = ring_after(buckets.drop_last());
        appended(file, parse_header(file)->Ok_0, buckets.last())
    }
}

/// However many records are appended to a new ring, reading it gives the most recent ones in
/// order, as many as there are slots; and the file has grown only as far as the records reach.
#[verifier::spinoff_prover]
#[verifier::rlimit(60)]
pub proof fn law_ring_keeps_recent(buckets: Seq<AggregatedBucket>)
    ensures
        ring_records(ring_after(buckets)) == Some(recent(buckets, RING_SLOT_COUNT as nat)),
        ring_after(buckets).len() == RING_HEADER_SIZE + RING_RECORD_SIZE * recent(
            buckets,
            RING_SLOT_COUNT as nat,
        ).len(),
        parse_header(ring_after(buckets)) is Ok,
        compact(parse_header(ring_after(buckets))->Ok_0),
        parse_header(ring_after(buckets))->Ok_0.slot_count == RING_SLOT_COUNT,
    decreases buckets.len(),
{
    let file = ring_after(buckets);
    if buckets.len() == 0 {
        let h = RingHeader {
            slot_count: RING_SLOT_COUNT,
            write_pos: 0,
            valid_count: 0,
            record_size: RING_RECORD_SIZE as u32,
        };
        law_header_round_trip(h, Seq::empty());
        assert(file + Seq::<u8>::empty() =~= file);
        assert(buckets =~= Seq::empty());
    } else {
        let before = buckets.drop_last();
        law_ring_keeps_recent(before);
        let old_file = ring_after(before);
        let h = parse_header(old_file)->Ok_0;
        law_append_then_read(old_file, buckets.last());
        lemma_oldest_records_index(
            old_file,
            h,
            h.valid_count as nat,
            recent(before, RING_SLOT_COUNT as nat),
        );
        lemma_slot_written(old_file, h, buckets.last());
        assert(recent(recent(before, RING_SLOT_COUNT as nat).push(buckets.last()), RING_SLOT_COUNT as nat)
            =~= recent(buckets, RING_SLOT_COUNT as nat));
    }
}

/// Multiplying by the prime of the checksum loses nothing.
proof fn lemma_prime_injective(a: u32, b: u32)
    requires
        a.wrapping_mul(0x01000193u32) == b.wrapping_mul(0x01000193u32),
    ensures
        a == b,
{
    let d: int = a - b;
    let qa: int = (a * 0x01000193) / 0x1_0000_0000;
    let qb: int = (b * 0x01000193) / 0x1_0000_0000;
    assert((a * 0x01000193) % 0x1_0000_0000 == (b * 0x01000193) % 0x1_0000_0000);
    let q: int = qa - qb;
    assert(d * 0x01000193 == 0x1_0000_0000 * q);
    // Times the inverse of the prime modulo 2^32, the left side is d and a multiple of 2^32.
    assert(0x01000193int * 0x359c449b == 1 + 0x1_0000_0000 * 3513497);
    let k: int = q * 0x359c449b - 3513497 * d;
    assert(d == 0x1_0000_0000 * k);
}

proof fn lemma_step_injective(a: u32, b: u32, x: u8, y: u8)
    requires
        (a ^ (x as u32)).wrapping_mul(0x01000193u32) == (b ^ (y as u32)).wrapping_mul(
            0x01000193u32,
        ),
    ensures
        a == b ==> x == y,
        x == y ==> a == b,
{
    lemma_prime_injective(a ^ (x as u32), b ^ (y as u32));
    let u = x as u32;
    let v = y as u32;
    assert(a ^ u == b ^ v && a == b ==> u == v) by (bit_vector);
    assert(a ^ u == b ^ v && u == v ==> a == b) by (bit_vector);
}

/// `a` and `b` differ in the byte at `at` and nowhere else.
pub open spec fn differ_at(a: Seq<u8>, b: Seq<u8>, at: int) -> bool {
    &&& a.len() == b.len()
    &&& 0 <= at < a.len()
    &&& a[at] != b[at]
    &&& forall|i: int| 0 <= i < a.len() && i != at ==> #[trigger] a[i] == b[i]
}

/// A change of one byte changes the checksum.
pub proof fn law_checksum_sees_one_byte(a: Seq<u8>, b: Seq<u8>, at: int)
    requires
        differ_at(a, b, at),
    ensures
        fnv1a(a) != fnv1a(b),
    decreases a.len(),
{
    let n = a.len() - 1;
    let x = a.drop_last();
    let y = b.drop_last();
    if at == n {
        assert(x =~= y);
    } else {
        assert forall|i: int| 0 <= i < x.len() && i != at implies #[trigger] x[i] == y[i] by {
            assert(a[i] == b[i]);
        }
        law_checksum_sees_one_byte(x, y, at);
        assert(a[n] == b[n]);
    }
    if fnv1a(a) == fnv1a(b) {
        lemma_step_injective(fnv1a(x), fnv1a(y), a[n], b[n]);
    }
}

/// The bytes before `n` are followed by their checksum.
pub open spec fn sealed(data: Seq<u8>, n: int) -> bool {
    word32_at(data, n) == fnv1a(data.subrange(0, n))
}

/// A change of one byte, before the checksum or in it, breaks the seal.
pub proof fn law_seal_is_broken(a: Seq<u8>, b: Seq<u8>, n: int, at: int)
    requires
        0 <= n,
        n + 4 <= a.len(),
        at < n + 4,
        differ_at(a, b, at),
        sealed(a, n),
    ensures
        !sealed(b, n),
{
    let (x, y) = (a.subrange(0, n), b.subrange(0, n));
    let (s, t) = (a.subrange(n, n + 4), b.subrange(n, n + 4));
    if at < n {
        assert(differ_at(x, y, at));
        law_checksum_sees_one_byte(x, y, at);
        assert(s =~= t);
    } else {
        assert(x =~= y);
        assert(s[at - n] != t[at - n]);
        vstd::bytes::lemma_auto_spec_u32_to_from_le_bytes();
        if word32_at(a, n) == word32_at(b, n) {
            assert(s == spec_u32_to_le_bytes(word32_at(a, n)));
            assert(t == spec_u32_to_le_bytes(word32_at(b, n)));
        }
    }
}

/// Of two slots that differ in one byte, be it of the bucket or of the checksum, at most one is
/// taken. A slot of another length never is.
pub proof fn law_damaged_record_is_refused(a: Seq<u8>, b: Seq<u8>, at: int)
    requires
        differ_at(a, b, at) || b.len() != RING_RECORD_SIZE,
        parse_record(a) is Ok,
    ensures
        parse_record(b) is Err,
{
    if b.len() == RING_RECORD_SIZE {
        law_seal_is_broken(a, b, 176, at);
    }
}

/// Of two headers that differ in one byte before the padding, at most one is taken.
pub proof fn law_damaged_header_is_refused(a: Seq<u8>, b: Seq<u8>, at: int)
    requires
        differ_at(a, b, at),
        at < 32,
        parse_header(a) is Ok,
    ensures
        parse_header(b) is Err,
{
    law_seal_is_broken(a, b, 28, at);
}

/// A slot that holds a bucket and is then damaged in one byte, or cut or extended, is refused.
pub proof fn law_damaged_bucket_is_refused(bucket: AggregatedBucket, data: Seq<u8>, at: int)
    requires
        differ_at(record_bytes(bucket), data, at) || data.len() != RING_RECORD_SIZE,
    ensures
        parse_record(data) is Err,
{
    law_record_round_trip(bucket);
    law_damaged_record_is_refused(record_bytes(bucket), data, at);
}


/// Where a slot holds what: start and end, bytes by IP version and direction, and for each of these
/// the average, highest, lowest and 95th-percentile rate, eight bytes each, the least significant
/// first, and behind them the checksum of them all.
pub proof fn law_slot_layout(b: AggregatedBucket)
    ensures
        ({
            let data = record_bytes(b);
            &&& data.len() == 180
            &&& word64_at(data, 0) == b.start_ts_ms
            &&& word64_at(data, 8) == b.end_ts_ms
            &&& word64_at(data, 16) == b.up_v4_bytes
            &&& word64_at(data, 24) == b.down_v4_bytes
            &&& word64_at(data, 32) == b.up_v6_bytes
            &&& word64_at(data, 40) == b.down_v6_bytes
            &&& word64_at(data, 48) == b.up_v4_bps_avg
            &&& word64_at(data, 56) == b.up_v4_bps_max
            &&& word64_at(data, 64) == b.up_v4_bps_min
            &&& word64_at(data, 72) == b.up_v4_bps_p95
            &&& word64_at(data, 80) == b.down_v4_bps_avg
            &&& word64_at(data, 88) == b.down_v4_bps_max
            &&& word64_at(data, 96) == b.down_v4_bps_min
            &&& word64_at(data, 104) == b.down_v4_bps_p95
            &&& word64_at(data, 112) == b.up_v6_bps_avg
            &&& word64_at(data, 120) == b.up_v6_bps_max
            &&& word64_at(data, 128) == b.up_v6_bps_min
            &&& word64_at(data, 136) == b.up_v6_bps_p95
            &&& word64_at(data, 144) == b.down_v6_bps_avg
            &&& word64_at(data, 152) == b.down_v6_bps_max
            &&& word64_at(data, 160) == b.down_v6_bps_min
            &&& word64_at(data, 168) == b.down_v6_bps_p95
            &&& word32_at(data, 176) == fnv1a(data.subrange(0, 176))
        }),
{
    vstd::bytes::lemma_auto_spec_u32_to_from_le_bytes();
    let words = record_words(b);
    let body = words_bytes(words);
    let data = record_bytes(b);
    lemma_words_bytes_len(words);
    assert(data.subrange(0, 176) =~= body);
    assert(data.subrange(176, 180) =~= spec_u32_to_le_bytes(fnv1a(body)));
    assert forall|i: int| 0 <= i < 22 implies word64_at(data, 8 * i) == #[trigger] words[i] by {
        lemma_words_bytes_at(words, i);
        assert(data.subrange(8 * i, 8 * i + 8) =~= body.subrange(8 * i, 8 * i + 8));
    }
    assert(words[0] == b.start_ts_ms);
    assert(words[1] == b.end_ts_ms);
    assert(words[2] == b.up_v4_bytes);
    assert(words[3] == b.down_v4_bytes);
    assert(words[4] == b.up_v6_bytes);
    assert(words[5] == b.down_v6_bytes);
    assert(words[6] == b.up_v4_bps_avg);
    assert(words[7] == b.up_v4_bps_max);
    assert(words[8] == b.up_v4_bps_min);
    assert(words[9] == b.up_v4_bps_p95);
    assert(words[10] == b.down_v4_bps_avg);
    assert(words[11] == b.down_v4_bps_max);
    assert(words[12] == b.down_v4_bps_min);
    assert(words[13] == b.down_v4_bps_p95);
    assert(words[14] == b.up_v6_bps_avg);
    assert(words[15] == b.up_v6_bps_max);
    assert(words[16] == b.up_v6_bps_min);
    assert(words[17] == b.up_v6_bps_p95);
    assert(words[18] == b.down_v6_bps_avg);
    assert(words[19] == b.down_v6_bps_max);
    assert(words[20] == b.down_v6_bps_min);
    assert(words[21] == b.down_v6_bps_p95);
}

/// Where a header holds what: the magic `BDXPRNG1`, the version, the number of slots, where the next
/// record goes, how many records there are and how long a slot is, four bytes each, the least
/// significant first, the checksum of them all, and zeros.
pub proof fn law_header_layout(h: RingHeader)
    ensures
        ({
            let data = header_bytes(h);
            &&& data.len() == 64
            &&& data.subrange(0, 8) =~= seq![
                'B' as u8,
                'D' as u8,
                'X' as u8,
                'P' as u8,
                'R' as u8,
                'N' as u8,
                'G' as u8,
                '1' as u8,
            ]
            &&& word32_at(data, 8) == 1
            &&& word32_at(data, 12) == h.slot_count
            &&& word32_at(data, 16) == h.write_pos
            &&& word32_at(data, 20) == h.valid_count
            &&& word32_at(data, 24) == h.record_size
            &&& word32_at(data, 28) == fnv1a(data.subrange(0, 28))
            &&& forall|i: int| 32 <= i < 64 ==> #[trigger] data[i] == 0
        }),
{
    vstd::bytes::lemma_auto_spec_u32_to_from_le_bytes();
    let p = header_prefix(h);
    let data = header_bytes(h);
    assert(p.len() == 28);
    assert(data.subrange(0, 8) =~= ring_magic());
    assert(data.subrange(8, 12) =~= spec_u32_to_le_bytes(RING_VERSION));
    assert(data.subrange(12, 16) =~= spec_u32_to_le_bytes(h.slot_count));
    assert(data.subrange(16, 20) =~= spec_u32_to_le_bytes(h.write_pos));
    assert(data.subrange(20, 24) =~= spec_u32_to_le_bytes(h.valid_count));
    assert(data.subrange(24, 28) =~= spec_u32_to_le_bytes(h.record_size));
    assert(data.subrange(0, 28) =~= p);
    assert(data.subrange(28, 32) =~= spec_u32_to_le_bytes(fnv1a(p)));
}

/// Slots follow each other without a gap, the first behind the header. A file that is not too short
/// for its header holds every slot that has a record, and one that is one byte shorter does not.
pub proof fn law_slots_are_held(h: RingHeader)
    requires
        header_wf(h),
        compact(h),
        h.valid_count > 0,
    ensures
        slot_offset(0) == 64,
        forall|i: int| #[trigger] slot_offset(i + 1) == slot_offset(i) + 180,
        min_size(h) matches Ok(min) && (forall|i: int|
            0 <= i < h.valid_count ==> slot_offset(#[trigger] record_slot(h, i)) + 180 <= min) && (
        exists|i: int|
            0 <= i < h.valid_count && slot_offset(#[trigger] record_slot(h, i)) + 180 == min),
{
    let n = h.slot_count as int;
    let c = h.valid_count as int;
    let first = first_slot(h);
    if c < n {
        assert(h.write_pos == c);
        assert((c + n - c) % n == 0) by {
            vstd::arithmetic::div_mod::lemma_mod_self_0(n);
        }
        assert(first == 0);
        assert forall|i: int| 0 <= i < c implies #[trigger] record_slot(h, i) == i by {
            vstd::arithmetic::div_mod::lemma_small_mod(i as nat, n as nat);
        }
        assert(record_slot(h, c - 1) == c - 1);
    } else {
        assert(0 <= first < n) by {
            vstd::arithmetic::div_mod::lemma_mod_bound(h.write_pos + n - c, n);
        }
        assert forall|i: int| 0 <= i < c implies 0 <= #[trigger] record_slot(h, i) < n by {
            vstd::arithmetic::div_mod::lemma_mod_bound(first + i, n);
        }
        let last = n - 1 - first;
        assert(first + last == n - 1);
        vstd::arithmetic::div_mod::lemma_small_mod((n - 1) as nat, n as nat);
        assert(record_slot(h, last) == n - 1);
    }
}

/// The checksum of no bytes is 2166136261. Each byte more is joined to it bit by bit, and the result
/// multiplied by 16777619, of which 32 bits are kept.
pub proof fn law_checksum_by_bytes(data: Seq<u8>, byte: u8)
    ensures
        fnv1a(Seq::empty()) == 2166136261,
        fnv1a(data.push(byte)) == ((fnv1a(data) ^ (byte as u32)) as int * 16777619) % 0x1_0000_0000,
{
    assert(data.push(byte).drop_last() =~= data);
    assert(data.push(byte).last() == byte);
}


} // verus!
