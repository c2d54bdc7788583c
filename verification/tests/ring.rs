use bandix_plus::bucket::AggregatedBucket;
use bandix_plus::persistence::{plan_append, AppendPlan};
use bandix_plus::ring::{
    append_ring_record, checksum32, decode_ring_record, default_ring_header, encode_ring_record,
    open_or_create_ring, read_ring_header, read_ring_records, ring_data_offset, ring_min_size,
    ring_size_bounds, ring_total_size, write_ring_header, RingError, RingHeader, RingOpen, RingRead,
    RingRecord, RING_HEADER_SIZE, RING_RECORD_SIZE, RING_SLOT_COUNT,
};

fn sample_bucket(start: u64) -> AggregatedBucket {
    AggregatedBucket {
        start_ts_ms: start,
        end_ts_ms: start + 3_599_999,
        up_v4_bytes: 1,
        down_v4_bytes: 2,
        up_v6_bytes: 3,
        down_v6_bytes: 4,
        up_v4_bps_avg: 5,
        up_v4_bps_max: 6,
        up_v4_bps_min: 7,
        up_v4_bps_p95: 8,
        down_v4_bps_avg: 9,
        down_v4_bps_max: 10,
        down_v4_bps_min: 11,
        down_v4_bps_p95: 12,
        up_v6_bps_avg: 13,
        up_v6_bps_max: 14,
        up_v6_bps_min: 15,
        up_v6_bps_p95: 16,
        down_v6_bps_avg: 17,
        down_v6_bps_max: 18,
        down_v6_bps_min: 19,
        down_v6_bps_p95: 20,
    }
}

fn write_at(file: &mut Vec<u8>, at: usize, bytes: &[u8]) {
    if file.len() < at + bytes.len() {
        file.resize(at + bytes.len(), 0);
    }
    file[at..at + bytes.len()].copy_from_slice(bytes);
}

/// Appends to a file in memory, as the plan says. The result is whether the old one was given up.
fn append(file: &mut Option<Vec<u8>>, bucket: &AggregatedBucket) -> bool {
    let file_len = file.as_ref().map(|f| f.len() as u64).unwrap_or(0);
    let head = file.as_ref().map(|f| &f[..f.len().min(RING_HEADER_SIZE)]);
    match plan_append(head, file_len, bucket) {
        AppendPlan::Fail(e) => panic!("{:?}", e),
        AppendPlan::Write { quarantine, create, append } => {
            if let Some(block) = create {
                *file = Some(block);
            }
            let f = file.as_mut().unwrap();
            write_at(f, append.offset as usize, &append.record);
            write_at(f, 0, &append.header);
            quarantine
        }
    }
}

fn records(file: &[u8]) -> Vec<RingRecord> {
    match read_ring_records(file) {
        RingRead::Records(v) => v,
        RingRead::Quarantine => panic!("damaged"),
    }
}

#[test]
fn ring_wrap_keeps_recent_records() {
    let mut file: Option<Vec<u8>> = None;
    for i in 0..(RING_SLOT_COUNT as usize + 10) {
        append(&mut file, &sample_bucket(i as u64));
    }
    let records = records(file.as_ref().unwrap());
    assert_eq!(records.len(), RING_SLOT_COUNT as usize);
    assert_eq!(records.first().unwrap().bucket.start_ts_ms, 10);
    assert_eq!(
        records.last().unwrap().bucket.start_ts_ms,
        (RING_SLOT_COUNT as usize + 9) as u64
    );
}

#[test]
fn ring_grows_on_demand_instead_of_preallocating_full_size() {
    let mut file: Option<Vec<u8>> = None;
    append(&mut file, &sample_bucket(1));
    let size_after_one = file.as_ref().unwrap().len() as u64;
    assert_eq!(size_after_one, (RING_HEADER_SIZE + RING_RECORD_SIZE) as u64);
    assert!(size_after_one < ring_total_size(&default_ring_header()) as u64);

    append(&mut file, &sample_bucket(2));
    let size_after_two = file.as_ref().unwrap().len() as u64;
    assert_eq!(size_after_two, (RING_HEADER_SIZE + 2 * RING_RECORD_SIZE) as u64);
}

#[test]
fn records_come_back_whole_and_in_order() {
    let mut file: Option<Vec<u8>> = None;
    for i in 0..5 {
        assert!(!append(&mut file, &sample_bucket(1000 * i)));
    }
    let back = records(file.as_ref().unwrap());
    let starts: Vec<u64> = back.iter().map(|r| r.bucket.start_ts_ms).collect();
    assert_eq!(starts, vec![0, 1000, 2000, 3000, 4000]);
    let b = &back[3].bucket;
    assert_eq!(b.end_ts_ms, 3000 + 3_599_999);
    assert_eq!((b.up_v4_bytes, b.down_v4_bytes, b.up_v6_bytes, b.down_v6_bytes), (1, 2, 3, 4));
    assert_eq!((b.up_v4_bps_avg, b.up_v4_bps_max, b.up_v4_bps_min, b.up_v4_bps_p95), (5, 6, 7, 8));
    assert_eq!((b.down_v6_bps_avg, b.down_v6_bps_max), (17, 18));
    assert_eq!((b.down_v6_bps_min, b.down_v6_bps_p95), (19, 20));
}

#[test]
fn checksum_is_fnv1a() {
    assert_eq!(checksum32(b""), 0x811c9dc5);
    assert_eq!(checksum32(b"a"), 0xe40c292c);
    assert_eq!(checksum32(b"foobar"), 0xbf9cf968);
}

#[test]
fn header_block_has_its_layout() {
    let h = RingHeader { slot_count: 3, write_pos: 1, valid_count: 2, record_size: 180 };
    let block = write_ring_header(&h);
    assert_eq!(block.len(), 64);
    assert_eq!(&block[0..8], b"BDXPRNG1");
    assert_eq!(&block[8..12], &1u32.to_le_bytes());
    assert_eq!(&block[12..16], &3u32.to_le_bytes());
    assert_eq!(&block[16..20], &1u32.to_le_bytes());
    assert_eq!(&block[20..24], &2u32.to_le_bytes());
    assert_eq!(&block[24..28], &180u32.to_le_bytes());
    assert_eq!(&block[28..32], &checksum32(&block[0..28]).to_le_bytes());
    assert!(block[32..].iter().all(|b| *b == 0));
    let back = read_ring_header(&block).unwrap();
    assert_eq!((back.slot_count, back.write_pos, back.valid_count), (3, 1, 2));
    assert_eq!(back.record_size, 180);
}

fn resealed(mut block: Vec<u8>, at: usize, word: u32) -> Vec<u8> {
    block[at..at + 4].copy_from_slice(&word.to_le_bytes());
    let sum = checksum32(&block[0..28]);
    block[28..32].copy_from_slice(&sum.to_le_bytes());
    block
}

#[test]
fn header_errors() {
    let good = write_ring_header(&default_ring_header());
    assert_eq!(read_ring_header(&good[..63]).unwrap_err(), RingError::Truncated);
    let mut magic = good.clone();
    magic[0] = b'X';
    assert_eq!(read_ring_header(&magic).unwrap_err(), RingError::InvalidMagic);
    assert_eq!(
        read_ring_header(&resealed(good.clone(), 8, 7)).unwrap_err(),
        RingError::UnsupportedVersion { version: 7 }
    );
    let mut sum = good.clone();
    sum[28] ^= 1;
    assert_eq!(read_ring_header(&sum).unwrap_err(), RingError::HeaderChecksum);
    assert_eq!(
        read_ring_header(&resealed(good.clone(), 12, 0)).unwrap_err(),
        RingError::InvalidValues
    );
    assert_eq!(
        read_ring_header(&resealed(good.clone(), 24, 181)).unwrap_err(),
        RingError::InvalidValues
    );
    assert_eq!(
        read_ring_header(&resealed(good.clone(), 16, 8760)).unwrap_err(),
        RingError::InvalidPositions
    );
    assert_eq!(
        read_ring_header(&resealed(good.clone(), 20, 8761)).unwrap_err(),
        RingError::InvalidPositions
    );
}

#[test]
fn record_errors() {
    let data = encode_ring_record(&RingRecord { bucket: sample_bucket(9) });
    assert_eq!(data.len(), RING_RECORD_SIZE);
    assert_eq!(decode_ring_record(&data).unwrap().bucket.start_ts_ms, 9);
    assert_eq!(decode_ring_record(&data[1..]).unwrap_err(), RingError::RecordLength);
    let mut bad = data.clone();
    bad[20] ^= 0x80;
    assert_eq!(decode_ring_record(&bad).unwrap_err(), RingError::RecordChecksum);
}

#[test]
fn sizes_of_rings() {
    let h = default_ring_header();
    assert_eq!(ring_total_size(&h), 64 + 8760 * 180);
    assert_eq!(ring_min_size(&h), Ok(64));
    let part = RingHeader { valid_count: 3, write_pos: 3, ..h };
    assert_eq!(ring_size_bounds(&part), Ok((64 + 3 * 180, 64 + 8760 * 180)));
    let odd = RingHeader { valid_count: 3, write_pos: 4, ..h };
    assert_eq!(
        ring_min_size(&odd),
        Err(RingError::NonFullPosition { write_pos: 4, valid_count: 3 })
    );
    let full = RingHeader { valid_count: 8760, write_pos: 4, ..h };
    assert_eq!(ring_min_size(&full), Ok(64 + 8760 * 180));
    assert_eq!(ring_data_offset(0), 64);
    assert_eq!(ring_data_offset(2), 424);
}

#[test]
fn damaged_files_are_given_up() {
    let mut file: Option<Vec<u8>> = None;
    append(&mut file, &sample_bucket(1));
    append(&mut file, &sample_bucket(2));
    let good = file.clone().unwrap();

    let mut flipped = good.clone();
    flipped[100] ^= 1;
    assert!(matches!(read_ring_records(&flipped), RingRead::Quarantine));
    assert!(matches!(read_ring_records(&good[..good.len() - 1]), RingRead::Quarantine));
    assert!(matches!(read_ring_records(&good[..10]), RingRead::Quarantine));
    let odd = RingHeader { valid_count: 1, write_pos: 2, ..default_ring_header() };
    let mut contradicting = good.clone();
    contradicting[..64].copy_from_slice(&write_ring_header(&odd));
    assert!(matches!(read_ring_records(&contradicting), RingRead::Quarantine));

    let mut broken = Some(vec![0u8; 10]);
    assert!(append(&mut broken, &sample_bucket(7)));
    assert_eq!(records(broken.as_ref().unwrap()).len(), 1);

    let mut short = Some(good[..good.len() - 1].to_vec());
    assert!(append(&mut short, &sample_bucket(8)));
    assert_eq!(records(short.as_ref().unwrap())[0].bucket.start_ts_ms, 8);
}

#[test]
fn opening_a_ring() {
    assert!(matches!(open_or_create_ring(None, 0), RingOpen::Create(h) if h.slot_count == 8760));
    let block = write_ring_header(&default_ring_header());
    assert!(matches!(open_or_create_ring(Some(&block), 64), RingOpen::Use(_)));
    assert!(matches!(open_or_create_ring(Some(&block), 63), RingOpen::Quarantine));
    assert!(matches!(open_or_create_ring(Some(&block[..5]), 5), RingOpen::Quarantine));
    let odd = RingHeader { valid_count: 1, write_pos: 2, ..default_ring_header() };
    let block = write_ring_header(&odd);
    assert!(matches!(
        open_or_create_ring(Some(&block), 1000),
        RingOpen::Fail(RingError::NonFullPosition { write_pos: 2, valid_count: 1 })
    ));
    assert!(matches!(
        plan_append(Some(&block), 1000, &sample_bucket(1)),
        AppendPlan::Fail(RingError::NonFullPosition { write_pos: 2, valid_count: 1 })
    ));
}

#[test]
fn appending_moves_the_header() {
    let h = RingHeader { slot_count: 8760, write_pos: 8759, valid_count: 8760, record_size: 180 };
    let a = append_ring_record(&h, &RingRecord { bucket: sample_bucket(1) });
    assert_eq!(a.offset, 64 + 8759 * 180);
    let next = read_ring_header(&a.header).unwrap();
    assert_eq!((next.write_pos, next.valid_count), (0, 8760));
    let a = append_ring_record(&default_ring_header(), &RingRecord { bucket: sample_bucket(1) });
    assert_eq!(a.offset, 64);
    let next = read_ring_header(&a.header).unwrap();
    assert_eq!((next.write_pos, next.valid_count), (1, 1));
}

#[test]
fn every_damaged_byte_is_noticed() {
    let data = encode_ring_record(&RingRecord { bucket: sample_bucket(77) });
    assert_eq!(data.len(), 180);
    for at in 0..data.len() {
        for flip in [1u8, 0x80, 0xff] {
            let mut damaged = data.clone();
            damaged[at] ^= flip;
            assert!(decode_ring_record(&damaged).is_err());
        }
    }
    for n in [0usize, 1, 179] {
        assert!(decode_ring_record(&data[..n]).is_err());
    }
    let mut longer = data.clone();
    longer.push(0);
    assert!(decode_ring_record(&longer).is_err());

    let header = write_ring_header(&default_ring_header());
    for at in 0..header.len() {
        let mut damaged = header.clone();
        damaged[at] ^= 1;
        assert_eq!(read_ring_header(&damaged).is_err(), at < 32);
    }
}
