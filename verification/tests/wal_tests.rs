use monolith::wal::{
    Entry, EntryType, FlushPolicy, SegmentReader, SegmentWriter, Wal, WalConfig, WAL_MAGIC_NUMBER,
};

#[test]
pub fn test_entry_get_bytes() {
    let mut entry = Entry::default();
    entry.push(vec![1, 2, 3, 4]);
    let bytes = entry.get_bytes();
    let sum32 = crc::crc32::checksum_ieee(vec![1u8, 2, 3, 4].as_slice());
    let mut result = vec![0u8, 0, 0, 0, 0, 0, 0, 0, 0, 0, 4, 1, 2, 3, 4];
    result.extend_from_slice(&sum32.to_be_bytes()[..]);
    assert_eq!(bytes, result)
}

#[test]
pub fn test_entry_clone() {
    let mut entry = Entry::default();
    entry.push(vec![1, 3, 4, 5]);

    let entry_clone = entry.clone();

    assert_eq!(entry_clone.get_bytes(), entry.get_bytes());
}

#[test]
pub fn test_write_entry_bytes() {
    // An immediate-policy segment holds the magic and then each entry's
    // bytes as soon as it is written.
    let mut segment = SegmentWriter::new(FlushPolicy::Immediate);
    let mut entry = Entry::new(1u64, EntryType::Default);
    entry.push(vec![1, 2, 3, 4]);
    segment.write_entry(entry).unwrap();

    let bytes = &segment.synced;
    assert_eq!(&bytes[0..8], &WAL_MAGIC_NUMBER.to_be_bytes());
    assert_eq!(&bytes[8..16], &1u64.to_be_bytes());
    assert_eq!(bytes[16], 0u8);
    assert_eq!(&bytes[17..19], &[0u8, 4u8]);
    assert_eq!(&bytes[19..23], &[1, 2, 3, 4]);
    assert_eq!(&bytes[23..27], &[182u8, 60, 251, 205]);
}

#[test]
pub fn test_write_entry_with_num_cache() {
    let mut segment = SegmentWriter::new(FlushPolicy::NumBased(5));

    for i in 1..5 {
        segment
            .write_entry(Entry::new(i as u64, EntryType::Default))
            .unwrap();
    }

    // no entry on the file yet.
    assert_eq!(segment.synced.len(), 8);

    segment
        .write_entry(Entry::new(5u64, EntryType::Default))
        .unwrap();

    // the fifth write flushed all 5 entries.
    assert_eq!(segment.synced.len(), 8 + 15 * 5);

    segment
        .write_entry(Entry::new(6u64, EntryType::Default))
        .unwrap();
    segment.flush().unwrap(); // force flush
    assert_eq!(segment.synced.len(), 8 + 15 * 6);
}

#[test]
pub fn test_close_entry() {
    let mut segment = SegmentWriter::new(FlushPolicy::NumBased(20));
    segment
        .write_entry(Entry::new(1u64, EntryType::Default))
        .unwrap();

    assert_eq!(segment.synced.len(), 8); // no entry on the file yet.

    segment.close().unwrap();

    // one flushed entry (15 bytes), the two sequence ids and the CRC-64.
    assert_eq!(segment.synced.len(), 8 + 15 + 8 + 16);
}

#[test]
pub fn test_open_existing_log_file() {
    let mut segment = SegmentWriter::new(FlushPolicy::Immediate);
    segment
        .write_entry(Entry::new(1, EntryType::Default))
        .unwrap();
    segment
        .write_entry(Entry::new(2, EntryType::Default))
        .unwrap();
    segment.close().unwrap();

    let mut segment =
        SegmentWriter::open_existing(segment.synced.clone(), FlushPolicy::Immediate).unwrap();
    assert_eq!(segment.first_idx, 1);
    assert_eq!(segment.last_idx, 2);

    segment
        .write_entry(Entry::new(3, EntryType::Default))
        .unwrap();
    segment
        .write_entry(Entry::new(4, EntryType::Default))
        .unwrap();
    segment.close().unwrap();

    let segment =
        SegmentWriter::open_existing(segment.synced.clone(), FlushPolicy::Immediate).unwrap();
    assert_eq!(segment.first_idx, 1);
    assert_eq!(segment.last_idx, 4);
}

#[test]
pub fn sequence_ids_must_increase() {
    let mut segment = SegmentWriter::new(FlushPolicy::Immediate);
    segment
        .write_entry(Entry::new(5, EntryType::Default))
        .unwrap();
    let res = segment.write_entry(Entry::new(5, EntryType::Default));
    assert!(matches!(
        res,
        Err(monolith::error::MonolithErr::WalErr(
            monolith::error::WalErr::InternalError(_)
        ))
    ));
    segment
        .write_entry(Entry::new(6, EntryType::Default))
        .unwrap();
}

#[test]
pub fn reader_round_trips_entries() {
    // A cleanly closed segment reopens with first and last sequence ids
    // preserved, and the reader yields the entries in order.
    let mut segment = SegmentWriter::new(FlushPolicy::Immediate);
    for (seq, payload) in [(3u64, vec![1u8, 2]), (4, vec![]), (9, vec![7, 7, 7])] {
        let mut e = Entry::new(seq, EntryType::Default);
        e.push(payload);
        segment.write_entry(e).unwrap();
    }
    segment.close().unwrap();

    let reader = SegmentReader::new(segment.synced.clone()).unwrap();
    assert_eq!(reader.first_idx, 3);
    assert_eq!(reader.last_idx, 9);
    assert_eq!(reader.entries.len(), 3);
    assert_eq!(reader.entries[0].seq_id, 3);
    assert_eq!(reader.entries[0].content, vec![1u8, 2]);
    assert_eq!(reader.entries[1].seq_id, 4);
    assert!(reader.entries[1].content.is_empty());
    assert_eq!(reader.entries[2].seq_id, 9);
    assert_eq!(reader.entries[2].content, vec![7, 7, 7]);
}

#[test]
pub fn truncated_segment_is_reported_corrupt() {
    // Cutting a closed segment off after its entries but before the
    // checksum leaves a file neither the writer nor the reader accepts.
    let mut segment = SegmentWriter::new(FlushPolicy::Immediate);
    let mut e = Entry::new(1, EntryType::Default);
    e.push(vec![42]);
    segment.write_entry(e).unwrap();
    segment.close().unwrap();

    let mut truncated = segment.synced.clone();
    truncated.truncate(truncated.len() - 8);
    assert!(SegmentWriter::open_existing(truncated.clone(), FlushPolicy::Immediate).is_err());
    assert!(SegmentReader::new(truncated).is_err());

    // Flipping a payload byte breaks the trailing checksum too.
    let mut flipped = segment.synced.clone();
    flipped[20] ^= 0xff;
    assert!(matches!(
        SegmentWriter::open_existing(flipped, FlushPolicy::Immediate),
        Err(monolith::error::MonolithErr::WalErr(
            monolith::error::WalErr::FileIoErr(_)
        ))
    ));
}

#[test]
pub fn wal_assigns_sequence_ids_and_rotates() {
    let config = WalConfig {
        sync_policy: FlushPolicy::Immediate,
        initial_seq: 1,
    };
    // Rotate once the active file reaches 40 bytes: magic plus two entries.
    let mut wal = Wal::open(config, 40);
    assert_eq!(wal.write(EntryType::Default, vec![1]).unwrap(), 1);
    assert_eq!(wal.write(EntryType::Default, vec![2]).unwrap(), 2);
    // The 40-byte threshold was crossed: the first segment is sealed.
    assert_eq!(wal.segments.len(), 1);
    assert_eq!(wal.write(EntryType::Default, vec![3]).unwrap(), 3);
    let sealed = SegmentReader::new(wal.segments[0].clone()).unwrap();
    assert_eq!(sealed.first_idx, 1);
    assert_eq!(sealed.last_idx, 2);
}
