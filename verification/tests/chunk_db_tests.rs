use monolith::chunk::{Chunk, ChunkOpts};
use monolith::db::MonolithDb;
use monolith::indexer::Indexer;
use monolith::label::{Label, Labels};
use monolith::option::DbOpts;
use monolith::sled_indexer::SledIndexer;
use monolith::sled_storage::SledStorage;
use monolith::storage::Storage;
use monolith::test_utils::Ingester;
use monolith::time_point::TimePoint;
use monolith::time_series::TimeSeriesId;
use tempfile::TempDir;

fn sled_chunk(start: u64, end: u64) -> (Chunk<SledStorage, SledIndexer>, TempDir, TempDir) {
    let index_tmp = TempDir::new().unwrap();
    let indexer = SledIndexer::new(index_tmp.path().to_str().unwrap()).unwrap();
    let storage_tmp = TempDir::new().unwrap();
    let storage = SledStorage::new(storage_tmp.path().to_str().unwrap()).unwrap();
    let ops = ChunkOpts::new(Some(start), Some(end), vec![0u8; 16]);
    let chunk = Chunk::new(storage, indexer, &ops, 0, monolith::DEFAULT_CHUNK_SIZE);
    (chunk, index_tmp, storage_tmp)
}

#[test]
fn test_query() {
    let index_tmp = TempDir::new().unwrap();
    let mut indexer = SledIndexer::new(index_tmp.path().to_str().unwrap()).unwrap();
    let storage_tmp = TempDir::new().unwrap();
    let mut storage = SledStorage::new(storage_tmp.path().to_str().unwrap()).unwrap();
    let series = Ingester::from_data(
        vec![1, 2, 3],
        vec![
            vec![("test1", "1"), ("test2", "2")],
            vec![("test2", "2"), ("test3", "3")],
            vec![("test3", "3"), ("test1", "1"), ("test2", "2")],
        ],
        vec![
            vec![
                (12, 12.9f64.to_bits()),
                (16, 13.5f64.to_bits()),
                (17, 46.4f64.to_bits()),
                (33, 45.5f64.to_bits()),
            ],
            vec![
                (120, 12.9f64.to_bits()),
                (160, 13.5f64.to_bits()),
                (161, 15.4f64.to_bits()),
                (167, (-43.3f64).to_bits()),
            ],
            vec![(11, 12.9f64.to_bits()), (16, 13.5f64.to_bits())],
        ],
    )
    .data;
    for s in series {
        for time_point in s.time_points() {
            storage
                .write_time_point(s.id(), time_point.timestamp, time_point.value)
                .unwrap();
        }
        indexer.create_index(s.meta_data().clone(), s.id()).unwrap();
    }
    let ops = ChunkOpts::new(Some(0u64), Some(1000u64), vec![0u8; 16]);
    let chunk = Chunk::new(storage, indexer, &ops, 0, monolith::DEFAULT_CHUNK_SIZE);
    let res1 = chunk
        .query(
            Labels::from_vec(vec![Label::from_key_value("test1", "1")]),
            0,
            100,
        )
        .unwrap();
    assert_eq!(res1.len(), 2);
    assert_eq!(
        res1.iter()
            .map(|ts| ts.id())
            .collect::<Vec<TimeSeriesId>>()
            .to_vec(),
        vec![1, 3]
    );

    let res2 = chunk
        .query(
            Labels::from_vec(vec![
                Label::from_key_value("test2", "2"),
                Label::from_key_value("test1", "1"),
            ]),
            0,
            1000,
        )
        .unwrap();
    assert_eq!(res2.len(), 2);
}

#[test]
fn test_chunk_test_insert() {
    let (mut chunk, _i, _s) = sled_chunk(0, 1000);
    let series = Ingester::from_data(
        vec![1, 2, 3],
        vec![
            vec![("test1", "1"), ("test2", "2")],
            vec![("test2", "2"), ("test3", "3")],
            vec![("test1", "1"), ("test2", "2"), ("test3", "3")],
        ],
        vec![
            vec![
                (12, 12.9f64.to_bits()),
                (16, 13.5f64.to_bits()),
                (17, 46.4f64.to_bits()),
                (33, 45.5f64.to_bits()),
            ],
            vec![
                (120, 12.9f64.to_bits()),
                (160, 13.5f64.to_bits()),
                (161, 15.4f64.to_bits()),
                (167, (-43.3f64).to_bits()),
            ],
            vec![(11, 12.9f64.to_bits()), (16, 13.5f64.to_bits())],
        ],
    )
    .data;

    for s in series.iter() {
        for tp in s.time_points() {
            chunk.insert(s.meta_data().clone(), tp.clone()).unwrap();
        }
    }

    for s in series.iter() {
        let idx = chunk
            .indexer
            .get_series_id_by_labels(s.meta_data().clone())
            .unwrap();
        assert_eq!(idx.is_some(), true);
        let tps = chunk
            .storage
            .read_time_series(idx.unwrap(), 0u64, 1000u64)
            .unwrap();
        assert_eq!(tps.len(), s.time_points().len());
        assert_eq!(tps, s.time_points().clone())
    }
}

#[test]
fn insert_and_query_one_series() {
    // Insert three samples of one labelled series into a chunk over
    // [0, 10000) and read them back in order.
    let (mut chunk, _i, _s) = sled_chunk(0, 10000);
    let mut labels = Labels::new();
    labels.add(Label::from_key_value("__name__", "cpu"));
    labels.add(Label::from_key_value("host", "a"));
    for (ts, v) in [(1000u64, 1.0f64), (1500, 2.0), (2000, 3.0)] {
        chunk
            .insert(labels.duplicate(), TimePoint::new(ts, v.to_bits()))
            .unwrap();
    }
    let mut query = Labels::new();
    query.add(Label::from_key_value("__name__", "cpu"));
    let res = chunk.query(query, 0, 10000).unwrap();
    assert_eq!(res.len(), 1);
    let points = res[0].time_points();
    assert_eq!(points.len(), 3);
    assert_eq!(points[0].timestamp, 1000);
    assert_eq!(f64::from_bits(points[0].value), 1.0);
    assert_eq!(points[1].timestamp, 1500);
    assert_eq!(f64::from_bits(points[1].value), 2.0);
    assert_eq!(points[2].timestamp, 2000);
    assert_eq!(f64::from_bits(points[2].value), 3.0);
}

#[test]
fn insert_outside_window_is_out_of_range() {
    // A chunk over [1000, 2000) rejects a sample at 500 and names its own
    // window; the boundary behaves half-open.
    let (mut chunk, _i, _s) = sled_chunk(1000, 2000);
    let mut labels = Labels::new();
    labels.add(Label::from_key_value("x", "y"));
    let res = chunk.insert(labels.duplicate(), TimePoint::new(500, 0));
    assert!(matches!(
        res,
        Err(monolith::error::MonolithErr::OutOfRangeErr(1000, 2000))
    ));
    let res = chunk.insert(labels.duplicate(), TimePoint::new(2000, 0));
    assert!(matches!(
        res,
        Err(monolith::error::MonolithErr::OutOfRangeErr(1000, 2000))
    ));
    chunk.insert(labels.duplicate(), TimePoint::new(1000, 0)).unwrap();
    chunk.insert(labels, TimePoint::new(1999, 0)).unwrap();
}

#[test]
fn closed_chunk_rejects_inserts_and_still_reads() {
    let (mut chunk, _i, _s) = sled_chunk(0, 10000);
    let mut labels = Labels::new();
    labels.add(Label::from_key_value("a", "b"));
    chunk
        .insert(labels.duplicate(), TimePoint::new(5, 1.5f64.to_bits()))
        .unwrap();
    chunk.close();
    assert!(chunk.is_closed());
    let res = chunk.insert(labels.duplicate(), TimePoint::new(6, 1.5f64.to_bits()));
    assert!(matches!(
        res,
        Err(monolith::error::MonolithErr::InternalErr(_))
    ));
    let found = chunk.query(labels, 0, 10000).unwrap();
    assert_eq!(found.len(), 1);
}

#[test]
fn assigned_ids_strictly_increase() {
    let (mut chunk, _i, _s) = sled_chunk(0, 10000);
    let mut seen: Vec<u64> = Vec::new();
    for name in ["a", "b", "c", "d"] {
        let mut labels = Labels::new();
        labels.add(Label::from_key_value("series", name));
        chunk
            .insert(labels.duplicate(), TimePoint::new(10, 0))
            .unwrap();
        let id = chunk
            .indexer
            .get_series_id_by_labels(labels)
            .unwrap()
            .unwrap();
        seen.push(id);
    }
    assert_eq!(seen, vec![1, 2, 3, 4]);
}

fn db_opts() -> DbOpts {
    DbOpts::new(
        String::from(monolith::SLED_BACKEND),
        String::from(monolith::SLED_BACKEND),
        String::from("."),
        monolith::DEFAULT_CHUNK_SIZE,
        None,
    )
}

#[test]
fn rotation_keeps_all_points() {
    // Insert into the first chunk over [0, 2500), rotate at 2500, insert
    // the same labels at 3000 into the new chunk, and read the union back
    // across both chunks through the database.
    let (first, _i1, _s1) = sled_chunk(0, 2500);
    let mut db = MonolithDb::new(first, Vec::new(), db_opts());
    let mut labels = Labels::new();
    labels.add(Label::from_key_value("__name__", "cpu"));
    labels.add(Label::from_key_value("host", "a"));
    for (ts, v) in [(1000u64, 1.0f64), (1500, 2.0), (2000, 3.0)] {
        db.write_time_point(labels.duplicate(), TimePoint::new(ts, v.to_bits()))
            .unwrap();
    }
    let (second, _i2, _s2) = sled_chunk(2501, 10000);
    db.swap(second).unwrap();
    db.write_time_point(labels.duplicate(), TimePoint::new(3000, 4.0f64.to_bits()))
        .unwrap();

    let res = db.query(labels.duplicate(), 0, 10000).unwrap();
    assert_eq!(res.len(), 1);
    let (_found_labels, points) = &res[0];
    let flat: Vec<(u64, f64)> = points
        .iter()
        .map(|tp| (tp.timestamp, f64::from_bits(tp.value)))
        .collect();
    assert_eq!(
        flat,
        vec![(1000, 1.0), (1500, 2.0), (2000, 3.0), (3000, 4.0)]
    );
}

#[test]
fn batch_writes_drop_outside_points() {
    let (chunk, _i, _s) = sled_chunk(1000, 2000);
    let mut db = MonolithDb::new(chunk, Vec::new(), db_opts());
    let mut labels = Labels::new();
    labels.add(Label::from_key_value("m", "v"));
    // Points outside the window, and the zero timestamp, are dropped
    // silently; the in-window points survive.
    db.write_time_points(
        labels.duplicate(),
        vec![
            TimePoint::new(0, 1),
            TimePoint::new(500, 2),
            TimePoint::new(1100, 3),
            TimePoint::new(1200, 4),
            TimePoint::new(5000, 5),
        ],
    )
    .unwrap();
    let res = db.query(labels, 0, 10000).unwrap();
    assert_eq!(res.len(), 1);
    let got: Vec<u64> = res[0].1.iter().map(|tp| tp.timestamp).collect();
    assert_eq!(got, vec![1100, 1200]);
}

#[test]
fn writes_append_to_the_log_first() {
    let (chunk, _i, _s) = sled_chunk(1000, 2000);
    let mut db = MonolithDb::new(chunk, Vec::new(), db_opts());
    assert_eq!(db.wal.next_seq, 1);
    let synced0 = db.wal.active_seg.synced.len();
    let mut labels = Labels::new();
    labels.add(Label::from_key_value("m", "v"));
    db.write_time_point(labels.duplicate(), TimePoint::new(1100, 7))
        .unwrap();
    // One record was assigned sequence id 1 and reached the synced bytes
    // under the write-through policy.
    assert_eq!(db.wal.next_seq, 2);
    assert!(db.wal.active_seg.synced.len() > synced0);
    // A whole batch makes one record.
    db.write_time_points(
        labels,
        vec![TimePoint::new(1200, 8), TimePoint::new(1300, 9)],
    )
    .unwrap();
    assert_eq!(db.wal.next_seq, 3);
}
