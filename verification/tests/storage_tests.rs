use monolith::backend::TiKvRawBackend;
use monolith::sled_storage::{KvStorageProcessor, SledStorage};
use monolith::storage::{Encoder, Storage};
use monolith::test_utils::DummyTiKvBackend;
use monolith::tikv_storage::TiKvStorage;
use monolith::{Timestamp, Value};
use tempfile::TempDir;

#[test]
fn test_set_time_point() {
    let temp_dir = TempDir::new().unwrap();
    let mut sled_storage = SledStorage::new(temp_dir.path().to_str().unwrap()).unwrap();
    sled_storage
        .write_time_point(1, 123 as u64, 160.2f64.to_bits())
        .unwrap();

    let db = sled_storage.get_storage();
    match db.get("TS1").unwrap() {
        Some(val) => {
            let val_vec = AsRef::<[u8]>::as_ref(&val).to_vec();
            assert_eq!(
                val_vec.len(),
                std::mem::size_of::<Timestamp>() + std::mem::size_of::<Value>()
            );
        }
        None => assert_eq!(1, 0), //fail
    }
}

#[test]
fn test_get_time_series() {
    let temp_dir = TempDir::new().unwrap();
    let mut storage = SledStorage::new(temp_dir.path().to_str().unwrap()).unwrap();

    let series: Vec<Vec<(u64, f64)>> = vec![
        vec![(10, 15.5), (110, 16.25), (210, 17.0)],
        vec![(10, 99.5), (110, 98.0)],
    ];
    for (idx, points) in series.iter().enumerate() {
        for (ts, v) in points {
            storage
                .write_time_point(idx as u64, *ts, v.to_bits())
                .unwrap();
        }
    }

    for (idx, points) in series.iter().enumerate() {
        let res_series = storage.read_time_series(idx as u64, 0, 1000000).unwrap();
        assert_eq!(res_series.len(), points.len());
        for (i, (ts, v)) in points.iter().enumerate() {
            assert_eq!(res_series[i].timestamp, *ts);
            assert_eq!(res_series[i].value, v.to_bits());
        }
    }
}

#[test]
fn test_write_timestamp() {
    let mut storage = TiKvStorage {
        client: DummyTiKvBackend::new(),
        chunk_identifier: "whatever".to_string().into_bytes(),
        storage_identifier: "storage".to_string().into_bytes(),
    };

    // insert first time point
    storage.write_time_point(1u64, 123u64, 56.7f64.to_bits()).unwrap();
    let mut key = storage.storage_identifier.clone();
    let mut time_series_bytes: Vec<u8> = Vec::from(&1u64.to_be_bytes()[..]);
    key.append(&mut time_series_bytes);
    let mut val = storage.client.get(key.clone()).unwrap();
    assert!(val.is_some());
    assert_eq!(
        val.unwrap(),
        KvStorageProcessor::encode_time_point(123u64, 56.7f64.to_bits()).unwrap()
    );

    // insert second time point
    storage.write_time_point(1u64, 124u64, 66.6f64.to_bits()).unwrap();
    val = storage.client.get(key.clone()).unwrap();
    assert!(val.is_some());
    let mut first_entry = KvStorageProcessor::encode_time_point(123u64, 56.7f64.to_bits()).unwrap();
    let mut second_entry =
        KvStorageProcessor::encode_time_point(124u64, 66.6f64.to_bits()).unwrap();
    first_entry.append(&mut second_entry);
    assert_eq!(val.unwrap(), first_entry);

    // insert invalid time point, whose timestamp is not above the previous one.
    let res = storage.write_time_point(1u64, 120u64, 120.0f64.to_bits());
    assert!(res.is_err());
}

#[test]
fn test_read_time_series() {
    let mut backend = DummyTiKvBackend::new();
    let storage_identifier = "storage".to_string().into_bytes();

    let mut key = storage_identifier.clone();
    let mut time_series_bytes: Vec<u8> = Vec::from(&1u64.to_be_bytes()[..]);
    key.append(&mut time_series_bytes);

    let mut val = vec![];
    for (ts, v) in vec![(120u64, 12.0f64), (123, 16.7), (156, 89.0), (190, 10.0)] {
        val.append(&mut Vec::from(
            KvStorageProcessor::encode_time_point(ts, v.to_bits()).unwrap(),
        ));
    }
    backend.set(key.clone(), val.clone()).unwrap();

    let storage = TiKvStorage {
        client: backend,
        chunk_identifier: "whatever".to_string().into_bytes(),
        storage_identifier,
    };

    let res = storage.read_time_series(1, 120, 160).unwrap();
    let res_flat = res
        .iter()
        .map(|tp| (tp.timestamp, f64::from_bits(tp.value)))
        .collect::<Vec<(u64, f64)>>();
    assert_eq!(res_flat, vec![(120u64, 12.0), (123, 16.7), (156, 89.0)]);
}

#[test]
fn store_rejects_non_monotonic_timestamps() {
    // A write at a timestamp at or below the last stored one fails.
    let temp_dir = TempDir::new().unwrap();
    let mut storage = SledStorage::new(temp_dir.path().to_str().unwrap()).unwrap();
    storage.write_time_point(9, 1000, 1.0f64.to_bits()).unwrap();
    assert!(storage.write_time_point(9, 1000, 2.0f64.to_bits()).is_err());
    assert!(storage.write_time_point(9, 999, 2.0f64.to_bits()).is_err());
    storage.write_time_point(9, 1001, 2.0f64.to_bits()).unwrap();
}

#[test]
fn read_range_trims_inclusively() {
    // A stored series is trimmed to exactly the points inside the window.
    let temp_dir = TempDir::new().unwrap();
    let mut storage = SledStorage::new(temp_dir.path().to_str().unwrap()).unwrap();
    for ts in [100u64, 200, 300, 400, 500] {
        storage.write_time_point(4, ts, (ts as f64).to_bits()).unwrap();
    }
    let res = storage.read_time_series(4, 200, 400).unwrap();
    let got: Vec<u64> = res.iter().map(|tp| tp.timestamp).collect();
    assert_eq!(got, vec![200, 300, 400]);

    // An unknown id answers a not-found error.
    assert!(matches!(
        storage.read_time_series(77, 0, 1000),
        Err(monolith::error::MonolithErr::NotFoundErr)
    ));

    // A window that misses the stored series reports its actual bounds.
    assert!(matches!(
        storage.read_time_series(4, 600, 700),
        Err(monolith::error::MonolithErr::OutOfRangeErr(100, 500))
    ));
}

#[test]
fn init_component_assigns_both_halves() {
    let mut backend = DummyTiKvBackend::new();
    let chunk_id = "chunk-00000000-1".to_string().into_bytes();
    let indexer_id =
        monolith::backend::init_component(&mut backend, chunk_id.clone(), true).unwrap();
    assert_eq!(indexer_id.len(), 16);
    let storage_id =
        monolith::backend::init_component(&mut backend, chunk_id.clone(), false).unwrap();
    assert_eq!(storage_id.len(), 16);
    let record = backend.get(chunk_id).unwrap().unwrap();
    assert_eq!(record.len(), 32);
    assert_eq!(&record[..16], indexer_id.as_slice());
    assert_eq!(&record[16..], storage_id.as_slice());
}
