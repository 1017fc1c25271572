use monolith::label::{Label, Labels};
use monolith::metadata::{check_metadata_compatible, DbMetadata};
use monolith::ops::OrderIntersect;
use monolith::option::check_port;
use monolith::time_series::{IdGenerator, TimeSeries, TimeSeriesId};
use monolith::utils::{decode_chunk_dir, encode_chunk_dir, get_current_timestamp};

#[test]
fn label_get_hash() {
    let mut labels = Labels::new();
    labels.add(Label::from_key_value("test", "test"));
    println!("{}", labels.get_hash())
}

#[test]
fn common_get_hash() {
    let mut labels = Labels::new();
    labels.add(Label::from("test", "test"));
    println!("{}", labels.get_hash())
}

#[test]
fn hash_is_stable_over_equal_labels() {
    let mut a = Labels::new();
    a.add(Label::from_key_value("host", "a"));
    a.add(Label::from_key_value("job", "node"));
    let mut b = Labels::new();
    b.add(Label::from_key_value("host", "a"));
    b.add(Label::from_key_value("job", "node"));
    assert_eq!(a.get_hash(), b.get_hash());
    let mut c = Labels::new();
    c.add(Label::from_key_value("host", "b"));
    c.add(Label::from_key_value("job", "node"));
    assert_ne!(a.get_hash(), c.get_hash());
}

#[test]
fn sort_label() {
    let mut labels = Labels::new();
    labels.add(Label::from_key_value("test4", "test"));
    labels.add(Label::from_key_value("test1", "test3"));
    labels.add(Label::from_key_value("test2", "test4"));

    labels.sort();

    assert_eq!(labels.vec()[0].key().as_str(), "test1")
}

#[test]
fn mod_generate_id() {
    let mut id_generator = IdGenerator::new(2);
    assert_eq!(id_generator.next(), 2);
    assert_eq!(id_generator.next(), 3)
}

#[test]
fn common_generate_id() {
    let mut id_generator = IdGenerator::new(2);
    assert_eq!(id_generator.next(), 2);
    assert_eq!(id_generator.next(), 3)
}

#[test]
fn time_series_generate_id() {
    let mut id_generator = IdGenerator::new(2);
    assert_eq!(id_generator.next(), 2);
    assert_eq!(id_generator.next(), 3)
}

#[test]
fn order_intersect() {
    let vec1: Vec<TimeSeriesId> = vec![1, 2, 3, 4, 5];
    let vec2: Vec<TimeSeriesId> = vec![1, 2, 3, 4, 5, 6, 7];
    let res = vec1.order_intersect(&vec2);
    for i in 1..5 {
        assert_eq!(i as u64, res[i - 1])
    }
}

#[test]
fn test_intersect_time_series_id_vec() {
    for len in [2usize, 3, 4, 60, 71] {
        let mut input: Vec<Vec<TimeSeriesId>> = Vec::new();
        for i in 0..len {
            let v: Vec<TimeSeriesId> = (1u64..100 - i as u64).collect();
            input.push(v);
        }
        let expect: Vec<u64> = (1u64..100 - (len - 1) as u64).collect();
        let res = monolith::utils::intersect_time_series_id_vec(input).unwrap();
        assert_eq!(res, expect);
    }
}

#[test]
fn time_series_crate_time_series() {
    let _time_series = TimeSeries::new(12, Labels::new());
}

#[test]
fn common_crate_time_series() {
    let _time_series = TimeSeries::new(12, Labels::new());
}

#[test]
fn common_create_timepoint() {
    let timepoint = monolith::time_point::TimePoint::new(120, 12.0f64.to_bits());
    assert_eq!(timepoint.timestamp, 120);
    assert_eq!(timepoint.value, 12.0f64.to_bits());
}

#[test]
fn time_point_create_timepoint() {
    let timepoint = monolith::time_point::TimePoint::new(120, 12.0f64.to_bits());
    assert_eq!(timepoint.timestamp, 120);
    assert_eq!(timepoint.value, 12.0f64.to_bits());
}

#[test]
fn test_encode_chunk_dir() {
    let start_time = 1671234234u64;
    let end_time = 14423141234u64;

    let res = encode_chunk_dir(start_time, end_time);
    assert_eq!(res, "00000000639d02ba000000035bafab72");
}

#[test]
fn test_decode_chunk_dir() {
    // Both the zero-padded form and the older unpadded one decode.
    for dir_name in ["00000000639d02ba000000035bafab72", "639d02ba000000035bafab72"] {
        let (start_time, end_time) = decode_chunk_dir(String::from(dir_name)).unwrap();
        assert_eq!(start_time, 1671234234u64);
        assert_eq!(end_time, 14423141234u64);
    }
}

#[test]
fn chunk_dir_round_trip() {
    let encoded = encode_chunk_dir(7, u64::MAX);
    let (s, e) = decode_chunk_dir(encoded).unwrap();
    assert_eq!(s, 7);
    assert_eq!(e, u64::MAX);
}

#[test]
fn decode_chunk_dir_rejects_bad_names() {
    assert!(matches!(
        decode_chunk_dir(String::from("")),
        Err(monolith::error::MonolithErr::ParseErr)
    ));
    assert!(matches!(
        decode_chunk_dir(String::from("not hex!")),
        Err(monolith::error::MonolithErr::ParseErr)
    ));
    // 33 hex digits denote a number too large for 128 bits.
    assert!(matches!(
        decode_chunk_dir(String::from("f00000000000000000000000000000000")),
        Err(monolith::error::MonolithErr::ParseErr)
    ));
}

#[test]
fn test_get_current_timestamp() {
    let current_timestamp = get_current_timestamp();
    if !(current_timestamp > 0) {
        assert_eq!(1, 0);
    }
}

#[test]
fn metadata_compatibility_is_exact() {
    let on_disk = DbMetadata {
        indexer_type: String::from("SledIndexer"),
        storage_type: String::from("SledStorage"),
    };
    let same = DbMetadata {
        indexer_type: String::from("SledIndexer"),
        storage_type: String::from("SledStorage"),
    };
    let other = DbMetadata {
        indexer_type: String::from("TiKvIndexer"),
        storage_type: String::from("TiKvStorage"),
    };
    assert!(check_metadata_compatible(&on_disk, &same).is_ok());
    assert!(matches!(
        check_metadata_compatible(&on_disk, &other),
        Err(monolith::error::MonolithErr::OptionErr)
    ));
}

#[test]
fn port_bounds() {
    assert!(check_port(9001).is_ok());
    assert!(check_port(1024).is_ok());
    assert!(check_port(65535).is_ok());
    assert!(matches!(
        check_port(80),
        Err(monolith::error::MonolithErr::OptionErr)
    ));
    assert!(check_port(65536).is_err());
}

#[test]
fn sort_keeps_equal_keys_in_order() {
    let mut labels = Labels::new();
    labels.add(Label::from_key_value("b", "first"));
    labels.add(Label::from_key_value("a", "only"));
    labels.add(Label::from_key_value("b", "second"));

    labels.sort();

    assert_eq!(labels.vec()[0].key().as_str(), "a");
    assert_eq!(labels.vec()[1].key().as_str(), "b");
    assert_eq!(labels.vec()[1].value().as_str(), "first");
    assert_eq!(labels.vec()[2].key().as_str(), "b");
    assert_eq!(labels.vec()[2].value().as_str(), "second");
}
