use monolith::backend::TiKvRawBackend;
use monolith::indexer::Indexer;
use monolith::label::{Label, Labels};
use monolith::sled_indexer::{KvIndexerProcessor, SledIndexer};
use monolith::test_utils::DummyTiKvBackend;
use monolith::tikv_indexer::TiKvIndexer;
use tempfile::TempDir;

fn get_data(id: i32) -> Labels {
    if id == 0 {
        Labels::from_vec(
            vec![("key1", "value1"), ("key2", "value2"), ("key3", "value3")]
                .into_iter()
                .map(|(key, value)| Label::from_key_value(key, value))
                .collect(),
        )
    } else {
        Labels::from_vec(
            vec![("key1", "value1"), ("key2", "value1"), ("key3", "value3")]
                .into_iter()
                .map(|(key, value)| Label::from_key_value(key, value))
                .collect(),
        )
    }
}

fn dummy_indexer() -> TiKvIndexer<DummyTiKvBackend> {
    TiKvIndexer {
        client: DummyTiKvBackend::new(),
        chunk_identifier: "whatever".to_string().into_bytes(),
        indexer_identifier: "indexer".to_string().into_bytes(),
    }
}

#[test]
fn test_encode_label() {
    let mut labels = Labels::new();
    labels.add(Label::from_key_value("test1", "test1value"));
    labels.add(Label::from_key_value("test3", "test1value"));
    labels.add(Label::from_key_value("test2", "test1value"));
    let res = KvIndexerProcessor::encode_labels(&labels, true);
    assert_eq!(res, "Ltest1=test1value,test2=test1value,test3=test1value");
}

#[test]
fn test_decode_labels() {
    let labels_str = "Lkey1=value1,key2=value2";
    let labels = KvIndexerProcessor::decode_labels(labels_str.to_string(), true).unwrap();
    assert_eq!(2, labels.len());
    assert_eq!("key1", labels.vec()[0].key().as_str());
    assert_eq!("key2", labels.vec()[1].key().as_str());
    assert_eq!("value1", labels.vec()[0].value().as_str());
    assert_eq!("value2", labels.vec()[1].value().as_str());
}

#[test]
fn decode_labels_rejects_missing_equals() {
    assert!(KvIndexerProcessor::decode_labels("Lkey1value1".to_string(), true).is_err());
    assert!(KvIndexerProcessor::decode_labels("".to_string(), true).is_err());
}

#[test]
fn encode_time_series_id_round_trip() {
    let key = KvIndexerProcessor::encode_time_series_id(1234567);
    assert_eq!(key, "I1234567");
    assert_eq!(
        KvIndexerProcessor::decode_time_series_id(key).unwrap(),
        1234567
    );
}

#[test]
fn sled_indexer_test_create_index() {
    let temp_dir = TempDir::new().unwrap();
    let mut indexer = SledIndexer::new(temp_dir.path().to_str().unwrap()).unwrap();
    let mut labels = Labels::new();
    labels.add(Label::from_key_value("test1", "test1value"));
    labels.add(Label::from_key_value("test2", "test1value"));
    labels.add(Label::from_key_value("test3", "test1value"));
    indexer.create_index(labels, 1).unwrap();

    let label1 = indexer.storage.get("LRtest1=test1value").unwrap().unwrap();
    let label2 = indexer.storage.get("LRtest2=test1value").unwrap().unwrap();
    let val_str_1 = String::from_utf8(AsRef::<[u8]>::as_ref(&label1).to_vec()).unwrap();
    let val_str_2 = String::from_utf8(AsRef::<[u8]>::as_ref(&label2).to_vec()).unwrap();
    assert_eq!(val_str_1, val_str_2);

    let mut another_labels = Labels::new();
    another_labels.add(Label::from_key_value("test1", "test1value"));
    indexer.create_index(another_labels, 2).unwrap();
    let another_label1 = indexer.storage.get("LRtest1=test1value").unwrap().unwrap();
    let another_val_str_1 =
        String::from_utf8(AsRef::<[u8]>::as_ref(&another_label1).to_vec()).unwrap();
    assert_eq!("1,2", another_val_str_1);

    let mut key = "I1".to_string();
    let val = indexer.get(&key).unwrap().unwrap();
    assert_eq!("test1=test1value,test2=test1value,test3=test1value", val);

    key = "Ltest1=test1value,test2=test1value,test3=test1value".to_string();
    let val = indexer.get(&key).unwrap().unwrap();
    assert_eq!("1", val);
}

#[test]
fn test_sled_indexer_test_create_index() {
    let temp_dir = TempDir::new().unwrap();
    let mut indexer = SledIndexer::new(temp_dir.path().to_str().unwrap()).unwrap();
    let mut labels = Labels::new();
    labels.add(Label::from("test1", "test1value"));
    labels.add(Label::from("test2", "test1value"));
    labels.add(Label::from("test3", "test1value"));
    indexer.create_index(labels.clone(), 1).unwrap();

    let res = indexer.get_series_id_by_labels(labels).unwrap().unwrap();
    assert_eq!(res, 1);
}

#[test]
fn tikv_indexer_test_create_index() {
    let mut indexer = dummy_indexer();

    let labels = get_data(0);
    let time_series_id = 1u64;
    indexer
        .create_index(labels.duplicate(), time_series_id)
        .unwrap();

    // Rows are stored under the indexer identifier; ids are stored in
    // their decimal text form.
    let mut indexer_id = indexer.indexer_identifier.to_vec();
    let mut key1 = KvIndexerProcessor::encode_time_series_id(time_series_id).into_bytes();
    indexer_id.append(key1.as_mut());
    let result1 = indexer.client.get(indexer_id).unwrap();
    assert!(result1.is_some());
    assert_eq!(
        KvIndexerProcessor::encode_labels(&labels, false).into_bytes(),
        result1.unwrap()
    );

    indexer_id = indexer.indexer_identifier.to_vec();
    let mut key2 = KvIndexerProcessor::encode_labels(&labels, true).into_bytes();
    indexer_id.append(key2.as_mut());
    let result2 = indexer.client.get(indexer_id).unwrap();
    assert!(result2.is_some());
    assert_eq!("1".to_string().into_bytes(), result2.unwrap());

    indexer_id = indexer.indexer_identifier.to_vec();
    for label in labels.vec() {
        let mut key = indexer_id.clone();
        key.append(KvIndexerProcessor::encode_label(label).into_bytes().as_mut());
        let result = indexer.client.get(key).unwrap();
        assert!(result.is_some());
        assert_eq!("1".to_string().into_bytes(), result.unwrap());
    }
}

#[test]
fn tikv_indexer_test_get_series_id_by_labels() {
    let mut indexer = dummy_indexer();
    let labels = get_data(0);
    let time_series_id = 1u64;
    indexer
        .create_index(labels.duplicate(), time_series_id)
        .unwrap();

    let res = indexer.get_series_id_by_labels(labels).unwrap();
    assert!(res.is_some());
    assert_eq!(res.unwrap(), 1);
}

#[test]
fn test_get_series_id_contains_labels() {
    let mut indexer = dummy_indexer();
    let labels_1 = get_data(0);
    let labels_2 = get_data(1);
    indexer.create_index(labels_1, 1u64).unwrap();
    indexer.create_index(labels_2, 2u64).unwrap();

    let label1 = Label::from_key_value("key1", "value1");
    let label2 = Label::from_key_value("key2", "value2");
    let res1 = indexer
        .get_series_id_contains_labels(Labels::from_vec(vec![label1]))
        .unwrap();
    assert_eq!(res1.len(), 2);
    assert!(res1.iter().position(|x| *x == 1).is_some());
    assert!(res1.iter().position(|x| *x == 2).is_some());

    let res2 = indexer
        .get_series_id_contains_labels(Labels::from_vec(vec![label2]))
        .unwrap();
    assert_eq!(res2.len(), 1);
    assert_eq!(res2, vec![1]);
}

#[test]
fn test_get_series_metadata_contains_labels() {
    let mut indexer = dummy_indexer();
    let labels_1 = get_data(0);
    let labels_2 = get_data(1);
    indexer.create_index(labels_1, 1u64).unwrap();
    indexer.create_index(labels_2, 2u64).unwrap();

    let label1 = Label::from_key_value("key1", "value1");
    let label2 = Label::from_key_value("key2", "value2");

    let res1 = indexer
        .get_series_metadata_contains_labels(Labels::from_vec(vec![label1]))
        .unwrap();
    assert_eq!(res1.len(), 2);
    assert!(res1.iter().position(|(id, _labels)| *id == 1).is_some());
    assert!(res1.iter().position(|(id, _labels)| *id == 2).is_some());

    let res2 = indexer
        .get_series_metadata_contains_labels(Labels::from_vec(vec![label2]))
        .unwrap();
    assert_eq!(res2.len(), 1);
    assert_eq!(res2[0].0, 1);
}

#[test]
fn index_then_look_up_unsorted() {
    // Index labels {a=1, b=2} as id 7; an exact lookup with the labels in
    // the other order still answers after the internal sort, and the
    // single-label query answers the posting list.
    let mut indexer = dummy_indexer();
    let mut labels = Labels::new();
    labels.add(Label::from_key_value("a", "1"));
    labels.add(Label::from_key_value("b", "2"));
    indexer.create_index(labels, 7).unwrap();

    let mut reversed = Labels::new();
    reversed.add(Label::from_key_value("b", "2"));
    reversed.add(Label::from_key_value("a", "1"));
    assert_eq!(
        indexer.get_series_id_by_labels(reversed).unwrap(),
        Some(7)
    );

    let mut single = Labels::new();
    single.add(Label::from_key_value("a", "1"));
    assert_eq!(
        indexer.get_series_id_contains_labels(single).unwrap(),
        vec![7]
    );
}

#[test]
fn duplicate_registration_fails() {
    let mut indexer = dummy_indexer();
    let labels = get_data(0);
    indexer.create_index(labels.duplicate(), 1).unwrap();
    let again = indexer.create_index(labels, 2);
    assert!(matches!(
        again,
        Err(monolith::error::MonolithErr::InternalErr(_))
    ));
}

#[test]
fn empty_labels_match_nothing() {
    let mut indexer = dummy_indexer();
    indexer.create_index(get_data(0), 1).unwrap();
    let res = indexer
        .get_series_id_contains_labels(Labels::new())
        .unwrap();
    assert!(res.is_empty());
}
