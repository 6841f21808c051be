use unclek::store::{Connection, Record, StoreError};

fn topic() -> String {
    "t".to_string()
}

fn summary(records: &[Record]) -> Vec<(u64, u32, u64, Option<Vec<u8>>, Option<Vec<u8>>)> {
    records
        .iter()
        .map(|r| (r.id, r.partition, r.timestamp, r.key.clone(), r.value.clone()))
        .collect()
}

#[test]
fn empty_topic_has_next_offset_zero() {
    let mut store = Connection::new();
    store.ensure_topic(&topic());
    assert_eq!(store.next_offset(&topic()), Ok(0));
    assert!(store.scan(&topic(), 0, 25).unwrap().is_empty());
}

#[test]
fn unknown_topic_fails_every_operation() {
    let mut store = Connection::new();
    assert_eq!(store.next_offset(&topic()), Err(StoreError::UnknownTopic));
    assert_eq!(store.scan(&topic(), 0, 25).err(), Some(StoreError::UnknownTopic));
    assert_eq!(
        store.append(&topic(), 0, None, None, false, 0),
        Err(StoreError::UnknownTopic)
    );
    assert_eq!(store.delete_expired(&topic(), 10, 100), Err(StoreError::UnknownTopic));
    store.ensure_topic(&"other".to_string());
    assert_eq!(store.next_offset(&topic()), Err(StoreError::UnknownTopic));
}

#[test]
fn append_assigns_the_next_offset() {
    let mut store = Connection::new();
    store.ensure_topic(&topic());
    for k in 0..5u8 {
        assert_eq!(store.next_offset(&topic()), Ok(k as i64));
        assert_eq!(store.append(&topic(), 2, Some(vec![k]), Some(vec![k, k]), false, 100), Ok(()));
    }
    let records = store.scan(&topic(), 0, 25).unwrap();
    assert_eq!(
        summary(&records),
        (0..5u8)
            .map(|k| (k as u64, 2, 100, Some(vec![k]), Some(vec![k, k])))
            .collect::<Vec<_>>()
    );
}

#[test]
fn ensure_topic_keeps_an_existing_log() {
    let mut store = Connection::new();
    store.ensure_topic(&topic());
    store.append(&topic(), 0, None, Some(vec![1]), false, 0).unwrap();
    store.ensure_topic(&topic());
    assert_eq!(store.next_offset(&topic()), Ok(1));
}

#[test]
fn topics_do_not_share_offsets() {
    let mut store = Connection::new();
    let a = "a".to_string();
    let b = "b".to_string();
    store.ensure_topic(&a);
    store.ensure_topic(&b);
    store.append(&a, 0, None, Some(vec![1]), false, 0).unwrap();
    store.append(&a, 0, None, Some(vec![2]), false, 0).unwrap();
    store.append(&b, 0, None, Some(vec![3]), false, 0).unwrap();
    assert_eq!(store.next_offset(&a), Ok(2));
    assert_eq!(store.next_offset(&b), Ok(1));
    assert_eq!(store.scan(&b, 0, 25).unwrap()[0].value, Some(vec![3]));
}

#[test]
fn scan_starts_at_the_offset_and_stops_at_the_limit() {
    let mut store = Connection::new();
    store.ensure_topic(&topic());
    for k in 0..30u8 {
        store.append(&topic(), 0, None, Some(vec![k]), false, 0).unwrap();
    }
    let ids = |r: Vec<Record>| r.iter().map(|r| r.id).collect::<Vec<_>>();
    assert_eq!(ids(store.scan(&topic(), 0, 25).unwrap()), (0..25).collect::<Vec<u64>>());
    assert_eq!(ids(store.scan(&topic(), 10, 25).unwrap()), (10..30).collect::<Vec<u64>>());
    assert_eq!(ids(store.scan(&topic(), 29, 25).unwrap()), vec![29]);
    assert!(store.scan(&topic(), 30, 25).unwrap().is_empty());
    assert!(store.scan(&topic(), 0, 0).unwrap().is_empty());
    assert_eq!(ids(store.scan(&topic(), 3, 2).unwrap()), vec![3, 4]);
}

#[test]
fn compacted_append_replaces_value_and_timestamp_in_place() {
    let mut store = Connection::new();
    store.ensure_topic(&topic());
    store.append(&topic(), 1, Some(vec![0xaa]), Some(vec![1]), true, 10).unwrap();
    store.append(&topic(), 1, Some(vec![0xbb]), Some(vec![5]), true, 11).unwrap();
    store.append(&topic(), 9, Some(vec![0xaa]), Some(vec![2]), true, 12).unwrap();
    let records = store.scan(&topic(), 0, 25).unwrap();
    assert_eq!(
        summary(&records),
        vec![
            (0, 1, 12, Some(vec![0xaa]), Some(vec![2])),
            (1, 1, 11, Some(vec![0xbb]), Some(vec![5])),
        ]
    );
    assert_eq!(store.next_offset(&topic()), Ok(2));
}

#[test]
fn compacted_append_without_key_always_adds() {
    let mut store = Connection::new();
    store.ensure_topic(&topic());
    store.append(&topic(), 0, None, Some(vec![1]), true, 0).unwrap();
    store.append(&topic(), 0, None, Some(vec![2]), true, 0).unwrap();
    assert_eq!(store.next_offset(&topic()), Ok(2));
}

#[test]
fn append_that_is_not_compacted_keeps_both_records_of_a_key() {
    let mut store = Connection::new();
    store.ensure_topic(&topic());
    store.append(&topic(), 0, Some(vec![1]), Some(vec![1]), false, 0).unwrap();
    store.append(&topic(), 0, Some(vec![1]), Some(vec![2]), false, 0).unwrap();
    assert_eq!(store.scan(&topic(), 0, 25).unwrap().len(), 2);
}

#[test]
fn empty_key_is_a_key() {
    let mut store = Connection::new();
    store.ensure_topic(&topic());
    store.append(&topic(), 0, Some(vec![]), Some(vec![1]), true, 0).unwrap();
    store.append(&topic(), 0, None, Some(vec![2]), true, 0).unwrap();
    store.append(&topic(), 0, Some(vec![]), Some(vec![3]), true, 0).unwrap();
    let records = store.scan(&topic(), 0, 25).unwrap();
    assert_eq!(
        summary(&records),
        vec![(0, 0, 0, Some(vec![]), Some(vec![3])), (1, 0, 0, None, Some(vec![2]))]
    );
}

#[test]
fn delete_expired_removes_records_older_than_the_retention() {
    let mut store = Connection::new();
    store.ensure_topic(&topic());
    for (k, ts) in [100u64, 200, 300, 400].iter().enumerate() {
        store.append(&topic(), 0, None, Some(vec![k as u8]), false, *ts).unwrap();
    }
    // at time 400 with a retention of 150 the records of 100 and 200 are too old
    assert_eq!(store.delete_expired(&topic(), 150, 400), Ok(()));
    let ids: Vec<u64> = store.scan(&topic(), 0, 25).unwrap().iter().map(|r| r.id).collect();
    assert_eq!(ids, vec![2, 3]);
    assert_eq!(store.next_offset(&topic()), Ok(4));
    // an age equal to the retention does not exceed it
    assert_eq!(store.delete_expired(&topic(), 100, 400), Ok(()));
    let ids: Vec<u64> = store.scan(&topic(), 0, 25).unwrap().iter().map(|r| r.id).collect();
    assert_eq!(ids, vec![2, 3]);
    // a record from the future is not expired
    assert_eq!(store.delete_expired(&topic(), 0, 350), Ok(()));
    let ids: Vec<u64> = store.scan(&topic(), 0, 25).unwrap().iter().map(|r| r.id).collect();
    assert_eq!(ids, vec![3]);
}

#[test]
fn next_offset_of_a_log_emptied_by_retention_is_zero() {
    let mut store = Connection::new();
    store.ensure_topic(&topic());
    store.append(&topic(), 0, None, Some(vec![1]), false, 0).unwrap();
    store.delete_expired(&topic(), 1, 100).unwrap();
    assert_eq!(store.next_offset(&topic()), Ok(0));
    store.append(&topic(), 0, None, Some(vec![2]), false, 100).unwrap();
    let records = store.scan(&topic(), 0, 25).unwrap();
    assert_eq!(records.len(), 1);
    assert_eq!(records[0].id, 0);
}

#[test]
fn produce_then_scan_at_the_offset_before_gives_the_record_back() {
    let mut store = Connection::new();
    store.ensure_topic(&topic());
    store.append(&topic(), 0, Some(vec![9]), Some(vec![9]), false, 0).unwrap();
    let before = store.next_offset(&topic()).unwrap();
    store.append(&topic(), 4, Some(vec![0x6b]), Some(vec![0x76]), false, 7).unwrap();
    let found = store.scan(&topic(), before as u64, 25).unwrap();
    assert_eq!(summary(&found), vec![(before as u64, 4, 7, Some(vec![0x6b]), Some(vec![0x76]))]);
}
