use versioned_kv::interface::StorageError;
use versioned_kv::keys::{with_timestamp, Key};
use versioned_kv::sled_storage::Storage;

#[test]
fn test_put_nonexisting_true() {
    let mut s = Storage::new("/tmp/test_database1.db");

    // Input: Non-Existing Key, autoincrement=true

    // Preparation
    let key1 = Key([
        1, 2, 3, 4, 5, 6, 7, 8, 9, 1, 2, 3, 4, 5, 6, 7, 8, 9, 1, 2, 3, 4, 5, 6, 7, 8,
    ]);
    let value1 = vec![9, 8, 7];

    // Call
    let result = s.put(key1, value1, false);

    // Assertion
    assert_eq!(result.unwrap(), None);
}

#[test]
fn test_put_existing_true() {
    let mut s = Storage::new("/tmp/test_database2.db");

    // Input: Existing Key, autoincrement=true

    // Preparation
    let key1 = Key([
        1, 2, 3, 4, 5, 6, 7, 8, 9, 1, 2, 3, 4, 5, 6, 7, 8, 9, 1, 2, 3, 4, 5, 6, 7, 8,
    ]);
    let value1 = vec![9, 8, 7];
    let value2 = vec![5, 6, 7];
    let _ = s.put(key1, value1.clone(), false);

    // Call
    let result = s.put(key1, value2.clone(), true);

    // Assertion
    assert_eq!(result.unwrap().unwrap(), value1);
}

#[test]
fn test_put_nonexisting_false() {
    let mut s = Storage::new("/tmp/test_database3.db");

    // Input: Non-Existing Key, autoincrement=false

    // Preparation
    let key1 = Key([
        1, 2, 3, 4, 5, 6, 7, 8, 9, 1, 2, 3, 4, 5, 6, 7, 8, 9, 1, 2, 3, 4, 5, 6, 7, 8,
    ]);
    let value1 = vec![9, 8, 7];

    // Call
    let result = s.put(key1, value1.clone(), false);

    // Assertion
    assert_eq!(result.unwrap(), None);
}

#[test]
fn test_put_existing_false() {
    let mut s = Storage::new("/tmp/test_database4.db");

    // Input: Existing Key, autoincrement=false

    // Preparation
    let key1 = Key([
        1, 2, 3, 4, 5, 6, 7, 8, 9, 1, 2, 3, 4, 5, 6, 7, 8, 9, 1, 2, 3, 4, 5, 6, 7, 8,
    ]);
    let value1 = vec![9, 8, 7];
    let value2 = vec![5, 6, 7];
    let _ = s.put(key1, value1.clone(), false);

    // Call
    let result = s.put(key1, value2.clone(), false);

    // Assertion
    assert_eq!(result.unwrap(), None);
}

#[test]
fn test_get_key_exist() {
    let mut s = Storage::new("/tmp/test_database5.db");

    // Input: Existing Key

    // Preparation: create the version at a chosen timestamp, so that the
    // exact versioned key is known, and fetch that key.
    let key = Key([
        1, 2, 3, 4, 5, 6, 7, 8, 9, 1, 2, 3, 4, 5, 6, 7, 8, 9, 1, 2, 3, 4, 5, 6, 7, 8,
    ]);
    let value = vec![9, 8, 7];
    let _ = s.put_at(key, value.clone(), false, 77);
    let versioned = with_timestamp(&key, 77);

    // Call
    let result = s.get(versioned);

    // Assertion
    assert_eq!(result.unwrap(), value);
}

#[test]
fn test_get_key_nonexistant() {
    let s = Storage::new("/tmp/test_database6.db");

    // Input: Non-Existing Key

    // Preparation
    let some_non_existant_key = Key([
        1, 2, 3, 4, 5, 6, 7, 8, 9, 1, 2, 3, 4, 5, 6, 7, 8, 9, 1, 2, 3, 4, 5, 6, 7, 8,
    ]);

    // Call
    let result = s.get(some_non_existant_key);

    // Assertion
    assert_eq!(result.is_err(), true);
}

fn sample_key() -> Key {
    Key([
        2, 0, 0, 0, 0, 0, 0, 0, 41, 7, 0, 0, 0, 0, 0, 0, 0, 3, 0, 0, 0, 0, 0, 0, 0, 0,
    ])
}

#[test]
fn first_put_then_latest() {
    let mut s = Storage::new("/tmp/test_database7.db");
    let k = sample_key();
    let v = vec![4, 5, 6];
    assert_eq!(s.put(k, v.clone(), false).unwrap(), None);
    assert_eq!(s.get_latest(k).unwrap(), v);
}

#[test]
fn rejected_put_keeps_old_version() {
    let mut s = Storage::new("/tmp/test_database8.db");
    let k = sample_key();
    let v1 = vec![1];
    let v2 = vec![2];
    assert_eq!(s.put(k, v1.clone(), false).unwrap(), None);
    assert_eq!(s.put(k, v2, false).unwrap(), None);
    assert_eq!(s.get_latest(k).unwrap(), v1);
}

#[test]
fn autoincrement_supersedes_and_returns_previous() {
    let mut s = Storage::new("/tmp/test_database9.db");
    let k = sample_key();
    let v1 = vec![1, 1];
    let v2 = vec![2, 2];
    assert_eq!(s.put(k, v1.clone(), false).unwrap(), None);
    assert_eq!(s.put(k, v2.clone(), true).unwrap(), Some(v1));
    assert_eq!(s.get_latest(k).unwrap(), v2);
}

#[test]
fn sequential_autoincrements_keep_the_newest() {
    let mut s = Storage::new("/tmp/test_database10.db");
    let k = sample_key();
    assert_eq!(s.put(k, vec![0], false).unwrap(), None);
    assert_eq!(s.put(k, vec![1], true).unwrap(), Some(vec![0]));
    assert_eq!(s.put(k, vec![2], true).unwrap(), Some(vec![1]));
    assert_eq!(s.put(k, vec![3], true).unwrap(), Some(vec![2]));
    assert_eq!(s.put(k, vec![4], true).unwrap(), Some(vec![3]));
    assert_eq!(s.get_latest(k).unwrap(), vec![4]);
}

#[test]
fn scenario_put_get_latest_chain() {
    let mut s = Storage::new("/tmp/test_database11.db");
    let k = sample_key();
    assert_eq!(s.put(k, vec![9, 8, 7], false).unwrap(), None);
    assert_eq!(s.get_latest(k).unwrap(), vec![9, 8, 7]);
    assert_eq!(s.put(k, vec![1, 1, 1], true).unwrap(), Some(vec![9, 8, 7]));
    assert_eq!(s.put(k, vec![2, 2, 2], true).unwrap(), Some(vec![1, 1, 1]));
    assert_eq!(s.get_latest(k).unwrap(), vec![2, 2, 2]);
}

#[test]
fn get_missing_key_reports_logical_range() {
    let s = Storage::new("/tmp/test_database12.db");
    let k = sample_key();
    let err = s.get(k).unwrap_err();
    match err {
        StorageError::KeyNotFound { key, start_key, end_key } => {
            assert_eq!(key, k);
            let mut expected_start = k.0;
            let mut expected_end = k.0;
            for i in 18..26 {
                expected_start[i] = 0;
                expected_end[i] = 0xff;
            }
            assert_eq!(start_key.0, expected_start);
            assert_eq!(end_key.0, expected_end);
        }
        other => panic!("expected KeyNotFound, got {:?}", other),
    }
}

#[test]
fn get_latest_without_versions_fails() {
    let s = Storage::new("/tmp/test_database13.db");
    let k = sample_key();
    let err = s.get_latest(k).unwrap_err();
    assert!(matches!(err, StorageError::KeyNotFound { .. }));
}

#[test]
fn colliding_timestamp_is_detected() {
    let mut s = Storage::new("/tmp/test_database14.db");
    let k = sample_key();
    assert_eq!(s.put_at(k, vec![1], false, 100).unwrap(), None);
    let err = s.put_at(k, vec![2], true, 100).unwrap_err();
    assert!(matches!(err, StorageError::TimestampCollision));
    assert_eq!(s.get_latest(k).unwrap(), vec![1]);
}

#[test]
fn put_at_orders_versions_by_timestamp() {
    let mut s = Storage::new("/tmp/test_database15.db");
    let k = sample_key();
    assert_eq!(s.put_at(k, vec![1], false, 10).unwrap(), None);
    assert_eq!(s.put_at(k, vec![2], true, 20).unwrap(), Some(vec![1]));
    assert_eq!(s.put_at(k, vec![3], true, 30).unwrap(), Some(vec![2]));
    assert_eq!(s.get_latest(k).unwrap(), vec![3]);
    // each version stays readable under its own key
    assert_eq!(s.get(with_timestamp(&k, 10)).unwrap(), vec![1]);
    assert_eq!(s.get(with_timestamp(&k, 20)).unwrap(), vec![2]);
    assert_eq!(s.get(with_timestamp(&k, 30)).unwrap(), vec![3]);
}

#[test]
fn distinct_logical_keys_do_not_interfere() {
    let mut s = Storage::new("/tmp/test_database16.db");
    let ka = sample_key();
    let mut kb = sample_key();
    kb.0[17] = 99;
    assert_eq!(s.put(ka, vec![1], false).unwrap(), None);
    assert_eq!(s.put(kb, vec![2], false).unwrap(), None);
    assert_eq!(s.get_latest(ka).unwrap(), vec![1]);
    assert_eq!(s.get_latest(kb).unwrap(), vec![2]);
}
