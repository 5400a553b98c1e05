use std::num::NonZeroUsize;
use tiny_kv::error::StorageError;
use tiny_kv::memory_storage::MemoryStorage;

#[test]
fn memory_storage_test_put() {
    let column_family = "c";
    let mut storage = MemoryStorage::default();
    assert_eq!(storage.put(column_family, "k", "v"), Ok(()));
}

#[test]
fn memory_storage_test_get() {
    let column_family = "c";
    let mut storage = MemoryStorage::default();
    storage.put(column_family, "k", "v").unwrap();

    assert_eq!(storage.get(column_family, "k"), Ok(String::from("v")));
    assert!(matches!(
        storage.get(column_family, "a"),
        Err(StorageError::KeyNotFound)
    ));
}

#[test]
fn memory_storage_test_delete() {
    let column_family = "c";
    let mut storage = MemoryStorage::default();
    storage.put(column_family, "k", "v").unwrap();

    assert_eq!(storage.delete(column_family, "k"), Ok(String::from("v")));
    assert!(matches!(
        storage.delete(column_family, "k"),
        Err(StorageError::KeyNotFound)
    ));
}

#[test]
fn memory_storage_test_scan() {
    let column_family = "c";
    let mut storage = MemoryStorage::default();
    storage.put(column_family, "0", "000").unwrap();
    storage.put(column_family, "1", "111").unwrap();
    storage.put(column_family, "2", "222").unwrap();
    storage.put(column_family, "3", "333").unwrap();
    storage.put(column_family, "4", "444").unwrap();
    storage.put(column_family, "5", "555").unwrap();

    let limit = NonZeroUsize::new(2).unwrap();
    let values = storage.scan(column_family, "2", limit.get()).unwrap();
    assert_eq!(
        values,
        vec![("2".into(), "222".into()), ("3".into(), "333".into())]
    );

    let limit = NonZeroUsize::new(10).unwrap();
    let values = storage.scan(column_family, "2", limit.get()).unwrap();
    assert_eq!(
        values,
        vec![
            ("2".into(), "222".into()),
            ("3".into(), "333".into()),
            ("4".into(), "444".into()),
            ("5".into(), "555".into())
        ]
    );
}

#[test]
fn put_then_get_round_trips() {
    let mut storage = MemoryStorage::new();
    storage.put("fam", "key", "value").unwrap();
    assert_eq!(storage.get("fam", "key"), Ok(String::from("value")));
}

#[test]
fn empty_key_and_value_are_legal() {
    let mut storage = MemoryStorage::new();
    storage.put("", "", "").unwrap();
    assert_eq!(storage.get("", ""), Ok(String::new()));
    assert_eq!(storage.scan("", "", 5), Ok(vec![(String::new(), String::new())]));
}

#[test]
fn second_put_overwrites_first() {
    let mut storage = MemoryStorage::new();
    storage.put("f", "k", "v1").unwrap();
    storage.put("f", "k", "v2").unwrap();
    assert_eq!(storage.get("f", "k"), Ok(String::from("v2")));
    assert_eq!(storage.scan("f", "", 10), Ok(vec![("k".into(), "v2".into())]));
}

#[test]
fn delete_then_get_fails_with_key_not_found() {
    let mut storage = MemoryStorage::new();
    storage.put("f", "k", "v").unwrap();
    assert_eq!(storage.delete("f", "k"), Ok(String::from("v")));
    assert_eq!(storage.get("f", "k"), Err(StorageError::KeyNotFound));
}

#[test]
fn emptied_family_still_exists() {
    let mut storage = MemoryStorage::new();
    storage.put("f", "k", "v").unwrap();
    storage.delete("f", "k").unwrap();
    assert_eq!(storage.get("f", "k"), Err(StorageError::KeyNotFound));
    assert_eq!(storage.delete("f", "k"), Err(StorageError::KeyNotFound));
    assert_eq!(storage.scan("f", "", 3), Err(StorageError::KeyNotFound));
}

#[test]
fn unknown_family_fails_everywhere() {
    let mut storage = MemoryStorage::new();
    storage.put("known", "k", "v").unwrap();
    assert_eq!(storage.get("other", "k"), Err(StorageError::CFKeyNotFound));
    assert_eq!(storage.delete("other", "k"), Err(StorageError::CFKeyNotFound));
    assert_eq!(storage.scan("other", "k", 1), Err(StorageError::CFKeyNotFound));
}

#[test]
fn scan_past_last_key_fails() {
    let mut storage = MemoryStorage::new();
    storage.put("f", "a", "1").unwrap();
    storage.put("f", "b", "2").unwrap();
    assert_eq!(storage.scan("f", "c", 4), Err(StorageError::KeyNotFound));
    assert_eq!(storage.scan("f", "b", 4), Ok(vec![("b".into(), "2".into())]));
}

#[test]
fn scan_orders_by_bytes_whatever_the_insertion_order() {
    let mut storage = MemoryStorage::new();
    storage.put("f", "b", "2").unwrap();
    storage.put("f", "ab", "1").unwrap();
    storage.put("f", "B", "0").unwrap();
    storage.put("f", "é", "4").unwrap();
    storage.put("f", "a", "3").unwrap();
    assert_eq!(
        storage.scan("f", "", 10),
        Ok(vec![
            ("B".into(), "0".into()),
            ("a".into(), "3".into()),
            ("ab".into(), "1".into()),
            ("b".into(), "2".into()),
            ("é".into(), "4".into())
        ])
    );
    assert_eq!(
        storage.scan("f", "aa", 2),
        Ok(vec![("ab".into(), "1".into()), ("b".into(), "2".into())])
    );
}

#[test]
fn families_are_independent() {
    let mut storage = MemoryStorage::new();
    storage.put("x", "k", "in x").unwrap();
    storage.put("y", "k", "in y").unwrap();
    storage.delete("x", "k").unwrap();
    assert_eq!(storage.get("x", "k"), Err(StorageError::KeyNotFound));
    assert_eq!(storage.get("y", "k"), Ok(String::from("in y")));
}

#[test]
fn writes_to_distinct_keys_all_survive() {
    let mut storage = MemoryStorage::new();
    for i in 0..50 {
        let family = format!("f{}", i % 3);
        let key = format!("k{}", i);
        let value = format!("v{}", i);
        storage.put(&family, &key, &value).unwrap();
    }
    for i in 0..50 {
        let family = format!("f{}", i % 3);
        let key = format!("k{}", i);
        assert_eq!(storage.get(&family, &key), Ok(format!("v{}", i)));
    }
}

#[test]
fn error_messages_describe_each_kind() {
    assert_eq!(StorageError::MutexLock.message(), "Failed to acquire mutex lock");
    assert_eq!(StorageError::CFKeyNotFound.message(), "Column family not found");
    assert_eq!(
        StorageError::KeyNotFound.message(),
        "Key not found in the specified column family"
    );
    assert_eq!(StorageError::InsertionFailed.message(), "Failed to insert value");
}
