use tiny_kv::storage::Storage;
use tiny_kv::storage::StorageError;

#[test]
fn storange_test_put() {
    let column_family = "c";
    let mut storage = Storage::default();
    assert_eq!(storage.put(column_family, "k", "v"), Ok(()));
}

#[test]
fn storange_test_get() {
    let column_family = "c";
    let mut storage = Storage::default();
    storage.put(column_family, "k", "v").unwrap();

    assert_eq!(storage.get(column_family, "k"), Ok(String::from("v")));
    assert!(matches!(
        storage.get(column_family, "a"),
        Err(StorageError::KeyNotFound)
    ));
}

#[test]
fn storange_test_delete() {
    let column_family = "c";
    let mut storage = Storage::default();
    storage.put(column_family, "k", "v").unwrap();

    assert_eq!(storage.delete(column_family, "k"), Ok(String::from("v")));
    assert!(matches!(
        storage.delete(column_family, "k"),
        Err(StorageError::KeyNotFound)
    ));
}

#[test]
fn storange_test_scan() {
    let column_family = "c";
    let mut storage = Storage::default();
    storage.put(column_family, "0", "000").unwrap();
    storage.put(column_family, "1", "111").unwrap();
    storage.put(column_family, "2", "222").unwrap();
    storage.put(column_family, "3", "333").unwrap();
    storage.put(column_family, "4", "444").unwrap();
    storage.put(column_family, "5", "555").unwrap();

    let values = storage.scan(column_family, "2", 2).unwrap();
    assert_eq!(
        values,
        vec![("2".into(), "222".into()), ("3".into(), "333".into())]
    );

    let values = storage.scan(column_family, "2", 10).unwrap();
    assert_eq!(
        values,
        vec![
            ("2".into(), "222".into()),
            ("3".into(), "333".into()),
            ("4".into(), "444".into()),
            ("5".into(), "555".into())
        ]
    );
}

#[test]
fn zero_limit_scan_finds_nothing() {
    let mut storage = Storage::default();
    storage.put("c", "k", "v").unwrap();
    assert_eq!(storage.scan("c", "", 0), Err(StorageError::KeyNotFound));
    assert_eq!(storage.scan("d", "", 0), Err(StorageError::CFKeyNotFound));
}
