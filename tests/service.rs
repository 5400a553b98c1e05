use tiny_kv::error::StorageError;
use tiny_kv::proto::KvPair;
use tiny_kv::service::{scan_limit, Service, ServiceError};

#[test]
fn service_test_put() {
    let service = Service::default();
    assert_eq!(service.put("c", "k", "v"), Ok(()));
}

#[test]
fn service_test_get() {
    let service = Service::default();
    service.put("test_cf", "test_key", "test_value").unwrap();
    let response = service.get("test_cf", "test_key");
    assert!(response.is_ok());
    assert_eq!(response.unwrap(), "test_value");
}

#[test]
fn service_test_delete() {
    let service = Service::default();
    service.put("test_cf", "test_key", "test_value").unwrap();
    let response = service.delete("test_cf", "test_key");
    assert!(response.is_ok());
    let response = service.get("test_cf", "test_key");
    assert!(response.is_err());
}

#[test]
fn service_test_scan() {
    let service = Service::default();
    for i in 0..5 {
        service
            .put("test_cf", &format!("key_{}", i), &format!("value_{}", i))
            .unwrap();
    }
    let data = service.scan("test_cf", "key_2", 3).unwrap();
    assert_eq!(data.len(), 3, "Should return exactly 3 items");
    assert_eq!(
        data,
        vec![
            KvPair::new("key_2", "value_2"),
            KvPair::new("key_3", "value_3"),
            KvPair::new("key_4", "value_4")
        ],
        "Should return keys 2, 3, 4 in order with correct values"
    );
}

#[test]
fn service_rejects_bad_limits() {
    let service = Service::default();
    service.put("c", "k", "v").unwrap();
    assert_eq!(service.scan("c", "k", 0), Err(ServiceError::ZeroLimit));
    assert_eq!(scan_limit(0), Err(ServiceError::ZeroLimit));
    assert_eq!(scan_limit(7), Ok(7));
    if (usize::MAX as u128) < (u64::MAX as u128) {
        assert_eq!(scan_limit(u64::MAX), Err(ServiceError::LimitTooLarge));
    } else {
        assert_eq!(scan_limit(u64::MAX), Ok(usize::MAX));
    }
}

#[test]
fn service_reports_store_errors_by_kind() {
    let service = Service::default();
    assert_eq!(
        service.get("none", "k"),
        Err(ServiceError::Storage(StorageError::CFKeyNotFound))
    );
    service.put("c", "k", "v").unwrap();
    assert_eq!(
        service.delete("c", "x"),
        Err(ServiceError::Storage(StorageError::KeyNotFound))
    );
    assert_eq!(
        service.scan("c", "z", 2),
        Err(ServiceError::Storage(StorageError::KeyNotFound))
    );
}

#[test]
fn kv_pair_constructors() {
    let p = KvPair::default();
    assert_eq!(p.key, "");
    assert_eq!(p.value, "");
    let q = KvPair::new("a", "b");
    assert_eq!(q.key, "a");
    assert_eq!(q.value, "b");
}
