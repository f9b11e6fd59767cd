use velocidb::pmem::{log_range_ok, log_reserve};
use velocidb::types::VelociError;

#[test]
fn pmem_log_reserve_within_and_past_the_page() {
    assert_eq!(log_reserve(0, 100).unwrap(), 0);
    assert_eq!(log_reserve(4000, 96).unwrap(), 4000);
    match log_reserve(4000, 97) {
        Err(VelociError::StorageError(m)) => assert_eq!(m, "Log page full"),
        other => panic!("unexpected {:?}", other),
    }
    assert!(log_reserve(u64::MAX, 1).is_err());
    assert!(log_reserve(0, u64::MAX).is_err());
}

#[test]
fn pmem_log_range_bounds() {
    assert!(log_range_ok(0, 4096));
    assert!(log_range_ok(4096, 0));
    assert!(!log_range_ok(4000, 97));
    assert!(!log_range_ok(u64::MAX, 1));
}
