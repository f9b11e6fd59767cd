use velocidb::transaction::{lock_wait_step, LockManager, LockType, LockWait, TransactionManager, TransactionState, LOCK_TIMEOUT_MICROS};
use velocidb::types::VelociError;

#[test]
fn test_transaction_lifecycle() {
    let mut txn_mgr = TransactionManager::new();
    let mut txn = txn_mgr.begin();

    assert_eq!(txn.state(), TransactionState::Active);

    txn_mgr.commit(&mut txn).unwrap();
    assert_eq!(txn.state(), TransactionState::Committed);
}

#[test]
fn test_lock_manager() {
    let mut lock_mgr = LockManager::new();

    lock_mgr.try_acquire_lock_once("table1", 1, LockType::Shared).unwrap();
    lock_mgr.try_acquire_lock_once("table1", 2, LockType::Shared).unwrap();

    let result = lock_mgr.try_acquire_lock_once("table1", 3, LockType::Exclusive);
    assert!(result.is_err());
    let waited = lock_wait_step(result, 30_000_001, LOCK_TIMEOUT_MICROS);
    assert!(matches!(waited, LockWait::TimedOut));
}

#[test]
fn transaction_ids_increase_and_commit_twice_fails() {
    let mut mgr = TransactionManager::new();
    let mut a = mgr.begin();
    let b = mgr.begin();
    assert_eq!(a.id(), 1);
    assert_eq!(b.id(), 2);
    assert_eq!(mgr.active_count(), 2);
    mgr.commit(&mut a).unwrap();
    assert_eq!(mgr.active_count(), 1);
    assert!(mgr.get_transaction(1).is_none());
    assert!(mgr.commit(&mut a).is_err());
}

#[test]
fn transaction_abort_leaves_aborted_state() {
    let mut mgr = TransactionManager::new();
    let mut t = mgr.begin();
    mgr.abort(&mut t).unwrap();
    assert_eq!(t.state(), TransactionState::Aborted);
    assert!(mgr.abort(&mut t).is_err());
}

#[test]
fn lock_release_lets_exclusive_in() {
    let mut locks = LockManager::new();
    locks.try_acquire_lock_once("t", 1, LockType::Shared).unwrap();
    assert!(locks.try_acquire_lock_once("t", 2, LockType::Exclusive).is_err());
    locks.release_lock("t", 1).unwrap();
    assert!(!locks.has_locks(1));
    locks.try_acquire_lock_once("t", 2, LockType::Exclusive).unwrap();
    assert!(locks.has_locks(2));
    locks.release_all_locks(2);
    assert!(!locks.has_locks(2));
}

#[test]
fn lock_same_transaction_can_take_exclusive_again() {
    let mut locks = LockManager::new();
    locks.try_acquire_lock_once("t", 1, LockType::Exclusive).unwrap();
    assert!(locks.try_acquire_lock_once("t", 1, LockType::Exclusive).is_ok());
    assert!(locks.try_acquire_lock_once("t", 2, LockType::Shared).is_err());
}

#[test]
fn lock_wait_step_decisions() {
    assert!(matches!(lock_wait_step(Ok(()), 5, 10), LockWait::Granted));
    assert!(matches!(lock_wait_step(Err(VelociError::Busy), 0, 10), LockWait::Retry { sleep_micros: 0 }));
    assert!(matches!(
        lock_wait_step(Err(VelociError::Busy), 250_000, LOCK_TIMEOUT_MICROS),
        LockWait::Retry { sleep_micros: 25 }
    ));
    assert!(matches!(
        lock_wait_step(Err(VelociError::Busy), 5_000_000, LOCK_TIMEOUT_MICROS),
        LockWait::Retry { sleep_micros: 100 }
    ));
    assert!(matches!(
        lock_wait_step(Err(VelociError::Busy), LOCK_TIMEOUT_MICROS + 1, LOCK_TIMEOUT_MICROS),
        LockWait::TimedOut
    ));
    assert!(matches!(
        lock_wait_step(Err(VelociError::NotFound("t".to_string())), 1, 10),
        LockWait::Failed(VelociError::NotFound(_))
    ));
    assert_eq!(LOCK_TIMEOUT_MICROS, 30_000_000);
}
