use velocidb::mvcc::MvccManager;
use velocidb::types::Value;

#[test]
fn test_mvcc_snapshot_isolation() {
    let mut mvcc = MvccManager::new();

    let snapshot1 = mvcc.begin_transaction();
    mvcc.insert_version(
        "users",
        1,
        vec![Value::Integer(1), Value::Text("Alice".to_string())],
        &snapshot1,
    )
    .unwrap();
    mvcc.commit_transaction(&snapshot1).unwrap();

    let snapshot2 = mvcc.begin_transaction();

    let result = mvcc.read_version("users", 1, &snapshot2).unwrap();
    assert!(result.is_some());

    let data = result.unwrap();
    assert_eq!(data.len(), 2);
    assert_eq!(data[1], Value::Text("Alice".to_string()));
}

#[test]
fn test_mvcc_concurrent_reads() {
    let mut mvcc = MvccManager::new();

    let snapshot_setup = mvcc.begin_transaction();
    mvcc.insert_version(
        "products",
        1,
        vec![Value::Integer(1), Value::Text("Laptop".to_string())],
        &snapshot_setup,
    )
    .unwrap();
    mvcc.commit_transaction(&snapshot_setup).unwrap();

    let snapshot_r1 = mvcc.begin_transaction();
    let snapshot_r2 = mvcc.begin_transaction();

    let result1 = mvcc.read_version("products", 1, &snapshot_r1).unwrap();
    let result2 = mvcc.read_version("products", 1, &snapshot_r2).unwrap();

    assert!(result1.is_some());
    assert!(result2.is_some());
    assert_eq!(result1, result2);
}

#[test]
fn test_mvcc_version_visibility() {
    let mut mvcc = MvccManager::new();

    let snapshot1 = mvcc.begin_transaction();
    mvcc.insert_version("test", 1, vec![Value::Integer(100)], &snapshot1).unwrap();

    let snapshot2 = mvcc.begin_transaction();

    mvcc.commit_transaction(&snapshot1).unwrap();

    let result = mvcc.read_version("test", 1, &snapshot2).unwrap();
    assert!(result.is_none());

    let snapshot3 = mvcc.begin_transaction();

    let result = mvcc.read_version("test", 1, &snapshot3).unwrap();
    assert!(result.is_some());
}

#[test]
fn test_mvcc_vacuum() {
    let mut mvcc = MvccManager::new();

    let snapshot1 = mvcc.begin_transaction();
    mvcc.insert_version("test", 1, vec![Value::Integer(1)], &snapshot1).unwrap();
    mvcc.commit_transaction(&snapshot1).unwrap();

    let snapshot2 = mvcc.begin_transaction();
    mvcc.insert_version("test", 1, vec![Value::Integer(2)], &snapshot2).unwrap();
    mvcc.commit_transaction(&snapshot2).unwrap();

    let snapshot3 = mvcc.begin_transaction();
    mvcc.insert_version("test", 1, vec![Value::Integer(3)], &snapshot3).unwrap();
    mvcc.commit_transaction(&snapshot3).unwrap();

    let stats_before = mvcc.get_counts();
    assert!(stats_before.total_versions >= 3);

    mvcc.vacuum();

    let stats_after = mvcc.get_counts();
    assert!(stats_after.total_versions >= 1);
}

#[test]
fn mvcc_newest_visible_version_is_read() {
    let mut mvcc = MvccManager::new();
    for v in 1..=3 {
        let s = mvcc.begin_transaction();
        mvcc.insert_version("t", 1, vec![Value::Integer(v)], &s).unwrap();
        mvcc.commit_transaction(&s).unwrap();
    }
    let reader = mvcc.begin_transaction();
    assert_eq!(mvcc.read_version("t", 1, &reader).unwrap(), Some(vec![Value::Integer(3)]));
    assert_eq!(mvcc.read_version("t", 2, &reader).unwrap(), None);
    assert_eq!(mvcc.read_version("missing", 1, &reader).unwrap(), None);
}

#[test]
fn mvcc_delete_hides_record_from_later_snapshots() {
    let mut mvcc = MvccManager::new();
    let s1 = mvcc.begin_transaction();
    mvcc.insert_version("t", 1, vec![Value::Integer(1)], &s1).unwrap();
    mvcc.commit_transaction(&s1).unwrap();
    let s2 = mvcc.begin_transaction();
    mvcc.delete_version("t", 1, &s2).unwrap();
    mvcc.commit_transaction(&s2).unwrap();
    let s3 = mvcc.begin_transaction();
    assert_eq!(mvcc.read_version("t", 1, &s3).unwrap(), None);
    assert!(mvcc.delete_version("t", 99, &s3).is_err());
}

#[test]
fn mvcc_scan_returns_visible_rows_in_key_order() {
    let mut mvcc = MvccManager::new();
    let s = mvcc.begin_transaction();
    mvcc.insert_version("t", 3, vec![Value::Integer(30)], &s).unwrap();
    mvcc.insert_version("t", 1, vec![Value::Integer(10)], &s).unwrap();
    mvcc.commit_transaction(&s).unwrap();
    let r = mvcc.begin_transaction();
    let rows = mvcc.scan_table("t", &r).unwrap();
    assert_eq!(rows, vec![(1, vec![Value::Integer(10)]), (3, vec![Value::Integer(30)])]);
    let counts = mvcc.get_counts();
    assert_eq!(counts.active_snapshots, 1);
    assert_eq!(counts.total_records, 2);
    assert_eq!(counts.total_versions, 2);
}
