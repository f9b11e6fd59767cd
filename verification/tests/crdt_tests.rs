use velocidb::crdt::{CrdtOperation, CrdtRecord, CrdtStore, SyncProtocol, VectorClock};
use velocidb::types::Value;

#[test]
fn test_crdt_insert() {
    let mut store = CrdtStore::new("node1".to_string());

    store.insert("users", 1, vec![Value::Text("Alice".to_string())]).unwrap();

    let record = store.get_record("users", 1).unwrap();
    assert_eq!(record.key, 1);
    assert!(!record.is_deleted);
}

#[test]
fn test_crdt_merge_lww() {
    let mut store1 = CrdtStore::new("node1".to_string());
    let mut store2 = CrdtStore::new("node2".to_string());

    store1.insert("users", 1, vec![Value::Text("Alice".to_string())]).unwrap();
    store2.insert("users", 1, vec![Value::Text("Bob".to_string())]).unwrap();

    let ops = store2.get_operations_since(0);
    store1.merge_operations(ops).unwrap();

    let record = store1.get_record("users", 1).unwrap();
    assert_eq!(record.values[0], Value::Text("Bob".to_string()));
}

#[test]
fn test_crdt_delete() {
    let mut store = CrdtStore::new("node1".to_string());

    store.insert("users", 1, vec![Value::Text("Alice".to_string())]).unwrap();
    store.delete("users", 1).unwrap();

    let record = store.get_record("users", 1).unwrap();
    assert!(record.is_deleted);
}

#[test]
fn test_sync_protocol() {
    let mut protocol1 = SyncProtocol::new("node1".to_string());
    let mut protocol2 = SyncProtocol::new("node2".to_string());

    protocol1.store_mut().insert("users", 1, vec![Value::Text("Alice".to_string())]).unwrap();
    protocol1.store_mut().insert("users", 2, vec![Value::Text("Bob".to_string())]).unwrap();

    let empty: VectorClock = Vec::new();
    let sync_msg = protocol1.generate_sync_message(&empty);

    protocol2.process_sync_message(sync_msg).unwrap();

    assert!(protocol2.store().get_record("users", 1).is_some());
    assert!(protocol2.store().get_record("users", 2).is_some());
}

#[test]
fn test_operation_pruning() {
    let mut store = CrdtStore::new("node1".to_string());

    for i in 0..100 {
        store.insert("test", i, vec![Value::Integer(i)]).unwrap();
    }

    assert_eq!(store.stats().operation_log_size, 100);

    store.prune_operations();

    assert!(store.stats().operation_log_size <= 100);
}

#[test]
fn crdt_merge_is_idempotent_and_commutative_on_records() {
    let a = CrdtRecord::new(1, vec![Value::Integer(1)], 5, "a".to_string());
    let b = CrdtRecord::new(1, vec![Value::Integer(2)], 5, "b".to_string());

    let mut ab = a.clone();
    assert!(ab.merge(&b));
    let mut ba = b.clone();
    assert!(!ba.merge(&a));
    assert_eq!(ab.values, ba.values);
    assert_eq!(ab.node_id, "b");

    let mut aa = a.clone();
    assert!(!aa.merge(&a));
    assert_eq!(aa.values, a.values);
}

#[test]
fn crdt_later_delete_wins_over_earlier_update() {
    let mut store = CrdtStore::new("n".to_string());
    store.insert("t", 1, vec![Value::Integer(1)]).unwrap();
    store.delete("t", 1).unwrap();
    store.update("t", 1, vec![Value::Integer(2)]).unwrap();
    let r = store.get_record("t", 1).unwrap();
    assert!(!r.is_deleted);
    assert_eq!(r.values, vec![Value::Integer(2)]);
    let stats = store.stats();
    assert_eq!(stats.tables, 1);
    assert_eq!(stats.total_records, 1);
    assert_eq!(stats.deleted_records, 0);
    assert_eq!(stats.operation_log_size, 3);
}

#[test]
fn crdt_operations_since_filters_by_time() {
    let mut store = CrdtStore::new("n".to_string());
    store.insert("t", 1, vec![Value::Integer(1)]).unwrap();
    store.insert("t", 2, vec![Value::Integer(2)]).unwrap();
    store.insert("t", 3, vec![Value::Integer(3)]).unwrap();
    assert_eq!(store.get_operations_since(0).len(), 3);
    assert_eq!(store.get_operations_since(1).len(), 2);
    assert_eq!(store.get_operations_since(3).len(), 0);
}

#[test]
fn crdt_merging_twice_changes_nothing_more() {
    let mut source = CrdtStore::new("src".to_string());
    source.insert("t", 1, vec![Value::Integer(1)]).unwrap();
    let mut target = CrdtStore::new("dst".to_string());
    target.merge_operations(source.get_operations_since(0)).unwrap();
    let first = target.get_record("t", 1).unwrap().clone();
    let log_size = target.stats().operation_log_size;
    target.merge_operations(source.get_operations_since(0)).unwrap();
    let second = target.get_record("t", 1).unwrap();
    assert_eq!(first.values, second.values);
    assert_eq!(first.timestamp, second.timestamp);
    assert_eq!(target.stats().operation_log_size, log_size);
}

#[test]
fn crdt_updates_converge_in_either_order() {
    let u1 = CrdtOperation::Update {
        table: "t".to_string(),
        key: 1,
        values: vec![Value::Integer(1)],
        timestamp: 5,
        node_id: "a".to_string(),
    };
    let u2 = CrdtOperation::Update {
        table: "t".to_string(),
        key: 1,
        values: vec![Value::Integer(2)],
        timestamp: 7,
        node_id: "b".to_string(),
    };
    let mut one = CrdtStore::new("x".to_string());
    one.merge_operations(vec![u1.clone(), u2.clone()]).unwrap();
    let mut two = CrdtStore::new("y".to_string());
    two.merge_operations(vec![u2, u1]).unwrap();
    let r1 = one.get_record("t", 1).unwrap();
    let r2 = two.get_record("t", 1).unwrap();
    assert_eq!(r1.values, vec![Value::Integer(2)]);
    assert_eq!(r1.values, r2.values);
    assert_eq!(r1.timestamp, r2.timestamp);
    assert_eq!(r1.node_id, r2.node_id);
}

#[test]
fn crdt_replicas_converge_on_concurrent_inserts() {
    let mut s1 = CrdtStore::new("node1".to_string());
    let mut s2 = CrdtStore::new("node2".to_string());
    s1.insert("users", 1, vec![Value::Text("Alice".to_string())]).unwrap();
    s2.insert("users", 1, vec![Value::Text("Bob".to_string())]).unwrap();
    let ops1 = s1.get_operations_since(0);
    let ops2 = s2.get_operations_since(0);
    s1.merge_operations(ops2).unwrap();
    s2.merge_operations(ops1).unwrap();
    let r1 = s1.get_record("users", 1).unwrap();
    let r2 = s2.get_record("users", 1).unwrap();
    assert_eq!(r1.values, vec![Value::Text("Bob".to_string())]);
    assert_eq!(r1.values, r2.values);
    assert_eq!(r1.timestamp, r2.timestamp);
    assert_eq!(r1.node_id, r2.node_id);
}

#[test]
fn crdt_received_insert_loses_to_later_local_write() {
    let mut store = CrdtStore::new("b".to_string());
    store.insert("t", 1, vec![Value::Integer(1)]).unwrap();
    store.insert("t", 1, vec![Value::Integer(2)]).unwrap();
    let old = CrdtOperation::Insert {
        table: "t".to_string(),
        key: 1,
        values: vec![Value::Integer(9)],
        timestamp: 0,
        node_id: "a".to_string(),
    };
    store.merge_operations(vec![old]).unwrap();
    assert_eq!(store.get_record("t", 1).unwrap().values, vec![Value::Integer(2)]);
}

#[test]
fn crdt_delete_and_insert_converge_in_either_order() {
    let ins = CrdtOperation::Insert {
        table: "t".to_string(),
        key: 4,
        values: vec![Value::Integer(4)],
        timestamp: 3,
        node_id: "a".to_string(),
    };
    let del = CrdtOperation::Delete { table: "t".to_string(), key: 4, timestamp: 6, node_id: "b".to_string() };
    let mut one = CrdtStore::new("x".to_string());
    one.merge_operations(vec![ins.clone(), del.clone()]).unwrap();
    let mut two = CrdtStore::new("y".to_string());
    two.merge_operations(vec![del, ins]).unwrap();
    let r1 = one.get_record("t", 4).unwrap();
    let r2 = two.get_record("t", 4).unwrap();
    assert!(r1.is_deleted);
    assert!(r2.is_deleted);
    assert_eq!(r1.values, r2.values);
    assert_eq!(r1.timestamp, 6);
    assert_eq!(r2.timestamp, 6);
}

#[test]
fn crdt_delete_of_absent_record_leaves_tombstone() {
    let mut store = CrdtStore::new("n".to_string());
    store.delete("t", 8).unwrap();
    let r = store.get_record("t", 8).unwrap();
    assert!(r.is_deleted);
    assert!(r.values.is_empty());
    assert_eq!(store.stats().deleted_records, 1);
}
