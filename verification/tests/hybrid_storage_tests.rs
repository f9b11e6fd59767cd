use velocidb::hybrid_storage::{ColumnStorage, HybridTable, StorageLayout, TableStats};
use velocidb::types::{Column, DataType, Value, VelociError};

fn column(name: &str, data_type: DataType, primary_key: bool) -> Column {
    Column {
        name: name.to_string(),
        data_type,
        primary_key,
        not_null: primary_key,
        unique: primary_key,
    }
}

#[test]
fn test_row_storage() {
    let columns = vec![column("id", DataType::Integer, true), column("name", DataType::Text, false)];

    let mut table = HybridTable::new("users".to_string(), columns, StorageLayout::RowMajor);

    table.insert_row(1, vec![Value::Integer(1), Value::Text("Alice".to_string())]).unwrap();
    table.insert_row(2, vec![Value::Integer(2), Value::Text("Bob".to_string())]).unwrap();

    let row = table.get_row(1).unwrap();
    assert_eq!(row.key, 1);
    assert_eq!(row.values[1], Value::Text("Alice".to_string()));
}

#[test]
fn test_column_projection() {
    let columns = vec![column("id", DataType::Integer, true), column("age", DataType::Integer, false)];

    let mut table = HybridTable::new("users".to_string(), columns, StorageLayout::Hybrid);

    table.insert_row(1, vec![Value::Integer(1), Value::Integer(30)]).unwrap();
    table.insert_row(2, vec![Value::Integer(2), Value::Integer(25)]).unwrap();
    table.insert_row(3, vec![Value::Integer(3), Value::Integer(35)]).unwrap();

    let col = table.get_column_projection("age").unwrap();
    assert_eq!(col.len(), 3);
    assert_eq!(col.get(0), Some(Value::Integer(30)));
    assert_eq!(col.get(1), Some(Value::Integer(25)));
    assert_eq!(col.get(2), Some(Value::Integer(35)));
}

#[test]
fn hybrid_storage_test_vector_batch() {
    let columns = vec![column("id", DataType::Integer, true), column("value", DataType::Integer, false)];

    let mut table = HybridTable::new("test".to_string(), columns, StorageLayout::Hybrid);

    for i in 1..=10 {
        table.insert_row(i, vec![Value::Integer(i), Value::Integer(i * 10)]).unwrap();
    }

    let batch = table.get_vector_batch(vec!["value"]).unwrap();
    assert_eq!(batch.row_count(), 10);
}

#[test]
fn test_adaptive_layout() {
    let columns = vec![column("id", DataType::Integer, true)];

    let mut table = HybridTable::new("test".to_string(), columns, StorageLayout::Hybrid);

    for _ in 0..10 {
        let _ = table.get_row(1);
    }

    let layout = table.adaptive_layout();
    assert_eq!(layout, StorageLayout::RowMajor);

    for _ in 0..30 {
        let _ = table.get_column_projection("id");
    }

    let layout = table.adaptive_layout();
    assert_eq!(layout, StorageLayout::ColumnMajor);
}

#[test]
fn hybrid_projection_errors_and_nulls() {
    let columns = vec![column("id", DataType::Integer, true), column("name", DataType::Text, false)];
    let mut table = HybridTable::new("t".to_string(), columns, StorageLayout::RowMajor);
    assert!(matches!(table.get_column_projection("name"), Err(VelociError::NotFound(_))));
    assert!(matches!(table.get_column_projection("nope"), Err(VelociError::NotFound(_))));
    table.insert_row(1, vec![Value::Integer(1), Value::Text("a".to_string())]).unwrap();
    table.insert_row(2, vec![Value::Integer(2)]).unwrap();
    let col = table.get_column_projection("name").unwrap();
    assert_eq!(col.get(0), Some(Value::Text("a".to_string())));
    assert_eq!(col.get(1), Some(Value::Null));
    assert_eq!(col.get(2), None);
    table.insert_row(3, vec![Value::Integer(3), Value::Blob(vec![1])]).unwrap();
    let t2 = table.get_column_projection("name").unwrap();
    assert_eq!(t2.len(), 2);
}

#[test]
fn hybrid_insert_replaces_and_hybrid_layout_drops_cache() {
    let columns = vec![column("id", DataType::Integer, true), column("v", DataType::Integer, false)];
    let mut table = HybridTable::new("t".to_string(), columns, StorageLayout::Hybrid);
    table.insert_row(1, vec![Value::Integer(1), Value::Integer(5)]).unwrap();
    assert_eq!(table.get_column_projection("v").unwrap().get(0), Some(Value::Integer(5)));
    table.insert_row(1, vec![Value::Integer(1), Value::Integer(6)]).unwrap();
    assert_eq!(table.get_row(1).unwrap().values[1], Value::Integer(6));
    assert_eq!(table.scan_rows().len(), 1);
    assert_eq!(table.get_column_projection("v").unwrap().get(0), Some(Value::Integer(6)));
    let stats = table.get_stats();
    assert_eq!(stats.inserts, 2);
    assert_eq!(stats.row_accesses, 1);
    assert_eq!(stats.column_accesses, 2);
    assert_eq!(stats.full_scans, 1);
}

#[test]
fn hybrid_column_storage_set_and_get() {
    let mut col = ColumnStorage::from_integers("x".to_string(), vec![], vec![]);
    col.set(2, Value::Integer(7)).unwrap();
    assert_eq!(col.len(), 3);
    assert_eq!(col.get(2), Some(Value::Integer(7)));
    assert_eq!(col.get(0), Some(Value::Integer(0)));
    col.set(0, Value::Null).unwrap();
    assert_eq!(col.get(0), Some(Value::Null));
    assert!(matches!(col.set(1, Value::Blob(vec![])), Err(VelociError::TypeMismatch { .. })));
    col.set(1, Value::Text("no".to_string())).unwrap();
    assert_eq!(col.get(1), Some(Value::Integer(0)));
    assert!(!col.is_empty());
}

#[test]
fn hybrid_workload_names() {
    let olap = TableStats { inserts: 0, row_accesses: 1, column_accesses: 3, full_scans: 0 };
    assert_eq!(olap.workload_type(), "OLAP (Analytical)");
    let oltp = TableStats { inserts: 0, row_accesses: 5, column_accesses: 2, full_scans: 0 };
    assert_eq!(oltp.workload_type(), "OLTP (Transactional)");
    let mixed = TableStats { inserts: 0, row_accesses: 2, column_accesses: 2, full_scans: 0 };
    assert_eq!(mixed.workload_type(), "Hybrid (Mixed)");
}
