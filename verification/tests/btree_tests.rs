use velocidb::btree::BTree;
use velocidb::btree_optimized::{CacheAlignedNodeHeader, CacheOptimizedNode, CACHE_LINE_SIZE};
use velocidb::storage::{Page, Pager};
use velocidb::types::{Row, Value};

#[test]
#[allow(unused_comparisons)]
fn test_btree_create() {
    let mut pager = Pager::new();
    let btree = BTree::new(&mut pager).unwrap();
    assert!(btree.root_page() >= 0);
}

#[test]
fn test_insert_and_search() {
    let mut pager = Pager::new();
    let mut btree = BTree::new(&mut pager).unwrap();

    let row = Row::new(vec![Value::Integer(1), Value::Text("Alice".to_string())]);
    btree.insert(&mut pager, 1, &row).unwrap();

    let result = btree.search(&pager, 1).unwrap();
    assert!(result.is_some());
    let found_row = result.unwrap();
    assert_eq!(found_row.values.len(), 2);
}

#[test]
fn btree_test_delete() {
    let mut pager = Pager::new();
    let mut btree = BTree::new(&mut pager).unwrap();

    let row = Row::new(vec![Value::Integer(1), Value::Text("Alice".to_string())]);
    btree.insert(&mut pager, 1, &row).unwrap();

    let deleted = btree.delete(&mut pager, 1).unwrap();
    assert!(deleted);

    let result = btree.search(&pager, 1).unwrap();
    assert!(result.is_none());
}

#[test]
fn test_cache_aligned_header() {
    let header = CacheAlignedNodeHeader::new_leaf();
    assert_eq!(std::mem::size_of::<CacheAlignedNodeHeader>(), CACHE_LINE_SIZE);
    assert!(header.is_leaf());
}

#[test]
fn test_optimized_node_search() {
    let mut node = CacheOptimizedNode::new_leaf();

    for i in 0..10 {
        node.keys[i] = (i * 10) as i64;
    }
    node.header.set_num_keys(10);

    let result = node.search_key(50);
    assert_eq!(result, Ok(5));

    let result = node.search_key(55);
    assert_eq!(result, Err(6));
}

#[test]
fn test_node_serialization() {
    let mut node = CacheOptimizedNode::new_leaf();

    for i in 0..5 {
        node.keys[i] = i as i64 * 100;
        node.children[i] = i as u32;
    }
    node.header.set_num_keys(5);

    let mut page = Page::new();
    node.serialize(&mut page);

    let restored_node = CacheOptimizedNode::deserialize(&page).unwrap();

    assert_eq!(restored_node.header.num_keys(), 5);
    for i in 0..5 {
        assert_eq!(restored_node.keys[i], i as i64 * 100);
        assert_eq!(restored_node.children[i], i as u32);
    }
}

#[test]
fn btree_many_rows_split_and_scan_in_key_order() {
    let mut pager = Pager::new();
    let mut btree = BTree::new(&mut pager).unwrap();
    for k in [5i64, 3, 9, 1, 7, 2, 8, 4, 6, 0] {
        let row = Row::new(vec![Value::Integer(k), Value::Text(format!("row{}", k))]);
        btree.insert(&mut pager, k, &row).unwrap();
    }
    let rows = btree.scan(&pager).unwrap();
    let keys: Vec<i64> = rows.iter().map(|(k, _)| *k).collect();
    assert_eq!(keys, vec![0, 1, 2, 3, 4, 5, 6, 7, 8, 9]);
    let found = btree.search(&pager, 7).unwrap().unwrap();
    assert_eq!(found.values[1], Value::Text("row7".to_string()));
    assert!(btree.search(&pager, 42).unwrap().is_none());
}

#[test]
fn btree_duplicate_key_is_kept_and_search_finds_the_first() {
    let mut pager = Pager::new();
    let mut btree = BTree::new(&mut pager).unwrap();
    btree.insert(&mut pager, 1, &Row::new(vec![Value::Integer(10)])).unwrap();
    btree.insert(&mut pager, 1, &Row::new(vec![Value::Integer(20)])).unwrap();
    let found = btree.search(&pager, 1).unwrap().unwrap();
    assert_eq!(found.values, vec![Value::Integer(10)]);
    assert_eq!(btree.scan(&pager).unwrap().len(), 2);
}

#[test]
fn btree_delete_missing_key_is_false() {
    let mut pager = Pager::new();
    let mut btree = BTree::new(&mut pager).unwrap();
    assert!(!btree.delete(&mut pager, 3).unwrap());
}

#[test]
fn optimized_node_insert_internal_shifts_keys() {
    let mut node = CacheOptimizedNode::new_internal(1);
    node.insert_internal(20, 1, 2, 0).unwrap();
    node.insert_internal(10, 3, 4, 0).unwrap();
    assert_eq!(node.header.num_keys(), 2);
    assert_eq!(node.get_key(0), Some(10));
    assert_eq!(node.get_key(1), Some(20));
    assert_eq!(node.get_child(0), Some(3));
    assert_eq!(node.get_child(1), Some(4));
    assert_eq!(node.get_child(2), Some(2));
}

#[test]
fn btree_row_that_splits_the_root_is_kept() {
    let mut pager = Pager::new();
    let mut btree = BTree::new(&mut pager).unwrap();
    let first_root = btree.root_page();
    let text = |k: i64| format!("{}{}", k, "x".repeat(1500));
    for k in [6i64, 5, 4] {
        let row = Row::new(vec![Value::Integer(k), Value::Text(text(k))]);
        btree.insert(&mut pager, k, &row).unwrap();
    }
    assert_ne!(btree.root_page(), first_root);
    for k in [4i64, 5, 6] {
        let found = btree.search(&pager, k).unwrap().unwrap();
        assert_eq!(found.values[1], Value::Text(text(k)));
    }
    let keys: Vec<i64> = btree.scan(&pager).unwrap().iter().map(|(k, _)| *k).collect();
    assert_eq!(keys, vec![4, 5]);
}

#[test]
fn btree_reads_back_every_row_after_leaf_splits_under_one_root() {
    let mut pager = Pager::new();
    let mut btree = BTree::new(&mut pager).unwrap();
    let text = |k: i64| format!("{}{}", k, "y".repeat(1200));
    for k in [10i64, 3, 7, 1, 12, 5, 9, 2, 11, 4, 8, 6] {
        let row = Row::new(vec![Value::Integer(k), Value::Text(text(k))]);
        btree.insert(&mut pager, k, &row).unwrap();
        let found = btree.search(&pager, k).unwrap().unwrap();
        assert_eq!(found.values[1], Value::Text(text(k)));
    }
    for k in 1i64..=12 {
        let found = btree.search(&pager, k).unwrap().unwrap();
        assert_eq!(found.values, vec![Value::Integer(k), Value::Text(text(k))]);
    }
    assert!(btree.search(&pager, 0).unwrap().is_none());
    assert!(btree.search(&pager, 13).unwrap().is_none());
}

#[test]
fn btree_inserts_and_deletes_keep_scan_ascending_and_search_agrees() {
    let mut pager = Pager::new();
    let mut btree = BTree::new(&mut pager).unwrap();
    for k in [5i64, 1, 3] {
        btree.insert(&mut pager, k, &Row::new(vec![Value::Integer(k * 10)])).unwrap();
    }
    assert!(btree.delete(&mut pager, 1).unwrap());
    btree.insert(&mut pager, 2, &Row::new(vec![Value::Integer(20)])).unwrap();
    let rows = btree.scan(&pager).unwrap();
    let keys: Vec<i64> = rows.iter().map(|(k, _)| *k).collect();
    assert_eq!(keys, vec![2, 3, 5]);
    assert!(btree.search(&pager, 1).unwrap().is_none());
    assert!(btree.search(&pager, 4).unwrap().is_none());
    assert_eq!(btree.search(&pager, 2).unwrap().unwrap().values, vec![Value::Integer(20)]);
    assert!(!btree.delete(&mut pager, 1).unwrap());
}
