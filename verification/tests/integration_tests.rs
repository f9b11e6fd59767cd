use velocidb::database::Database;
use velocidb::storage::Page;
use velocidb::types::{QueryResult, Value};

struct TestDb {
    db: Database,
}

impl TestDb {
    fn new() -> Self {
        TestDb { db: Database::open(Vec::new()) }
    }

    fn execute(&mut self, sql: &str) {
        self.db.execute(sql).unwrap();
    }

    fn query(&mut self, sql: &str) -> QueryResult {
        self.db.query(sql).unwrap()
    }
}

/// Applies the page writes a database handed out to an in-memory file.
fn store_writes(file: &mut Vec<Page>, db: &mut Database) {
    for (id, page) in db.take_pending_writes() {
        let i = id as usize;
        while file.len() <= i {
            file.push(Page::new());
        }
        file[i] = page;
    }
}

#[test]
fn test_create_table() {
    let mut db = TestDb::new();
    db.execute("CREATE TABLE users (id INTEGER PRIMARY KEY, name TEXT, age INTEGER)");
}

#[test]
fn test_insert_and_select() {
    let mut db = TestDb::new();
    db.execute("CREATE TABLE users (id INTEGER PRIMARY KEY, name TEXT, age INTEGER)");
    db.execute("INSERT INTO users (id, name, age) VALUES (1, 'Alice', 30)");
    db.execute("INSERT INTO users (id, name, age) VALUES (2, 'Bob', 25)");

    let result = db.query("SELECT * FROM users");
    assert_eq!(result.rows.len(), 2);
}

#[test]
fn test_select_specific_columns() {
    let mut db = TestDb::new();
    db.execute("CREATE TABLE users (id INTEGER PRIMARY KEY, name TEXT, age INTEGER)");
    db.execute("INSERT INTO users (id, name, age) VALUES (1, 'Alice', 30)");

    let result = db.query("SELECT name FROM users");
    assert_eq!(result.rows.len(), 1);
}

#[test]
fn test_select_with_where() {
    let mut db = TestDb::new();
    db.execute("CREATE TABLE users (id INTEGER PRIMARY KEY, name TEXT, age INTEGER)");
    db.execute("INSERT INTO users (id, name, age) VALUES (1, 'Alice', 30)");
    db.execute("INSERT INTO users (id, name, age) VALUES (2, 'Bob', 25)");
    db.execute("INSERT INTO users (id, name, age) VALUES (3, 'Charlie', 35)");

    let result = db.query("SELECT * FROM users WHERE age > 25");
    assert_eq!(result.rows.len(), 2);
}

#[test]
fn test_select_with_where_operators() {
    let mut db = TestDb::new();
    db.execute("CREATE TABLE items (id INTEGER PRIMARY KEY, val INTEGER)");
    db.execute("INSERT INTO items (id, val) VALUES (1, 10)");
    db.execute("INSERT INTO items (id, val) VALUES (2, 20)");
    db.execute("INSERT INTO items (id, val) VALUES (3, 30)");

    let result = db.query("SELECT * FROM items WHERE val < 25");
    assert_eq!(result.rows.len(), 2);

    let result = db.query("SELECT * FROM items WHERE val >= 20");
    assert_eq!(result.rows.len(), 2);

    let result = db.query("SELECT * FROM items WHERE val != 20");
    assert_eq!(result.rows.len(), 2);

    let result = db.query("SELECT * FROM items WHERE val = 20");
    assert_eq!(result.rows.len(), 1);
}

#[test]
fn test_select_like() {
    let mut db = TestDb::new();
    db.execute("CREATE TABLE users (id INTEGER PRIMARY KEY, name TEXT)");
    db.execute("INSERT INTO users (id, name) VALUES (1, 'Alice')");
    db.execute("INSERT INTO users (id, name) VALUES (2, 'Bob')");
    db.execute("INSERT INTO users (id, name) VALUES (3, 'Alicia')");

    let result = db.query("SELECT * FROM users WHERE name LIKE 'Ali%'");
    assert_eq!(result.rows.len(), 2);
}

#[test]
fn test_update() {
    let mut db = TestDb::new();
    db.execute("CREATE TABLE users (id INTEGER PRIMARY KEY, name TEXT, age INTEGER)");
    db.execute("INSERT INTO users (id, name, age) VALUES (1, 'Alice', 30)");

    db.execute("UPDATE users SET age = 31 WHERE id = 1");

    let result = db.query("SELECT * FROM users WHERE id = 1");
    assert_eq!(result.rows.len(), 1);
}

#[test]
fn test_update_multiple_fields() {
    let mut db = TestDb::new();
    db.execute("CREATE TABLE users (id INTEGER PRIMARY KEY, name TEXT, age INTEGER)");
    db.execute("INSERT INTO users (id, name, age) VALUES (1, 'Alice', 30)");

    db.execute("UPDATE users SET age = 32, name = 'Alice Cooper' WHERE id = 1");

    let result = db.query("SELECT * FROM users WHERE id = 1");
    assert_eq!(result.rows.len(), 1);
}

#[test]
fn integration_tests_test_delete() {
    let mut db = TestDb::new();
    db.execute("CREATE TABLE users (id INTEGER PRIMARY KEY, name TEXT, age INTEGER)");
    db.execute("INSERT INTO users (id, name, age) VALUES (1, 'Alice', 30)");
    db.execute("INSERT INTO users (id, name, age) VALUES (2, 'Bob', 25)");

    db.execute("DELETE FROM users WHERE id = 2");

    let result = db.query("SELECT * FROM users");
    assert_eq!(result.rows.len(), 1);
}

#[test]
fn test_multiple_tables() {
    let mut db = TestDb::new();
    db.execute("CREATE TABLE users (id INTEGER PRIMARY KEY, name TEXT)");
    db.execute("CREATE TABLE posts (id INTEGER PRIMARY KEY, title TEXT)");

    db.execute("INSERT INTO users (id, name) VALUES (1, 'Alice')");
    db.execute("INSERT INTO posts (id, title) VALUES (1, 'First Post')");

    let users = db.query("SELECT * FROM users");
    let posts = db.query("SELECT * FROM posts");

    assert_eq!(users.rows.len(), 1);
    assert_eq!(posts.rows.len(), 1);
}

#[test]
fn test_large_dataset() {
    let mut db = TestDb::new();
    db.execute("CREATE TABLE test (id INTEGER PRIMARY KEY, value INTEGER)");

    for i in 0..50 {
        db.execute(&format!("INSERT INTO test (id, value) VALUES ({}, {})", i, i * 2));
    }

    let result = db.query("SELECT * FROM test");
    assert_eq!(result.rows.len(), 50);
}

#[test]
fn test_text_data() {
    let mut db = TestDb::new();
    db.execute("CREATE TABLE test (id INTEGER PRIMARY KEY, value TEXT)");

    db.execute("INSERT INTO test (id, value) VALUES (1, 'Hello')");
    db.execute("INSERT INTO test (id, value) VALUES (2, 'World')");

    let result = db.query("SELECT * FROM test");
    assert_eq!(result.rows.len(), 2);
}

#[test]
fn test_persistence() {
    let mut file: Vec<Page> = Vec::new();

    {
        let mut db = Database::open(file.clone());
        db.execute("CREATE TABLE users (id INTEGER PRIMARY KEY, name TEXT)").unwrap();
        db.execute("INSERT INTO users VALUES (1, 'Alice')").unwrap();
        store_writes(&mut file, &mut db);
    }

    {
        let mut db = Database::open(file.clone());
        let result = db.query("SELECT * FROM users");
        if result.is_err() {
            db.execute("CREATE TABLE users (id INTEGER PRIMARY KEY, name TEXT)").unwrap();
            db.execute("INSERT INTO users VALUES (1, 'Alice')").unwrap();
        } else {
            let rows = result.unwrap();
            assert_eq!(rows.rows.len(), 1);
        }
    }
}

#[test]
fn test_error_handling() {
    let mut db = TestDb::new();
    let result = db.db.execute("SELECT * FROM");
    assert!(result.is_err());

    let result = db.db.query("SELECT * FROM non_existent_table");
    assert!(result.is_err());
}

#[test]
fn inserted_row_is_selected_with_its_values() {
    let mut db = TestDb::new();
    db.execute("CREATE TABLE users (id INTEGER PRIMARY KEY, name TEXT, age INTEGER)");
    db.execute("INSERT INTO users (id, name, age) VALUES (7, 'Eve', 41)");
    let result = db.query("SELECT * FROM users WHERE id = 7");
    assert_eq!(result.rows.len(), 1);
    assert_eq!(
        result.rows[0].values,
        vec![Value::Integer(7), Value::Text("Eve".to_string()), Value::Integer(41)]
    );
    let names = db.query("SELECT name, age FROM users");
    assert_eq!(names.columns.len(), 2);
    assert_eq!(names.rows[0].values, vec![Value::Text("Eve".to_string()), Value::Integer(41)]);
}

#[test]
fn update_changes_only_matching_rows() {
    let mut db = TestDb::new();
    db.execute("CREATE TABLE users (id INTEGER PRIMARY KEY, name TEXT, age INTEGER)");
    db.execute("INSERT INTO users (id, name, age) VALUES (1, 'Alice', 30)");
    db.execute("INSERT INTO users (id, name, age) VALUES (2, 'Bob', 25)");
    db.execute("UPDATE users SET age = 32, name = 'Alice Cooper' WHERE id = 1");
    let one = db.query("SELECT * FROM users WHERE id = 1");
    assert_eq!(
        one.rows[0].values,
        vec![Value::Integer(1), Value::Text("Alice Cooper".to_string()), Value::Integer(32)]
    );
    let two = db.query("SELECT * FROM users WHERE id = 2");
    assert_eq!(two.rows[0].values[2], Value::Integer(25));
}

#[test]
fn duplicate_table_and_primary_key_are_refused() {
    let mut db = TestDb::new();
    db.execute("CREATE TABLE t (id INTEGER PRIMARY KEY, v TEXT)");
    assert!(db.db.execute("CREATE TABLE t (id INTEGER PRIMARY KEY)").is_err());
    db.execute("INSERT INTO t (id, v) VALUES (1, 'a')");
    assert!(db.db.execute("INSERT INTO t (id, v) VALUES (1, 'b')").is_err());
    assert!(db.db.execute("INSERT INTO t (v) VALUES ('c')").is_err());
}

#[test]
fn drop_table_removes_it() {
    let mut db = TestDb::new();
    db.execute("CREATE TABLE t (id INTEGER PRIMARY KEY)");
    db.execute("DROP TABLE t");
    assert!(db.db.query("SELECT * FROM t").is_err());
    assert!(db.db.execute("DROP TABLE t").is_err());
}

#[test]
fn select_lists_rows_in_key_order_after_inserts_and_delete() {
    let mut db = TestDb::new();
    db.execute("CREATE TABLE t (id INTEGER PRIMARY KEY, v TEXT)");
    db.execute("INSERT INTO t (id, v) VALUES (3, 'c')");
    db.execute("INSERT INTO t (id, v) VALUES (1, 'a')");
    db.execute("INSERT INTO t (id, v) VALUES (2, 'b')");
    let all = db.query("SELECT * FROM t");
    let ids: Vec<Value> = all.rows.iter().map(|r| r.values[0].clone()).collect();
    assert_eq!(ids, vec![Value::Integer(1), Value::Integer(2), Value::Integer(3)]);
    db.execute("DELETE FROM t WHERE id = 2");
    let rest = db.query("SELECT v FROM t");
    let vs: Vec<Value> = rest.rows.iter().map(|r| r.values[0].clone()).collect();
    assert_eq!(vs, vec![Value::Text("a".to_string()), Value::Text("c".to_string())]);
}
