use velocidb::parser::{Operator, Parser, Statement};
use velocidb::types::{DataType, Value};

#[test]
fn test_parse_create_table() {
    let parser = Parser::new();
    let stmt = parser
        .parse("CREATE TABLE users (id INTEGER PRIMARY KEY, name TEXT, age INTEGER)")
        .unwrap();

    match stmt {
        Statement::CreateTable { name, columns } => {
            assert_eq!(name, "users");
            assert_eq!(columns.len(), 3);
            assert_eq!(columns[0].name, "id");
            assert!(columns[0].primary_key);
        }
        _ => panic!("Wrong statement type"),
    }
}

#[test]
fn test_parse_insert() {
    let parser = Parser::new();
    let stmt = parser
        .parse("INSERT INTO users (id, name, age) VALUES (1, 'Alice', 30)")
        .unwrap();

    match stmt {
        Statement::Insert { table, columns, values } => {
            assert_eq!(table, "users");
            assert!(columns.is_some());
            assert_eq!(values.len(), 3);
        }
        _ => panic!("Wrong statement type"),
    }
}

#[test]
fn test_parse_select() {
    let parser = Parser::new();
    let stmt = parser.parse("SELECT * FROM users WHERE age > 25").unwrap();

    match stmt {
        Statement::Select { table, columns, where_clause } => {
            assert_eq!(table, "users");
            assert_eq!(columns, vec!["*"]);
            assert!(where_clause.is_some());
        }
        _ => panic!("Wrong statement type"),
    }
}

#[test]
fn test_parse_update() {
    let parser = Parser::new();
    let stmt = parser
        .parse("UPDATE users SET age = 31 WHERE name = 'Alice'")
        .unwrap();

    match stmt {
        Statement::Update { table, assignments, where_clause } => {
            assert_eq!(table, "users");
            assert_eq!(assignments.len(), 1);
            assert!(where_clause.is_some());
        }
        _ => panic!("Wrong statement type"),
    }
}

#[test]
fn test_parse_delete() {
    let parser = Parser::new();
    let stmt = parser.parse("DELETE FROM users WHERE id = 2").unwrap();

    match stmt {
        Statement::Delete { table, where_clause } => {
            assert_eq!(table, "users");
            assert!(where_clause.is_some());
        }
        _ => panic!("Wrong statement type"),
    }
}

#[test]
fn parse_values_and_types() {
    let parser = Parser::new();
    let stmt = parser
        .parse("INSERT INTO t VALUES (-7, 'x y', NULL)")
        .unwrap();
    match stmt {
        Statement::Insert { table, columns, values } => {
            assert_eq!(table, "t");
            assert!(columns.is_none());
            assert_eq!(values, vec![Value::Integer(-7), Value::Text("x y".to_string()), Value::Null]);
        }
        _ => panic!("Wrong statement type"),
    }
    let stmt = parser.parse("CREATE TABLE t (a REAL NOT NULL, b BLOB UNIQUE)").unwrap();
    match stmt {
        Statement::CreateTable { columns, .. } => {
            assert_eq!(columns[0].data_type, DataType::Real);
            assert!(columns[0].not_null);
            assert_eq!(columns[1].data_type, DataType::Blob);
            assert!(columns[1].unique);
        }
        _ => panic!("Wrong statement type"),
    }
}

#[test]
fn parse_rejects_unknown_statement() {
    let parser = Parser::new();
    assert!(parser.parse("VACUUM everything").is_err());
    assert!(parser.parse("").is_err());
}

#[test]
fn parse_drop_table() {
    let parser = Parser::new();
    match parser.parse("DROP TABLE users").unwrap() {
        Statement::DropTable { name } => assert_eq!(name, "users"),
        _ => panic!("Wrong statement type"),
    }
}

#[test]
fn operator_parse_and_evaluate() {
    assert_eq!(Operator::from_str(">=").unwrap(), Operator::GreaterThanOrEqual);
    assert!(Operator::from_str("=>").is_err());
    let ge = Operator::from_str(">=").unwrap();
    assert!(ge.evaluate(&Value::Integer(3), &Value::Integer(3)).unwrap());
    let lt = Operator::from_str("<").unwrap();
    assert!(!lt.evaluate(&Value::Integer(3), &Value::Integer(2)).unwrap());
    let like = Operator::from_str("LIKE").unwrap();
    assert!(like.evaluate(&Value::Text("Alicia".to_string()), &Value::Text("Ali%".to_string())).unwrap());
    assert!(!like.evaluate(&Value::Text("Bob".to_string()), &Value::Text("Ali%".to_string())).unwrap());
    assert!(like.evaluate(&Value::Text("cat".to_string()), &Value::Text("c_t".to_string())).unwrap());
    assert!(lt.evaluate(&Value::Integer(1), &Value::Text("a".to_string())).is_err());
}

#[test]
fn parse_is_case_insensitive_in_keywords_and_types() {
    assert_eq!(DataType::from_str("integer"), DataType::Integer);
    assert_eq!(DataType::from_str("Double"), DataType::Real);
    assert_eq!(DataType::from_str("varchar"), DataType::Text);
    let parser = Parser::new();
    match parser.parse("select name from users where id = 3").unwrap() {
        Statement::Select { table, columns, where_clause } => {
            assert_eq!(table, "users");
            assert_eq!(columns, vec!["name"]);
            assert!(where_clause.is_some());
        }
        _ => panic!("Wrong statement type"),
    }
    match parser.parse("create table t (id int primary key)").unwrap() {
        Statement::CreateTable { columns, .. } => {
            assert_eq!(columns[0].data_type, DataType::Integer);
            assert!(columns[0].primary_key);
            assert!(columns[0].not_null);
        }
        _ => panic!("Wrong statement type"),
    }
}

#[test]
fn parse_unicode_identifiers() {
    let parser = Parser::new();
    match parser.parse("CREATE TABLE caf\u{e9} (id INTEGER)").unwrap() {
        Statement::CreateTable { name, columns } => {
            assert_eq!(name, "caf\u{e9}");
            assert_eq!(columns.len(), 1);
        }
        _ => panic!("Wrong statement type"),
    }
    match parser.parse("DROP TABLE \u{65e5}\u{672c}").unwrap() {
        Statement::DropTable { name } => assert_eq!(name, "\u{65e5}\u{672c}"),
        _ => panic!("Wrong statement type"),
    }
}

#[test]
fn parse_keywords_under_case_folding() {
    let parser = Parser::new();
    match parser.parse("in\u{17f}ert into t VALUES (1)").unwrap() {
        Statement::Insert { table, values, .. } => {
            assert_eq!(table, "t");
            assert_eq!(values.len(), 1);
        }
        _ => panic!("Wrong statement type"),
    }
    match parser.parse("DROP TABLE \u{212a}eep").unwrap() {
        Statement::DropTable { name } => assert_eq!(name, "\u{212a}eep"),
        _ => panic!("Wrong statement type"),
    }
    assert!(parser.parse("DROP \u{212a}ABLE t").is_err());
}
