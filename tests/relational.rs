use burrow_db::relational::{RelationalDB, Row, Table};
use burrow_db::value::Value;

fn row(id: &str, cells: Vec<(&str, Value)>) -> Row {
    Row { id: id.to_string(), data: cells.into_iter().map(|(k, v)| (k.to_string(), v)).collect() }
}

fn row_ids(rows: &[&Row]) -> Vec<String> {
    rows.iter().map(|r| r.id.clone()).collect()
}

#[test]
fn serialization_is_canonical() {
    assert_eq!(Value::String("tag_5".to_string()).serialized(), "\"tag_5\"");
    assert_eq!(Value::Number(-42).serialized(), "-42");
    assert_eq!(Value::Number(7).serialized(), "7");
    let obj = Value::Object(vec![
        ("a".to_string(), Value::Number(1)),
        ("b".to_string(), Value::Object(vec![("c".to_string(), Value::String("x".to_string()))])),
    ]);
    assert_eq!(obj.serialized(), "{\"a\":1,\"b\":{\"c\":\"x\"}}");
    assert_eq!(Value::Object(vec![]).serialized(), "{}");
}

#[test]
fn table_insert_indexes_each_cell() {
    let mut t = Table::new("people".to_string());
    t.insert(row("r1", vec![("name", Value::String("Ann".to_string())), ("age", Value::Number(30))]));
    t.insert(row("r2", vec![("name", Value::String("Bob".to_string())), ("age", Value::Number(30))]));
    assert_eq!(row_ids(&t.find_by_column("name", "\"Ann\"")), vec!["r1".to_string()]);
    assert_eq!(row_ids(&t.find_by_column("age", "30")), vec!["r1".to_string(), "r2".to_string()]);
    assert!(t.find_by_column("age", "\"30\"").is_empty());
    assert!(t.find_by_column("name", "Ann").is_empty());
    assert_eq!(t.get("r2").unwrap().id, "r2");
    assert!(t.get("r3").is_none());
    assert_eq!(t.len(), 2);
}

#[test]
fn table_reinsert_replaces_row_and_keeps_old_entries() {
    let mut t = Table::new("t".to_string());
    t.insert(row("r1", vec![("k", Value::Number(1))]));
    t.insert(row("r1", vec![("k", Value::Number(2))]));
    assert_eq!(t.len(), 1);
    assert_eq!(t.find_by_column("k", "1").len(), 1);
    assert_eq!(t.find_by_column("k", "2").len(), 1);
    assert!(matches!(t.get("r1").unwrap().data[0].1, Value::Number(2)));
}

#[test]
fn insert_into_missing_table_is_a_no_op() {
    let mut db = RelationalDB::new();
    db.create_table("documents".to_string());
    db.insert("nowhere", row("r1", vec![("c", Value::Number(1))]));
    assert!(db.find_by_column("nowhere", "c", "1").is_empty());
    assert!(db.get("nowhere", "r1").is_none());
    assert_eq!(db.len(), 1);
    assert_eq!(db.table_named("documents").unwrap().len(), 0);
    assert!(db.table_named("nowhere").is_none());
}

#[test]
fn database_insert_and_lookup() {
    let mut db = RelationalDB::new();
    db.create_table("tags".to_string());
    db.insert("tags", row("tag_0_1", vec![("doc_id", Value::String("doc_0".to_string())), ("tag", Value::String("tag_3".to_string()))]));
    assert_eq!(row_ids(&db.find_by_column("tags", "tag", "\"tag_3\"")), vec!["tag_0_1".to_string()]);
    assert_eq!(db.get("tags", "tag_0_1").unwrap().id, "tag_0_1");
    assert!(db.get("tags", "tag_9_1").is_none());
}

#[test]
fn create_table_twice_empties_it() {
    let mut db = RelationalDB::new();
    db.create_table("t".to_string());
    db.insert("t", row("r", vec![("c", Value::Number(1))]));
    db.create_table("t".to_string());
    assert!(db.get("t", "r").is_none());
    assert!(db.find_by_column("t", "c", "1").is_empty());
    assert_eq!(db.len(), 1);
}
