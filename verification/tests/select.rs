use rust_query::column::Column;
use rust_query::column_map::{columns_eq, ColumnMap};
use rust_query::query::select::Select;

fn test_columns() -> ColumnMap<Column> {
    let mut cols: ColumnMap<Column> = ColumnMap::new();
    cols.insert("test", vec![Column::new("id", false), Column::new("nom", false)]);
    cols
}

#[test]
fn select_with_clauses() {
    let mut s = Select::new(test_columns(), vec!["test".to_owned()]);
    assert_eq!(s.to_string(), "SELECT test.id AS test_id, test.nom AS test_nom FROM test;");
    s.wheres("test.id > 1".to_owned()).limit(10).offset(20);
    assert_eq!(
        s.to_string(),
        "SELECT test.id AS test_id, test.nom AS test_nom FROM test WHERE test.id > 1 LIMIT 10 OFFSET 20;"
    );
}

#[test]
fn select_clauses_in_fixed_order_last_value_counts() {
    let mut s = Select::new(test_columns(), vec!["test".to_owned(), "INNER JOIN x ON a = x.b".to_owned()]);
    s.offset(1).limit(2).orderbys("test.id DESC".to_owned()).wheres("1 = 1".to_owned());
    s.limit(3);
    assert_eq!(
        s.to_string(),
        "SELECT test.id AS test_id, test.nom AS test_nom FROM test INNER JOIN x ON a = x.b \
         WHERE 1 = 1 ORDER BY test.id DESC LIMIT 3 OFFSET 1;"
    );
}

#[test]
fn select_empty() {
    let s = Select::new(ColumnMap::new(), vec![]);
    assert_eq!(s.to_string(), "SELECT  FROM ;");
    let mut s = Select::new(ColumnMap::new(), vec!["t".to_owned()]);
    s.limit(0);
    assert_eq!(s.to_string(), "SELECT  FROM t LIMIT 0;");
}

#[test]
fn select_several_tables() {
    let mut cols = test_columns();
    cols.insert("prof", vec![Column::new("id", false)]);
    cols.insert("empty", vec![]);
    let s = Select::new(cols, vec!["test".to_owned()]);
    assert_eq!(
        s.to_string(),
        "SELECT test.id AS test_id, test.nom AS test_nom, prof.id AS prof_id FROM test;"
    );
}

#[test]
fn column_map_insert_replaces_in_place() {
    let mut m: ColumnMap<Column> = ColumnMap::new();
    m.insert("a", vec![Column::new("x", false)]);
    m.insert("b", vec![Column::new("y", false)]);
    m.insert("a", vec![Column::new("z", true)]);
    assert_eq!(m.len(), 2);
    assert_eq!(m.key(0), "a");
    assert_eq!(m.columns(0)[0].name(), "z");
    assert!(m.columns(0)[0].foreign());
    assert_eq!(m.position("b"), Some(1));
    assert_eq!(m.position("c"), None);
    assert!(m.get("c").is_none());
    assert_eq!(m.get("b").map(|c| c.len()), Some(1));
}

#[test]
fn column_map_extend_and_compare() {
    let mut m: ColumnMap<Column> = ColumnMap::new();
    m.insert("a", vec![Column::new("x", false)]);
    let mut other: ColumnMap<Column> = ColumnMap::new();
    other.insert("c", vec![Column::new("w", false)]);
    other.insert("a", vec![Column::new("v", false)]);
    m.extend(other);
    assert_eq!(m.len(), 2);
    assert_eq!(m.key(0), "a");
    assert_eq!(m.columns(0)[0].name(), "v");
    assert_eq!(m.key(1), "c");
    let copy = m.duplicate();
    assert!(copy.same_map(&m));
    let mut n: ColumnMap<Column> = ColumnMap::new();
    n.insert("c", vec![Column::new("w", false)]);
    assert!(!n.same_map(&m));
    n.insert("a", vec![Column::new("v", false)]);
    assert!(n.same_map(&m));
    n.insert("a", vec![Column::new("v", true)]);
    assert!(!n.same_map(&m));
    assert!(columns_eq(&vec![Column::new("a", true)], &vec![Column::new("a", true)]));
    assert!(!columns_eq(&vec![Column::new("a", true)], &vec![Column::new("a", false)]));
}

#[test]
fn column_accessors() {
    let c = Column::new("score", false);
    assert_eq!(c.name(), "score");
    assert!(!c.foreign());
    let f = Column::new("test", true);
    assert!(f.foreign());
}
