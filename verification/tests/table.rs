use rust_query::column::Column;
use rust_query::column_map::ColumnMap;
use rust_query::joins::{collect_columns, references_are_ok, select_from, select_joins};
use rust_query::table::{reference_eq, Queries, Reference, ReferenceJoin, Table};

struct Test {
    id: i32,
}

impl Table for Test {
    fn identifiers() -> Vec<Column> {
        vec![Column::new("id", false)]
    }
    fn id_eq(&self, b: &Self) -> bool {
        self.id == b.id
    }
    fn table_name() -> &'static str {
        "test"
    }
    fn columns() -> Vec<Column> {
        vec![Column::new("id", false), Column::new("nom", false)]
    }
    fn references() -> Vec<Reference> {
        vec![]
    }
}

struct Test2 {
    id: i32,
}

impl Table for Test2 {
    fn identifiers() -> Vec<Column> {
        vec![Column::new("id", false)]
    }
    fn id_eq(&self, b: &Self) -> bool {
        self.id == b.id
    }
    fn table_name() -> &'static str {
        "prof"
    }
    fn columns() -> Vec<Column> {
        vec![Column::new("id", false), Column::new("nom", false)]
    }
    fn references() -> Vec<Reference> {
        vec![]
    }
}

struct Test3 {
    test: Test,
    prof: Test2,
}

impl Table for Test3 {
    fn identifiers() -> Vec<Column> {
        vec![Column::new("test", true), Column::new("prof", true)]
    }
    fn id_eq(&self, b: &Self) -> bool {
        self.test.id_eq(&b.test) && self.prof.id_eq(&b.prof)
    }
    fn table_name() -> &'static str {
        "test_prof"
    }
    fn columns() -> Vec<Column> {
        vec![Column::new("test", true), Column::new("prof", true), Column::new("score", false)]
    }
    fn references() -> Vec<Reference> {
        vec![
            Reference {
                join: ReferenceJoin::from(2),
                to_table_name: Test::table_name(),
                from_table_name: Test3::table_name(),
                identifiers: vec!["test_id = id".to_owned()],
                all_columns: Test::all_columns(),
                references: Test::references(),
            },
            Reference {
                join: ReferenceJoin::from(2),
                to_table_name: Test2::table_name(),
                from_table_name: Test3::table_name(),
                identifiers: vec!["prof_id = id".to_owned()],
                all_columns: Test2::all_columns(),
                references: Test2::references(),
            },
        ]
    }
}

fn column_names(m: &ColumnMap<Column>, i: usize) -> Vec<&'static str> {
    m.columns(i).iter().map(|c| c.name()).collect()
}

#[test]
fn table_all_columns_keeps_own_then_referenced() {
    let m = Test3::all_columns();
    assert_eq!(m.len(), 3);
    assert_eq!(m.key(0), "test_prof");
    assert_eq!(column_names(&m, 0), vec!["score"]);
    assert_eq!(m.key(1), "test");
    assert_eq!(column_names(&m, 1), vec!["id", "nom"]);
    assert_eq!(m.key(2), "prof");
    assert_eq!(column_names(&m, 2), vec!["id", "nom"]);
}

#[test]
fn table_select_all() {
    let s = Test3::select_all().expect("references are well formed");
    assert_eq!(
        s.to_string(),
        "SELECT test_prof.score AS test_prof_score, test.id AS test_id, test.nom AS test_nom, \
         prof.id AS prof_id, prof.nom AS prof_nom FROM test_prof \
         INNER JOIN test ON test_prof.test_id = test.id INNER JOIN prof ON test_prof.prof_id = prof.id;"
    );
    let s = Test::select_all().unwrap();
    assert_eq!(s.to_string(), "SELECT test.id AS test_id, test.nom AS test_nom FROM test;");
}

fn category() -> Reference {
    Reference {
        join: ReferenceJoin::Multiple,
        from_table_name: "user",
        to_table_name: "category",
        identifiers: vec!["category_user ON id = user_id".to_owned(), "category_id = id".to_owned()],
        all_columns: ColumnMap::new(),
        references: vec![],
    }
}

fn info(join: ReferenceJoin) -> Reference {
    Reference {
        join,
        from_table_name: "user",
        to_table_name: "user_info",
        identifiers: vec!["id = user_id".to_owned()],
        all_columns: ColumnMap::new(),
        references: vec![],
    }
}

#[test]
fn table_joins_of_chained_identifiers() {
    let joins = select_joins("user", vec![category(), info(ReferenceJoin::OneOrNone)]);
    assert_eq!(
        joins,
        vec![
            "user".to_owned(),
            "INNER JOIN category_user ON user.id = category_user.user_id".to_owned(),
            "INNER JOIN category ON category_user.category_id = category.id".to_owned(),
            "LEFT JOIN user_info ON user.id = user_info.user_id".to_owned(),
        ]
    );
}

#[test]
fn table_reference_reached_twice_joins_once() {
    let mut first = info(ReferenceJoin::ExaclyOne);
    first.references = vec![category()];
    let mut second = category();
    second.from_table_name = "user";
    let joins = select_joins("user", vec![first, second]);
    assert_eq!(
        joins,
        vec![
            "user".to_owned(),
            "INNER JOIN user_info ON user.id = user_info.user_id".to_owned(),
            "INNER JOIN category_user ON user.id = category_user.user_id".to_owned(),
            "INNER JOIN category ON category_user.category_id = category.id".to_owned(),
        ]
    );
}

#[test]
fn table_nested_references_come_after_the_queue() {
    let mut a = info(ReferenceJoin::MultipleEmpty);
    let mut inner = category();
    inner.from_table_name = "user_info";
    a.references = vec![inner];
    let b = info(ReferenceJoin::MultipleOption);
    let mut b = b;
    b.to_table_name = "other";
    b.identifiers = vec!["o ON k = k".to_owned()];
    let joins = select_joins("user", vec![a, b]);
    assert_eq!(joins[1], "LEFT JOIN user_info ON user.id = user_info.user_id");
    assert_eq!(joins[2], "LEFT JOIN o ON user.k = o.k");
    assert_eq!(joins[3], "INNER JOIN category_user ON user_info.id = category_user.user_id");
    assert_eq!(joins.len(), 5);
}

#[test]
fn table_malformed_references() {
    let mut bad = category();
    bad.identifiers = vec![];
    assert!(!references_are_ok(&vec![bad]));
    let mut bad = category();
    bad.identifiers = vec!["a ON b ON c".to_owned()];
    assert!(!references_are_ok(&vec![bad]));
    let mut deep = info(ReferenceJoin::ExaclyOne);
    let mut bad = category();
    bad.identifiers = vec!["a =".to_owned()];
    deep.references = vec![bad];
    assert!(!references_are_ok(&vec![deep]));
    assert!(references_are_ok(&vec![category(), info(ReferenceJoin::OneOrNone)]));
}

#[test]
fn table_select_from() {
    let mut cols: ColumnMap<Column> = ColumnMap::new();
    cols.insert("user", vec![Column::new("id", false)]);
    let s = select_from("user", vec![info(ReferenceJoin::ExaclyOne)], cols);
    assert_eq!(
        s.to_string(),
        "SELECT user.id AS user_id FROM user INNER JOIN user_info ON user.id = user_info.user_id;"
    );
}

#[test]
fn table_collect_columns_overrides_by_table() {
    let mut r = info(ReferenceJoin::ExaclyOne);
    let mut m = ColumnMap::new();
    m.insert("user", vec![Column::new("other", false)]);
    m.insert("user_info", vec![Column::new("uuid", false)]);
    r.all_columns = m;
    let cols = collect_columns(
        "user",
        vec![Column::new("id", false), Column::new("info", true), Column::new("nom", false)],
        vec![r],
    );
    assert_eq!(cols.len(), 2);
    assert_eq!(cols.key(0), "user");
    assert_eq!(column_names(&cols, 0), vec!["other"]);
    assert_eq!(column_names(&cols, 1), vec!["uuid"]);
}

#[test]
fn table_reference_join_codes() {
    let all = [
        ReferenceJoin::OneOrNone,
        ReferenceJoin::ExaclyOne,
        ReferenceJoin::Multiple,
        ReferenceJoin::MultipleOption,
        ReferenceJoin::MultipleEmpty,
        ReferenceJoin::MultipleOptionEmpty,
    ];
    let codes: Vec<u8> = all.iter().map(|j| j.as_u8()).collect();
    assert_eq!(codes, vec![1, 2, 4, 8, 16, 32]);
    for j in all {
        assert_eq!(ReferenceJoin::from(j.as_u8()), j);
        assert_eq!(ReferenceJoin::from_u8(j.as_u8()), Some(j));
    }
    assert_eq!(ReferenceJoin::from_u8(3), None);
    assert_eq!(ReferenceJoin::from_u8(0), None);
    let inner: Vec<bool> = all.iter().map(|j| j.is_inner()).collect();
    assert_eq!(inner, vec![false, true, true, false, false, false]);
}

#[test]
fn table_reference_equality_and_clone() {
    let a = category();
    let b = a.clone();
    assert!(reference_eq(&a, &b));
    let mut c = category();
    c.identifiers.push("x = y".to_owned());
    assert!(!reference_eq(&a, &c));
    let mut m1 = ColumnMap::new();
    m1.insert("a", vec![Column::new("x", false)]);
    m1.insert("b", vec![Column::new("y", true)]);
    let mut m2 = ColumnMap::new();
    m2.insert("b", vec![Column::new("y", true)]);
    m2.insert("a", vec![Column::new("x", false)]);
    let mut d = category();
    d.all_columns = m1;
    let mut e = category();
    e.all_columns = m2;
    assert!(reference_eq(&d, &e));
    assert!(d == e);
    assert!(a != c);
    assert!(Column::new("x", false) == Column::new("x", false));
    assert!(Column::new("x", false) != Column::new("x", true));
}
