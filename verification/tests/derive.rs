use rust_query::column::Column;
use rust_query::column_map::ColumnMap;
use rust_query::query::select::Select;
use rust_query::derive::{
    mysqlrow_derive, table_derive, foreign_key_identifiers, get_attribute, get_inner_type, reference_join, row_plan,
    strip_wrappers, table_columns, table_name, table_references, Attribute, Field, FieldRead,
    FieldType, GenericArgument, PathArguments, PathSegment, TypePath, FOREIGN_KEY, OPTION,
    PRIMARY_KEY, TABLE_NAME, VEC,
};
use rust_query::table::ReferenceJoin;

fn seg(name: &str, args: Vec<FieldType>) -> PathSegment {
    PathSegment {
        ident: name.to_owned(),
        arguments: if args.is_empty() {
            PathArguments::Bare
        } else {
            PathArguments::AngleBracketed(args.into_iter().map(GenericArgument::Type).collect())
        },
    }
}

fn path(segments: Vec<PathSegment>) -> FieldType {
    FieldType::Path(TypePath { qself: false, segments })
}

fn named(name: &str) -> FieldType {
    path(vec![seg(name, vec![])])
}

fn option(t: FieldType) -> FieldType {
    path(vec![seg("Option", vec![t])])
}

fn vec_of(t: FieldType) -> FieldType {
    path(vec![seg("Vec", vec![t])])
}

fn attr(name: &str) -> Attribute {
    Attribute { leading_colon: false, path: vec![seg(name, vec![])], lit_str: None, literals: None }
}

fn foreign_key(lits: &[&str]) -> Attribute {
    Attribute {
        leading_colon: false,
        path: vec![seg(FOREIGN_KEY, vec![])],
        lit_str: None,
        literals: Some(lits.iter().map(|s| s.to_string()).collect()),
    }
}

fn shown(t: &FieldType) -> String {
    match t {
        FieldType::Path(p) => p.segments.iter().map(|s| s.ident.clone()).collect::<Vec<_>>().join("::"),
        FieldType::Slice(_) => "[]".to_owned(),
        FieldType::Other => "?".to_owned(),
    }
}

#[test]
fn derive_inner_type_of_option_and_vec() {
    let t = option(named("Pet"));
    assert_eq!(shown(get_inner_type(OPTION, &t).unwrap()), "Pet");
    assert!(get_inner_type(VEC, &t).is_none());
    let full = path(vec![
        seg("std", vec![]),
        seg("option", vec![]),
        seg("Option", vec![named("Pet")]),
    ]);
    assert_eq!(shown(get_inner_type(OPTION, &full).unwrap()), "Pet");
    let wrong = path(vec![seg("core", vec![]), seg("Option", vec![named("Pet")])]);
    assert!(get_inner_type(OPTION, &wrong).is_none());
    let two = path(vec![seg("Option", vec![named("A"), named("B")])]);
    assert!(get_inner_type(OPTION, &two).is_none());
    let qualified = FieldType::Path(TypePath { qself: true, segments: vec![seg("Option", vec![named("A")])] });
    assert!(get_inner_type(OPTION, &qualified).is_none());
    assert!(get_inner_type(OPTION, &FieldType::Other).is_none());
    assert!(get_inner_type(OPTION, &path(vec![])).is_none());
}

#[test]
fn derive_reference_joins() {
    let cases = vec![
        (named("Pet"), ReferenceJoin::ExaclyOne, "Pet"),
        (option(named("Pet")), ReferenceJoin::OneOrNone, "Pet"),
        (vec_of(named("Pet")), ReferenceJoin::Multiple, "Pet"),
        (vec_of(option(named("Pet"))), ReferenceJoin::MultipleOption, "Pet"),
        (option(vec_of(named("Pet"))), ReferenceJoin::MultipleEmpty, "Pet"),
        (option(vec_of(option(named("Pet")))), ReferenceJoin::MultipleOptionEmpty, "Pet"),
        (FieldType::Other, ReferenceJoin::ExaclyOne, "?"),
        (FieldType::Slice(Box::new(named("Pet"))), ReferenceJoin::ExaclyOne, "[]"),
        (FieldType::Slice(Box::new(option(named("Pet")))), ReferenceJoin::OneOrNone, "Pet"),
    ];
    for (t, join, target) in cases {
        let (j, found) = reference_join(&t);
        assert_eq!(j, join);
        assert_eq!(shown(found), target);
    }
}

#[test]
fn derive_attributes_and_table_name() {
    let mut named_table = attr(TABLE_NAME);
    named_table.lit_str = Some("prof".to_owned());
    let attrs = vec![attr("derive"), named_table];
    assert_eq!(get_attribute(&attrs, TABLE_NAME).unwrap().lit_str.as_deref(), Some("prof"));
    assert!(get_attribute(&attrs, PRIMARY_KEY).is_none());
    assert_eq!(table_name("Test2", &attrs), "prof");
    assert_eq!(table_name("Test", &vec![attr("derive")]), "Test");
    assert_eq!(table_name("Test", &vec![attr(TABLE_NAME)]), "Test");
    let mut colon = attr(TABLE_NAME);
    colon.leading_colon = true;
    assert!(get_attribute(&[colon], TABLE_NAME).is_none());
}

#[test]
fn derive_foreign_key_identifiers() {
    let lits = |v: &[&str]| v.iter().map(|s| s.to_string()).collect::<Vec<String>>();
    assert_eq!(
        foreign_key_identifiers(&lits(&["\"id = user_id\""])),
        Some(vec!["id = user_id".to_owned()])
    );
    assert_eq!(
        foreign_key_identifiers(&lits(&["\"category_user ON id = user_id\"", "\"category_id = id\""])),
        Some(vec!["category_user ON id = user_id".to_owned(), "category_id = id".to_owned()])
    );
    assert_eq!(
        foreign_key_identifiers(&lits(&["\"a\"", "\"b\"", "\"c\""])),
        Some(vec!["a".to_owned(), "b".to_owned(), "c".to_owned()])
    );
    assert_eq!(foreign_key_identifiers(&lits(&[])), None);
    assert_eq!(foreign_key_identifiers(&lits(&["\"a\"", "5"])), None);
    assert_eq!(foreign_key_identifiers(&lits(&["\"\u{e9}\""])), Some(vec!["\u{e9}\"".to_owned()]));
}

fn field(name: &str, attrs: Vec<Attribute>, ty: FieldType) -> Field {
    Field { ident: Some(name.to_owned()), attrs, ty }
}

fn user_fields() -> Vec<Field> {
    vec![
        field("id", vec![attr(PRIMARY_KEY)], named("i32")),
        field("nom", vec![], named("String")),
        field("categories", vec![foreign_key(&["\"category_user ON id = user_id\"", "\"category_id = id\""])], vec_of(named("Category"))),
        field("info", vec![foreign_key(&["\"id = user_id\""])], option(named("UserInfo"))),
    ]
}

#[test]
fn derive_table_columns() {
    let (ids, cols) = table_columns(&user_fields()).unwrap();
    let names = |v: &Vec<rust_query::derive::ColumnDecl>| {
        v.iter().map(|c| (c.name.clone(), c.foreign)).collect::<Vec<_>>()
    };
    assert_eq!(names(&ids), vec![("id".to_owned(), false)]);
    assert_eq!(
        names(&cols),
        vec![
            ("id".to_owned(), false),
            ("nom".to_owned(), false),
            ("categories".to_owned(), true),
            ("info".to_owned(), true),
        ]
    );
    let tuple = vec![Field { ident: None, attrs: vec![], ty: named("i32") }];
    assert!(table_columns(&tuple).is_none());
}

#[test]
fn derive_table_references() {
    let fields = user_fields();
    let keys = table_references(&fields).unwrap();
    assert_eq!(keys.len(), 2);
    assert_eq!(keys[0].join, ReferenceJoin::Multiple);
    assert_eq!(shown(keys[0].target), "Category");
    assert_eq!(
        keys[0].identifiers,
        vec!["category_user ON id = user_id".to_owned(), "category_id = id".to_owned()]
    );
    assert_eq!(keys[1].identifiers, vec!["id = user_id".to_owned()]);
    assert_eq!(keys[1].join, ReferenceJoin::OneOrNone);
    assert_eq!(shown(keys[1].target), "UserInfo");
    let mut bad = user_fields();
    bad[2].attrs[0].literals = None;
    assert!(table_references(&bad).is_none());
    let mut empty = user_fields();
    empty[3].attrs = vec![foreign_key(&[])];
    assert!(table_references(&empty).is_none());
    let mut short = user_fields();
    short[3].attrs = vec![foreign_key(&["1"])];
    assert!(table_references(&short).is_none());
}

#[test]
fn derive_row_plan() {
    let mut fields = user_fields();
    fields.push(field("pets", vec![foreign_key(&["\"a\"", "\"b\""])], option(vec_of(option(named("Pet"))))));
    let plan = row_plan("user", &fields).unwrap();
    assert_eq!(plan.reads.len(), 5);
    match &plan.reads[0] {
        FieldRead::Column(c) => assert_eq!(c, "user_id"),
        _ => panic!("expected a column"),
    }
    match &plan.reads[1] {
        FieldRead::Column(c) => assert_eq!(c, "user_nom"),
        _ => panic!("expected a column"),
    }
    match &plan.reads[2] {
        FieldRead::Nested { target, in_vec } => {
            assert_eq!(shown(target), "Category");
            assert!(*in_vec);
        }
        _ => panic!("expected a nested read"),
    }
    match &plan.reads[3] {
        FieldRead::Nested { target, in_vec } => {
            assert_eq!(shown(target), "UserInfo");
            assert!(!*in_vec);
        }
        _ => panic!("expected a nested read"),
    }
    match &plan.reads[4] {
        FieldRead::Nested { target, in_vec } => {
            assert_eq!(shown(target), "Pet");
            assert!(*in_vec);
        }
        _ => panic!("expected a nested read"),
    }
    assert_eq!(plan.flattened, vec!["categories".to_owned(), "pets".to_owned()]);
    let t = option(option(named("X")));
    assert_eq!(shown(strip_wrappers(OPTION, &t)), "X");
    let tuple = vec![Field { ident: None, attrs: vec![], ty: named("i32") }];
    assert!(row_plan("t", &tuple).is_none());
}

#[test]
fn derive_table_and_row_decisions() {
    let mut named_table = attr(TABLE_NAME);
    named_table.lit_str = Some("user".to_owned());
    let attrs = vec![named_table];
    let fields = user_fields();
    let d = table_derive("User", &attrs, &fields).unwrap();
    assert_eq!(d.table_name, "user");
    assert_eq!(d.identifiers.len(), 1);
    assert_eq!(d.columns.len(), 4);
    assert_eq!(d.references.len(), 2);
    let r = mysqlrow_derive("User", &attrs, &fields).unwrap();
    assert_eq!(r.table_name, "user");
    assert!(r.row_flatten);
    match &r.plan.reads[1] {
        FieldRead::Column(c) => assert_eq!(c, "user_nom"),
        _ => panic!("expected a column"),
    }
    let plain = vec![field("id", vec![attr(PRIMARY_KEY)], named("i32"))];
    let r = mysqlrow_derive("Test", &vec![], &plain).unwrap();
    assert_eq!(r.table_name, "Test");
    assert!(!r.row_flatten);
    let mut bad = user_fields();
    bad[3].attrs[0].literals = Some(vec![]);
    assert!(table_derive("User", &attrs, &bad).is_none());
    assert!(mysqlrow_derive("User", &attrs, &bad).is_some());
}

#[test]
fn derive_row_reads_the_alias_the_query_gives() {
    let fields = user_fields();
    let d = table_derive("User", &vec![], &fields).unwrap();
    let r = mysqlrow_derive("User", &vec![], &fields).unwrap();
    let mut cols: ColumnMap<Column> = ColumnMap::new();
    cols.insert("User", vec![Column::new("id", false), Column::new("nom", false)]);
    let text = Select::new(cols, vec![d.table_name.clone()]).to_string();
    for i in 0..2 {
        match &r.plan.reads[i] {
            FieldRead::Column(c) => {
                let item = format!("{}.{} AS {}", d.table_name, d.columns[i].name, c);
                assert!(text.contains(&item), "{} in {}", item, text);
            }
            _ => panic!("expected a column"),
        }
    }
}
