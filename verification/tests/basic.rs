use rust_query::basic::column::Column;
use rust_query::basic::select::Select;
use rust_query::column_map::ColumnMap;

#[test]
fn basic_select_text() {
    let mut cols: ColumnMap<Column> = ColumnMap::new();
    cols.insert("test", vec![Column::new("id"), Column::new("nom")]);
    cols.insert("prof", vec![Column::new("id")]);
    let s = Select::new(cols, vec!["test".to_owned(), "JOIN prof".to_owned()]);
    assert_eq!(s.to_string(), "SELECT test.id, test.nom, prof.id FROM test JOIN prof;");
    assert_eq!(Column::new("x").name(), "x");
}

use rust_query::basic::derive::table_derive;
use rust_query::basic::table::{Queries, Table};
use rust_query::derive::{Field, FieldType};

struct Pet;

impl Table for Pet {
    fn table_name() -> &'static str {
        "Pet"
    }
    fn columns() -> Vec<Column> {
        vec![Column::new("id"), Column::new("nom")]
    }
}

#[test]
fn basic_select_all_selects_the_table() {
    assert_eq!(Pet::select_all().to_string(), "SELECT Pet.id, Pet.nom FROM Pet;");
}

#[test]
fn basic_table_derive_names() {
    let fields = vec![
        Field { ident: Some("id".to_owned()), attrs: vec![], ty: FieldType::Other },
        Field { ident: Some("nom".to_owned()), attrs: vec![], ty: FieldType::Other },
    ];
    let d = table_derive("Pet", &fields).unwrap();
    assert_eq!(d.table_name, "Pet");
    assert_eq!(d.columns, vec!["id".to_owned(), "nom".to_owned()]);
    let tuple = vec![Field { ident: None, attrs: vec![], ty: FieldType::Other }];
    assert!(table_derive("Pet", &tuple).is_none());
}
