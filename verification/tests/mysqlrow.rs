use rust_query::mysqlrow::{merge_rows, RowFlatten};

#[derive(Debug, Clone, PartialEq)]
struct User {
    id: i32,
    pets: Vec<i32>,
}

struct Rows(Vec<User>);

impl RowFlatten<User> for Rows {
    fn row_flatten(&self) -> Vec<User> {
        merge_rows(
            &self.0,
            |a: &User, b: &User| a.id == b.id,
            |a: &User, b: &User| {
                let mut m = a.clone();
                m.pets.extend(b.pets.clone());
                m
            },
            |a: &User| a.clone(),
        )
    }
}

#[test]
fn merge_rows_groups_by_identifier_in_first_order() {
    let rows = Rows(vec![
        User { id: 1, pets: vec![1] },
        User { id: 2, pets: vec![1] },
        User { id: 1, pets: vec![2] },
        User { id: 1, pets: vec![3] },
    ]);
    assert_eq!(
        rows.row_flatten(),
        vec![User { id: 1, pets: vec![1, 2, 3] }, User { id: 2, pets: vec![1] }]
    );
    assert_eq!(Rows(vec![]).row_flatten(), vec![]);
}
