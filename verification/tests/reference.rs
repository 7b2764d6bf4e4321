use rust_query::reference::{parse_reference, reference_is_well_formed};

#[test]
fn reference_without_on_uses_the_given_table() {
    let mut table = "test_prof".to_owned();
    let clause = parse_reference(&mut table, "test", None, "test_id = id");
    assert_eq!(clause, "test ON test_prof.test_id = test.id");
    assert_eq!(table, "test");
}

#[test]
fn reference_with_on_names_its_own_table() {
    let mut table = "user".to_owned();
    let clause = parse_reference(&mut table, "category", None, "category_user ON id = user_id");
    assert_eq!(clause, "category_user ON user.id = category_user.user_id");
    assert_eq!(table, "category_user");
}

#[test]
fn reference_after_a_previous_one() {
    let mut table = "category_user".to_owned();
    let clause = parse_reference(
        &mut table,
        "category",
        Some("category_user ON id = user_id"),
        "category_id = id",
    );
    assert_eq!(clause, "category ON category_user.category_id = category.id");
    assert_eq!(table, "category");
}

#[test]
fn reference_previous_without_on_keeps_current_table() {
    let mut table = "pet".to_owned();
    let clause = parse_reference(&mut table, "owner", Some("id = pet_id"), "owner_id = id");
    assert_eq!(clause, "owner ON pet.owner_id = owner.id");
    assert_eq!(table, "owner");
}

#[test]
fn reference_qualified_columns_stay() {
    let mut table = "user".to_owned();
    let clause = parse_reference(&mut table, "pet", None, "category_pet ON category.id = category_id");
    assert_eq!(clause, "category_pet ON category.id = category_pet.category_id");
    let mut table = "a".to_owned();
    let clause = parse_reference(&mut table, "b", None, "x = b.y");
    assert_eq!(clause, "b ON a.x = b.y");
}

#[test]
fn reference_several_conditions_alternate_tables() {
    let mut table = "p".to_owned();
    let clause = parse_reference(&mut table, "ignored", None, "t ON a = b AND c = d");
    assert_eq!(clause, "t ON p.a = t.b AND p.c = t.d");
    assert_eq!(table, "t");
}

#[test]
fn reference_extra_white_space_is_ignored() {
    let mut table = "p".to_owned();
    let clause = parse_reference(&mut table, "t", None, "  a\t=\n b  ");
    assert_eq!(clause, "t ON p.a = t.b");
}

#[test]
fn reference_single_column() {
    let mut table = "a".to_owned();
    assert_eq!(parse_reference(&mut table, "b", None, "id"), "b ON  b.id");
}

#[test]
fn reference_well_formedness() {
    assert!(reference_is_well_formed("test_id = id"));
    assert!(reference_is_well_formed("id"));
    assert!(reference_is_well_formed("t ON a = b"));
    assert!(!reference_is_well_formed("t ON a ON b"));
    assert!(!reference_is_well_formed("a ="));
    assert!(!reference_is_well_formed(""));
    assert!(!reference_is_well_formed("t ON "));
}
