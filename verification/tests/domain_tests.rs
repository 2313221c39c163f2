use strata::domain::CategoryId;

#[test]
fn domain_test_category_id_new() {
    let id1 = CategoryId::new(1);
    let id2 = CategoryId::new(2);
    assert_ne!(id1, id2);
    assert_eq!(id1, CategoryId::new(1));
}

#[test]
fn main_test_category_id_new() {
    let id1 = CategoryId::new(1);
    let id2 = CategoryId::new(2);
    assert_ne!(id1, id2);
    assert_eq!(id1, CategoryId::new(1));
}
