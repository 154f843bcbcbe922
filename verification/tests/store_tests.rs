use rusty_store::store::Store;
use rusty_store::StoreError;

#[test]
fn add_edit_delete_product() {
    let mut store = Store::new();
    let p = store.add_product("P".into(), "D".into(), 999, 10);
    assert_eq!(p.id, 1);
    let edited = store
        .edit_product(p.id, Some("P2".into()), None, Some(1000), Some(5))
        .unwrap();
    assert_eq!(edited.name, "P2");
    assert_eq!(edited.price, 1000);
    assert_eq!(edited.quantity, 5);
    assert!(store.delete_product(p.id).is_ok());
    assert!(store.delete_product(999).is_err());
}

#[test]
fn purchase_and_sales() {
    let mut store = Store::new();
    let p = store.add_product("A".into(), "desc".into(), 500, 2);
    let pur = store.record_purchase(p.id, 10, 400).unwrap();
    assert_eq!(pur.quantity, 10);
    assert_eq!(store.total_purchases_cost(), 4000);
    let sale = store.record_sale(p.id, 5, 700).unwrap();
    assert_eq!(sale.quantity, 5);
    let prod = store.find_product(p.id).unwrap();
    assert_eq!(prod.quantity, 7);
}

#[test]
fn auth_and_manager() {
    let mut store = Store::new();
    store.add_manager("test", "1234");
    assert!(store.authenticate("test", "1234"));
    assert!(!store.authenticate("test", "wrong"));
}

#[test]
fn add_product_uses_and_advances_counter() {
    let mut store = Store::new();
    assert_eq!(store.next_product_id, 1);
    let a = store.add_product("a".into(), "".into(), 100, 1);
    assert_eq!(a.id, 1);
    assert_eq!(store.next_product_id, 2);
    let b = store.add_product("b".into(), "".into(), 200, 2);
    assert_eq!(b.id, 2);
    assert_eq!(store.next_product_id, 3);
}

#[test]
fn deleted_ids_are_never_reused() {
    let mut store = Store::new();
    let a = store.add_product("a".into(), "".into(), 100, 1);
    let _b = store.add_product("b".into(), "".into(), 200, 2);
    store.delete_product(a.id).unwrap();
    let c = store.add_product("c".into(), "".into(), 300, 3);
    assert_eq!(c.id, 3);
}

#[test]
fn edit_with_all_fields_omitted_changes_nothing() {
    let mut store = Store::new();
    let p = store.add_product("same".into(), "thing".into(), 123, 4);
    let r = store.edit_product(p.id, None, None, None, None).unwrap();
    assert_eq!(r.name, "same");
    assert_eq!(r.description, "thing");
    assert_eq!(r.price, 123);
    assert_eq!(r.quantity, 4);
}

#[test]
fn edit_with_subset_changes_only_those_fields() {
    let mut store = Store::new();
    let p = store.add_product("name".into(), "desc".into(), 100, 5);
    let r = store.edit_product(p.id, None, None, Some(250), None).unwrap();
    assert_eq!(r.name, "name");
    assert_eq!(r.description, "desc");
    assert_eq!(r.price, 250);
    assert_eq!(r.quantity, 5);
}

#[test]
fn edit_unknown_product_is_not_found() {
    let mut store = Store::new();
    let r = store.edit_product(7, Some("x".into()), None, None, None);
    assert_eq!(r.unwrap_err(), StoreError::NotFound);
}

#[test]
fn delete_then_find_yields_nothing() {
    let mut store = Store::new();
    let p = store.add_product("gone".into(), "".into(), 10, 1);
    store.delete_product(p.id).unwrap();
    assert!(store.find_product(p.id).is_none());
}

#[test]
fn purchase_increases_quantity_and_appends_entry() {
    let mut store = Store::new();
    let p = store.add_product("stocked".into(), "".into(), 50, 3);
    assert_eq!(store.next_purchase_id, 1);
    let pur = store.record_purchase(p.id, 7, 40).unwrap();
    assert_eq!(pur.id, 1);
    assert_eq!(pur.product_id, p.id);
    assert_eq!(store.next_purchase_id, 2);
    assert_eq!(store.purchases.len(), 1);
    assert_eq!(store.find_product(p.id).unwrap().quantity, 10);
}

#[test]
fn purchase_rejects_zero_quantity_and_unknown_product() {
    let mut store = Store::new();
    let p = store.add_product("x".into(), "".into(), 50, 3);
    assert_eq!(
        store.record_purchase(p.id, 0, 40).unwrap_err(),
        StoreError::InvalidInput
    );
    assert_eq!(
        store.record_purchase(99, 1, 40).unwrap_err(),
        StoreError::NotFound
    );
    assert_eq!(store.find_product(p.id).unwrap().quantity, 3);
    assert!(store.purchases.is_empty());
}

#[test]
fn sale_errors_leave_state_unchanged() {
    let mut store = Store::new();
    let p = store.add_product("y".into(), "".into(), 50, 3);
    assert_eq!(
        store.record_sale(p.id, 0, 60).unwrap_err(),
        StoreError::InvalidInput
    );
    assert_eq!(
        store.record_sale(42, 1, 60).unwrap_err(),
        StoreError::NotFound
    );
    assert_eq!(
        store.record_sale(p.id, 4, 60).unwrap_err(),
        StoreError::InsufficientStock
    );
    assert_eq!(store.find_product(p.id).unwrap().quantity, 3);
    assert!(store.sales.is_empty());
}

#[test]
fn totals_and_profit_match_closed_form_sums() {
    let mut store = Store::new();
    let a = store.add_product("a".into(), "".into(), 100, 0);
    let b = store.add_product("b".into(), "".into(), 200, 0);
    store.record_purchase(a.id, 10, 90).unwrap();
    store.record_purchase(b.id, 5, 150).unwrap();
    store.record_sale(a.id, 4, 120).unwrap();
    store.record_sale(b.id, 2, 260).unwrap();
    assert_eq!(store.total_sales(), 4 * 120 + 2 * 260);
    assert_eq!(store.total_purchases_cost(), 10 * 90 + 5 * 150);
    assert_eq!(store.profit(), (4 * 120 + 2 * 260) - (10 * 90 + 5 * 150));
}

#[test]
fn profit_can_be_negative() {
    let mut store = Store::new();
    let a = store.add_product("a".into(), "".into(), 100, 0);
    store.record_purchase(a.id, 10, 90).unwrap();
    assert_eq!(store.profit(), -900);
}

#[test]
fn scenario_widget_sale() {
    let mut store = Store::new();
    store.add_product("Widget".into(), "desc".into(), 500, 10);
    let sale = store.record_sale(1, 4, 700).unwrap();
    assert_eq!(sale.quantity, 4);
    assert_eq!(store.find_product(1).unwrap().quantity, 6);
    assert_eq!(store.total_sales(), 2800);
    assert_eq!(
        store.record_sale(1, 10, 700).unwrap_err(),
        StoreError::InsufficientStock
    );
    assert_eq!(store.find_product(1).unwrap().quantity, 6);
}

#[test]
fn default_manager_authenticates() {
    let store = Store::new();
    assert!(store.authenticate("admin", "password"));
    assert!(!store.authenticate("admin", "Password"));
    assert!(!store.authenticate("root", "password"));
}

#[test]
fn stored_hash_is_the_sha256_hex_digest() {
    let store = Store::new();
    assert_eq!(store.managers.len(), 1);
    assert_eq!(store.managers[0].username, "admin");
    assert_eq!(
        store.managers[0].password_hash,
        "5e884898da28047151d0e56f8dc6292773603d0d6aabbdd62a11ef721d1542d8"
    );
}

#[test]
fn duplicate_usernames_are_permitted() {
    let mut store = Store::new();
    store.add_manager("twin", "first");
    store.add_manager("twin", "second");
    assert_eq!(store.managers.len(), 3);
    assert!(store.authenticate("twin", "first"));
    assert!(store.authenticate("twin", "second"));
}

#[test]
fn totals_handle_extreme_values() {
    let mut store = Store::new();
    let a = store.add_product("bulk".into(), "".into(), u32::MAX, 0);
    store.record_purchase(a.id, u32::MAX, u32::MAX).unwrap();
    store.record_sale(a.id, u32::MAX, u32::MAX).unwrap();
    let expected = (u32::MAX as u128) * (u32::MAX as u128);
    assert_eq!(store.total_sales(), expected);
    assert_eq!(store.total_purchases_cost(), expected);
    assert_eq!(store.profit(), 0);
    assert_eq!(store.find_product(a.id).unwrap().quantity, 0);
}
