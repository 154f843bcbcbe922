use rusty_store::store::Store;
use rusty_store::StoreError;

fn populated_store() -> Store {
    let mut store = Store::new();
    let a = store.add_product("Widget".into(), "a small widget".into(), 500, 10);
    let b = store.add_product("Gädget".into(), "uni\ncode \"desc\"".into(), 999, 0);
    store.add_manager("alice", "s3cret");
    store.record_purchase(b.id, 8, 700).unwrap();
    store.record_sale(a.id, 3, 650).unwrap();
    store
}

#[test]
fn snapshot_round_trip_reproduces_the_store() {
    let store = populated_store();
    let bytes = store.to_snapshot();
    let back = Store::from_snapshot(&bytes).unwrap();
    assert_eq!(back.next_product_id, store.next_product_id);
    assert_eq!(back.next_sale_id, store.next_sale_id);
    assert_eq!(back.next_purchase_id, store.next_purchase_id);
    assert_eq!(back.products.len(), store.products.len());
    for (x, y) in back.products.iter().zip(store.products.iter()) {
        assert_eq!(x.id, y.id);
        assert_eq!(x.name, y.name);
        assert_eq!(x.description, y.description);
        assert_eq!(x.price, y.price);
        assert_eq!(x.quantity, y.quantity);
    }
    assert_eq!(back.sales.len(), store.sales.len());
    for (x, y) in back.sales.iter().zip(store.sales.iter()) {
        assert_eq!(x.id, y.id);
        assert_eq!(x.product_id, y.product_id);
        assert_eq!(x.quantity, y.quantity);
        assert_eq!(x.sale_price, y.sale_price);
        assert_eq!(x.time, y.time);
    }
    assert_eq!(back.purchases.len(), store.purchases.len());
    for (x, y) in back.purchases.iter().zip(store.purchases.iter()) {
        assert_eq!(x.id, y.id);
        assert_eq!(x.product_id, y.product_id);
        assert_eq!(x.quantity, y.quantity);
        assert_eq!(x.purchase_price, y.purchase_price);
        assert_eq!(x.time, y.time);
    }
    assert_eq!(back.managers.len(), store.managers.len());
    for (x, y) in back.managers.iter().zip(store.managers.iter()) {
        assert_eq!(x.username, y.username);
        assert_eq!(x.password_hash, y.password_hash);
    }
}

#[test]
fn fresh_store_round_trips_too() {
    let store = Store::new();
    let back = Store::from_snapshot(&store.to_snapshot()).unwrap();
    assert_eq!(back.managers.len(), 1);
    assert_eq!(back.managers[0].username, "admin");
    assert!(back.authenticate("admin", "password"));
    assert_eq!(back.next_product_id, 1);
}

#[test]
fn garbage_bytes_are_rejected() {
    let bytes: Vec<u8> = b"not a snapshot at all".to_vec();
    assert_eq!(Store::from_snapshot(&bytes).unwrap_err(), StoreError::IoError);
    let empty: Vec<u8> = Vec::new();
    assert_eq!(Store::from_snapshot(&empty).unwrap_err(), StoreError::IoError);
}

#[test]
fn truncated_and_padded_snapshots_are_rejected() {
    let store = populated_store();
    let bytes = store.to_snapshot();
    let mut truncated = bytes.clone();
    truncated.truncate(bytes.len() - 1);
    assert_eq!(
        Store::from_snapshot(&truncated).unwrap_err(),
        StoreError::IoError
    );
    let mut padded = bytes.clone();
    padded.push(b'x');
    assert_eq!(
        Store::from_snapshot(&padded).unwrap_err(),
        StoreError::IoError
    );
}

#[test]
fn snapshot_with_zero_counter_is_rejected() {
    let store = Store::new();
    let mut bytes = store.to_snapshot();
    // The first eight hex digits are the product id counter; zero it out.
    for b in bytes.iter_mut().take(8) {
        *b = b'0';
    }
    assert_eq!(Store::from_snapshot(&bytes).unwrap_err(), StoreError::IoError);
}

#[test]
fn snapshot_is_line_oriented_text() {
    let store = populated_store();
    let bytes = store.to_snapshot();
    // One line of counters, two lines per counted section header and
    // record group: 1 + (1+2) + (1+1) + (1+1) + (1+2) lines in all.
    let lines = bytes.iter().filter(|b| **b == b'\n').count();
    assert_eq!(lines, 11);
}

#[test]
fn snapshot_handles_wide_code_points_and_empty_strings() {
    let mut store = Store::new();
    store.add_product("🚀 rocket".into(), "ünïcödé ☃".into(), 1, 1);
    store.add_product("".into(), "".into(), 0, 0);
    let back = Store::from_snapshot(&store.to_snapshot()).unwrap();
    assert_eq!(back.products[0].name, "🚀 rocket");
    assert_eq!(back.products[0].description, "ünïcödé ☃");
    assert_eq!(back.products[1].name, "");
    assert_eq!(back.products[1].description, "");
}
