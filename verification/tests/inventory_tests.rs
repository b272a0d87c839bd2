//! Engine-level tests: stock mutation through the inventory engine alone.

use pos_ledger::inventory::Inventory;
use pos_ledger::types::ItemReq;
use pos_ledger::types::LedgerError;

#[test]
fn purchase_increases_stock() {
    let mut inv = Inventory::new();
    let pid = inv.add_product("Beans".to_string(), "food".to_string(), 250, 5, 0).unwrap();
    assert_eq!(inv.stock_of(pid), Some(5));
    assert_eq!(inv.apply_purchase(pid, 10), Ok(()));
    assert_eq!(inv.stock_of(pid), Some(15));
}

#[test]
fn purchase_unknown_product_is_not_found() {
    let mut inv = Inventory::new();
    assert_eq!(inv.apply_purchase(7, 10), Err(LedgerError::NotFound));
}

#[test]
fn purchase_overflowing_stock_is_rejected() {
    let mut inv = Inventory::new();
    let pid = inv.add_product("Bolts".to_string(), "hw".to_string(), 1, u64::MAX - 1, 0).unwrap();
    assert_eq!(inv.apply_purchase(pid, 2), Err(LedgerError::ConstraintViolation));
    assert_eq!(inv.stock_of(pid), Some(u64::MAX - 1));
}

#[test]
fn duplicate_product_name_is_rejected() {
    let mut inv = Inventory::new();
    inv.add_product("Beans".to_string(), "food".to_string(), 250, 5, 0).unwrap();
    let r = inv.add_product("Beans".to_string(), "tins".to_string(), 300, 9, 2);
    assert_eq!(r, Err(LedgerError::ConstraintViolation));
}

#[test]
fn sale_decrements_every_item_atomically() {
    let mut inv = Inventory::new();
    let a = inv.add_product("A".to_string(), "x".to_string(), 10, 8, 0).unwrap();
    let b = inv.add_product("B".to_string(), "x".to_string(), 20, 3, 0).unwrap();
    let items = vec![
        ItemReq { product_id: a, quantity: 2 },
        ItemReq { product_id: b, quantity: 3 },
    ];
    let events = inv.apply_sale(&items).unwrap();
    assert_eq!(inv.stock_of(a), Some(6));
    assert_eq!(inv.stock_of(b), Some(0));
    // B fell from 3 to 0, onto its default threshold of 0: one crossing.
    assert_eq!(events, vec![b]);
}

#[test]
fn oversale_leaves_all_stock_untouched() {
    let mut inv = Inventory::new();
    let a = inv.add_product("A".to_string(), "x".to_string(), 10, 8, 0).unwrap();
    let b = inv.add_product("B".to_string(), "x".to_string(), 20, 3, 0).unwrap();
    let items = vec![
        ItemReq { product_id: a, quantity: 2 },
        ItemReq { product_id: b, quantity: 4 },
    ];
    assert_eq!(inv.apply_sale(&items), Err(LedgerError::InsufficientStock));
    assert_eq!(inv.stock_of(a), Some(8));
    assert_eq!(inv.stock_of(b), Some(3));
}

#[test]
fn sale_naming_a_product_twice_is_rejected() {
    let mut inv = Inventory::new();
    let a = inv.add_product("A".to_string(), "x".to_string(), 10, 8, 0).unwrap();
    let items = vec![
        ItemReq { product_id: a, quantity: 1 },
        ItemReq { product_id: a, quantity: 1 },
    ];
    assert_eq!(inv.apply_sale(&items), Err(LedgerError::ConstraintViolation));
    assert_eq!(inv.stock_of(a), Some(8));
}

#[test]
fn sale_reports_threshold_crossings_in_item_order() {
    let mut inv = Inventory::new();
    let a = inv.add_product("A".to_string(), "x".to_string(), 10, 10, 5).unwrap();
    let b = inv.add_product("B".to_string(), "x".to_string(), 20, 9, 2).unwrap();
    let items = vec![
        ItemReq { product_id: b, quantity: 7 },
        ItemReq { product_id: a, quantity: 6 },
    ];
    let events = inv.apply_sale(&items).unwrap();
    assert_eq!(events, vec![b, a]);
    // A second sale from below the threshold is no new crossing.
    let again = inv.apply_sale(&vec![ItemReq { product_id: b, quantity: 1 }]).unwrap();
    assert!(again.is_empty());
}

#[test]
fn adjust_threshold_moves_the_boundary() {
    let mut inv = Inventory::new();
    let a = inv.add_product("A".to_string(), "x".to_string(), 10, 10, 0).unwrap();
    assert_eq!(inv.adjust_threshold(a, 9), Ok(()));
    // Stock 10 -> 8 crosses the new boundary of 9.
    let events = inv.apply_sale(&vec![ItemReq { product_id: a, quantity: 2 }]).unwrap();
    assert_eq!(events, vec![a]);
    assert_eq!(inv.adjust_threshold(99, 1), Err(LedgerError::NotFound));
}

#[test]
fn remove_product_drops_the_row() {
    let mut inv = Inventory::new();
    let a = inv.add_product("A".to_string(), "x".to_string(), 10, 10, 0).unwrap();
    assert_eq!(inv.remove_product(a), Ok(()));
    assert_eq!(inv.stock_of(a), None);
    assert_eq!(inv.remove_product(a), Err(LedgerError::NotFound));
}
