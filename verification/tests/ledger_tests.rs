//! Ledger-level tests: the journal, the payment tracker, the catalog's
//! delete policies, and the notification emitter.

use pos_ledger::ledger::Ledger;
use pos_ledger::types::ItemReq;
use pos_ledger::types::LedgerError;
use pos_ledger::types::PaymentMethod;

fn one_item(product_id: u64, quantity: u64) -> Vec<ItemReq> {
    vec![ItemReq { product_id, quantity }]
}

#[test]
fn low_stock_crossing_then_insufficient_stock() {
    let mut l = Ledger::new();
    let p = l.add_product("Soap".to_string(), "bath".to_string(), 100, 10, 5).unwrap();
    // Selling 6 units takes stock to 4: one low-stock notification.
    let s = l.record_sale(None, &one_item(p, 6), 600, PaymentMethod::Cash, 10).unwrap();
    assert_eq!(s, 1);
    assert_eq!(l.product_stock(p), Some(4));
    assert_eq!(l.n_notifications(), 1);
    let (target, read_at) = l.notification_at(0).unwrap();
    assert_eq!(target, p);
    assert_eq!(read_at, None);
    // A second sale of 5 is rejected; stock stays 4 and no rows appear.
    let r = l.record_sale(None, &one_item(p, 5), 500, PaymentMethod::Cash, 11);
    assert_eq!(r, Err(LedgerError::InsufficientStock));
    assert_eq!(l.product_stock(p), Some(4));
    assert_eq!(l.n_sales(), 1);
    assert_eq!(l.n_sale_items(), 1);
    assert_eq!(l.n_notifications(), 1);
}

#[test]
fn stock_replays_from_purchases_and_sales() {
    let mut l = Ledger::new();
    let p = l.add_product("Tea".to_string(), "drink".to_string(), 50, 5, 0).unwrap();
    l.record_purchase(p, None, 10, 30, PaymentMethod::Transfer, 1).unwrap();
    l.record_sale(None, &one_item(p, 3), 150, PaymentMethod::Cash, 2).unwrap();
    // 5 opening + 10 purchased - 3 sold.
    assert_eq!(l.product_stock(p), Some(12));
}

#[test]
fn purchase_total_is_quantity_times_unit_cost() {
    let mut l = Ledger::new();
    let p = l.add_product("Tea".to_string(), "drink".to_string(), 50, 5, 0).unwrap();
    let id = l.record_purchase(p, None, 10, 30, PaymentMethod::Debit, 1).unwrap();
    assert_eq!(l.purchase_total(id), Some(300));
    let s = l.record_sale(None, &one_item(p, 3), 150, PaymentMethod::Credit, 2).unwrap();
    assert_eq!(l.sale_total(s), Some(150));
}

#[test]
fn sale_total_is_rederived_from_current_prices() {
    let mut l = Ledger::new();
    let p = l.add_product("Tea".to_string(), "drink".to_string(), 50, 5, 0).unwrap();
    let r = l.record_sale(None, &one_item(p, 2), 99, PaymentMethod::Cash, 1);
    assert_eq!(r, Err(LedgerError::InvalidSaleTotal));
    assert_eq!(l.product_stock(p), Some(5));
    assert_eq!(l.n_sales(), 0);
    assert_eq!(l.record_sale(None, &one_item(p, 2), 100, PaymentMethod::Cash, 1), Ok(1));
}

#[test]
fn sale_rejects_bad_items() {
    let mut l = Ledger::new();
    let p = l.add_product("Tea".to_string(), "drink".to_string(), 50, 5, 0).unwrap();
    // Unknown product.
    let r = l.record_sale(None, &one_item(99, 1), 50, PaymentMethod::Cash, 1);
    assert_eq!(r, Err(LedgerError::NotFound));
    // Unknown customer.
    let r = l.record_sale(Some(4), &one_item(p, 1), 50, PaymentMethod::Cash, 1);
    assert_eq!(r, Err(LedgerError::NotFound));
    // Zero quantity.
    let r = l.record_sale(None, &one_item(p, 0), 0, PaymentMethod::Cash, 1);
    assert_eq!(r, Err(LedgerError::ConstraintViolation));
    // The same product twice.
    let items = vec![
        ItemReq { product_id: p, quantity: 1 },
        ItemReq { product_id: p, quantity: 2 },
    ];
    let r = l.record_sale(None, &items, 150, PaymentMethod::Cash, 1);
    assert_eq!(r, Err(LedgerError::ConstraintViolation));
    assert_eq!(l.n_sales(), 0);
    assert_eq!(l.n_sale_items(), 0);
}

#[test]
fn purchase_validates_references_and_quantity() {
    let mut l = Ledger::new();
    let p = l.add_product("Tea".to_string(), "drink".to_string(), 50, 5, 0).unwrap();
    assert_eq!(
        l.record_purchase(99, None, 1, 10, PaymentMethod::Cash, 1),
        Err(LedgerError::NotFound)
    );
    assert_eq!(
        l.record_purchase(p, Some(3), 1, 10, PaymentMethod::Cash, 1),
        Err(LedgerError::NotFound)
    );
    assert_eq!(
        l.record_purchase(p, None, 0, 10, PaymentMethod::Cash, 1),
        Err(LedgerError::ConstraintViolation)
    );
    assert_eq!(l.n_purchases(), 0);
    assert_eq!(l.product_stock(p), Some(5));
}

#[test]
fn deleting_a_supplier_nulls_purchase_references() {
    let mut l = Ledger::new();
    let s = l.add_supplier("Acme".to_string(), None, None).unwrap();
    let p = l.add_product("Tea".to_string(), "drink".to_string(), 50, 0, 0).unwrap();
    let p1 = l.record_purchase(p, Some(s), 2, 10, PaymentMethod::Cash, 1).unwrap();
    let p2 = l.record_purchase(p, Some(s), 3, 10, PaymentMethod::Cash, 2).unwrap();
    let p3 = l.record_purchase(p, Some(s), 4, 10, PaymentMethod::Cash, 3).unwrap();
    assert_eq!(l.delete_supplier(s), Ok(()));
    // The purchase rows remain; their supplier reference is now null.
    assert_eq!(l.n_purchases(), 3);
    assert_eq!(l.purchase_supplier(p1), Some(None));
    assert_eq!(l.purchase_supplier(p2), Some(None));
    assert_eq!(l.purchase_supplier(p3), Some(None));
    assert_eq!(l.n_suppliers(), 0);
    assert_eq!(l.delete_supplier(s), Err(LedgerError::NotFound));
}

#[test]
fn deleting_a_product_is_restricted_while_referenced() {
    let mut l = Ledger::new();
    let p = l.add_product("Tea".to_string(), "drink".to_string(), 50, 5, 0).unwrap();
    l.record_purchase(p, None, 1, 10, PaymentMethod::Cash, 1).unwrap();
    assert_eq!(l.delete_product(p), Err(LedgerError::ConstraintViolation));
    assert_eq!(l.n_products(), 1);
    let q = l.add_product("Cup".to_string(), "ware".to_string(), 80, 2, 0).unwrap();
    assert_eq!(l.delete_product(q), Ok(()));
    assert_eq!(l.n_products(), 1);
}

#[test]
fn mark_paid_settles_exactly_once() {
    let mut l = Ledger::new();
    let p = l.add_product("Tea".to_string(), "drink".to_string(), 50, 5, 0).unwrap();
    let s = l.record_sale(None, &one_item(p, 1), 50, PaymentMethod::Account, 7).unwrap();
    assert_eq!(l.sale_paid_at(s), Some(None));
    assert_eq!(l.mark_paid(s, 20), Ok(()));
    assert_eq!(l.sale_paid_at(s), Some(Some(20)));
    // A second settlement is rejected and the timestamp stands.
    assert_eq!(l.mark_paid(s, 30), Err(LedgerError::AlreadyPaid));
    assert_eq!(l.sale_paid_at(s), Some(Some(20)));
    assert_eq!(l.mark_paid(99, 30), Err(LedgerError::NotFound));
}

#[test]
fn deleting_a_customer_keeps_sales_and_their_settlement() {
    let mut l = Ledger::new();
    let c = l.add_customer("Nia".to_string(), None).unwrap();
    let p = l.add_product("Tea".to_string(), "drink".to_string(), 50, 5, 0).unwrap();
    let s = l.record_sale(Some(c), &one_item(p, 1), 50, PaymentMethod::Cash, 1).unwrap();
    l.mark_paid(s, 2).unwrap();
    assert_eq!(l.delete_customer(c), Ok(()));
    assert_eq!(l.n_sales(), 1);
    assert_eq!(l.sale_paid_at(s), Some(Some(2)));
    assert_eq!(l.n_customers(), 0);
}

#[test]
fn unpaid_reminders_cover_aged_sales_only() {
    let mut l = Ledger::new();
    let p = l.add_product("Tea".to_string(), "drink".to_string(), 50, 9, 0).unwrap();
    let s1 = l.record_sale(None, &one_item(p, 1), 50, PaymentMethod::Account, 10).unwrap();
    let s2 = l.record_sale(None, &one_item(p, 1), 50, PaymentMethod::Account, 90).unwrap();
    let s3 = l.record_sale(None, &one_item(p, 1), 50, PaymentMethod::Account, 15).unwrap();
    l.mark_paid(s3, 16).unwrap();
    // At time 100 with a window of 50, only the first sale is aged and unpaid.
    let emitted = l.emit_unpaid_reminders(50, 100);
    assert_eq!(emitted, 1);
    assert_eq!(l.n_notifications(), 1);
    let (target, read_at) = l.notification_at(0).unwrap();
    assert_eq!(target, s1);
    assert_eq!(read_at, None);
    let _ = s2;
}

#[test]
fn mark_read_keeps_the_first_timestamp() {
    let mut l = Ledger::new();
    let p = l.add_product("Tea".to_string(), "drink".to_string(), 50, 10, 9).unwrap();
    l.record_sale(None, &one_item(p, 2), 100, PaymentMethod::Cash, 1).unwrap();
    assert_eq!(l.n_notifications(), 1);
    assert_eq!(l.mark_read(1, 40), Ok(()));
    assert_eq!(l.notification_at(0).unwrap().1, Some(40));
    // Marking again is a no-op; there is no un-read transition.
    assert_eq!(l.mark_read(1, 55), Ok(()));
    assert_eq!(l.notification_at(0).unwrap().1, Some(40));
    assert_eq!(l.mark_read(9, 1), Err(LedgerError::NotFound));
}

#[test]
fn empty_sale_commits_with_zero_total() {
    let mut l = Ledger::new();
    let s = l.record_sale(None, &Vec::new(), 0, PaymentMethod::Cash, 1).unwrap();
    assert_eq!(s, 1);
    assert_eq!(l.n_sales(), 1);
    assert_eq!(l.n_sale_items(), 0);
}

#[test]
fn unique_names_are_enforced_per_table() {
    let mut l = Ledger::new();
    l.add_supplier("Acme".to_string(), None, None).unwrap();
    assert_eq!(
        l.add_supplier("Acme".to_string(), None, None),
        Err(LedgerError::ConstraintViolation)
    );
    l.add_customer("Nia".to_string(), None).unwrap();
    assert_eq!(l.add_customer("Nia".to_string(), None), Err(LedgerError::ConstraintViolation));
    l.add_owner("Ola".to_string(), None).unwrap();
    assert_eq!(l.add_owner("Ola".to_string(), None), Err(LedgerError::ConstraintViolation));
}
