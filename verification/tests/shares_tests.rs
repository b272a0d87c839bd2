//! Ownership-ledger tests: share assignment, finalize validation, expense
//! shares, and exact distribution of amounts.

use pos_ledger::ledger::Ledger;
use pos_ledger::types::EntityRef;
use pos_ledger::types::LedgerError;
use pos_ledger::types::OwnerAmount;
use pos_ledger::types::PaymentMethod;
use pos_ledger::types::ShareReq;

fn req(owner_id: u64, percentage: u64) -> ShareReq {
    ShareReq { owner_id, percentage }
}

#[test]
fn expense_shares_distribute_exactly() {
    let mut l = Ledger::new();
    let a = l.add_owner("A".to_string(), None).unwrap();
    let b = l.add_owner("B".to_string(), None).unwrap();
    let e = l
        .record_expense(
            "rent".to_string(),
            300,
            None,
            PaymentMethod::Transfer,
            Some(vec![req(a, 60), req(b, 40)]),
            5,
        )
        .unwrap();
    let out = l.compute_distribution(EntityRef::Expense(e), 300).unwrap();
    assert_eq!(
        out,
        vec![
            OwnerAmount { owner_id: a, amount: 180 },
            OwnerAmount { owner_id: b, amount: 120 },
        ]
    );
    assert_eq!(out.iter().map(|o| o.amount).sum::<u64>(), 300);
}

#[test]
fn distribution_assigns_rounding_residue_to_the_largest_share() {
    let mut l = Ledger::new();
    let a = l.add_owner("A".to_string(), None).unwrap();
    let b = l.add_owner("B".to_string(), None).unwrap();
    let p = l.add_product("Tea".to_string(), "drink".to_string(), 50, 1, 0).unwrap();
    l.assign_shares(EntityRef::Product(p), &vec![req(a, 50), req(b, 50)], true).unwrap();
    // 101 splits as 50 + 50 with one residual cent for the first of the
    // equally largest shares.
    let out = l.compute_distribution(EntityRef::Product(p), 101).unwrap();
    assert_eq!(
        out,
        vec![
            OwnerAmount { owner_id: a, amount: 51 },
            OwnerAmount { owner_id: b, amount: 50 },
        ]
    );
    // A tiny amount goes whole to the largest share.
    l.assign_shares(EntityRef::Product(p), &vec![req(a, 40), req(b, 60)], true).unwrap();
    let out = l.compute_distribution(EntityRef::Product(p), 1).unwrap();
    assert_eq!(
        out,
        vec![
            OwnerAmount { owner_id: a, amount: 0 },
            OwnerAmount { owner_id: b, amount: 1 },
        ]
    );
}

#[test]
fn distribution_of_three_way_split_sums_exactly() {
    let mut l = Ledger::new();
    let a = l.add_owner("A".to_string(), None).unwrap();
    let b = l.add_owner("B".to_string(), None).unwrap();
    let c = l.add_owner("C".to_string(), None).unwrap();
    let p = l.add_product("Tea".to_string(), "drink".to_string(), 50, 1, 0).unwrap();
    l.assign_shares(EntityRef::Product(p), &vec![req(a, 33), req(b, 33), req(c, 34)], true)
        .unwrap();
    let out = l.compute_distribution(EntityRef::Product(p), 100).unwrap();
    assert_eq!(out.iter().map(|o| o.amount).sum::<u64>(), 100);
    assert_eq!(out[0].amount, 33);
    assert_eq!(out[1].amount, 33);
    assert_eq!(out[2].amount, 34);
}

#[test]
fn finalize_rejects_a_sum_other_than_100() {
    let mut l = Ledger::new();
    let a = l.add_owner("A".to_string(), None).unwrap();
    let b = l.add_owner("B".to_string(), None).unwrap();
    let p = l.add_product("Tea".to_string(), "drink".to_string(), 50, 1, 0).unwrap();
    let r = l.assign_shares(EntityRef::Product(p), &vec![req(a, 60), req(b, 30)], true);
    assert_eq!(r, Err(LedgerError::InvalidShareSum));
    assert_eq!(l.n_shares(), 0);
    // During incremental edits the sum may transiently differ from 100.
    assert_eq!(
        l.assign_shares(EntityRef::Product(p), &vec![req(a, 60)], false),
        Ok(())
    );
    assert_eq!(l.share_percentage(EntityRef::Product(p), a), Some(60));
    // An unfinalized set cannot be distributed over.
    assert_eq!(
        l.compute_distribution(EntityRef::Product(p), 100),
        Err(LedgerError::InvalidShareSum)
    );
}

#[test]
fn assign_replaces_the_whole_share_set() {
    let mut l = Ledger::new();
    let a = l.add_owner("A".to_string(), None).unwrap();
    let b = l.add_owner("B".to_string(), None).unwrap();
    let p = l.add_product("Tea".to_string(), "drink".to_string(), 50, 1, 0).unwrap();
    l.assign_shares(EntityRef::Product(p), &vec![req(a, 100)], true).unwrap();
    l.assign_shares(EntityRef::Product(p), &vec![req(b, 100)], true).unwrap();
    assert_eq!(l.share_percentage(EntityRef::Product(p), a), None);
    assert_eq!(l.share_percentage(EntityRef::Product(p), b), Some(100));
    assert_eq!(l.n_shares(), 1);
}

#[test]
fn assign_validates_owners_and_percentages() {
    let mut l = Ledger::new();
    let a = l.add_owner("A".to_string(), None).unwrap();
    let p = l.add_product("Tea".to_string(), "drink".to_string(), 50, 1, 0).unwrap();
    assert_eq!(
        l.assign_shares(EntityRef::Product(99), &vec![req(a, 100)], true),
        Err(LedgerError::NotFound)
    );
    assert_eq!(
        l.assign_shares(EntityRef::Product(p), &vec![req(77, 100)], true),
        Err(LedgerError::NotFound)
    );
    assert_eq!(
        l.assign_shares(EntityRef::Product(p), &vec![req(a, 101)], true),
        Err(LedgerError::ConstraintViolation)
    );
    assert_eq!(
        l.assign_shares(EntityRef::Product(p), &vec![req(a, 50), req(a, 50)], true),
        Err(LedgerError::ConstraintViolation)
    );
}

#[test]
fn expense_share_plan_is_validated() {
    let mut l = Ledger::new();
    let a = l.add_owner("A".to_string(), None).unwrap();
    let plan = Some(vec![req(a, 50), req(a, 50)]);
    let r = l.record_expense("x".to_string(), 10, None, PaymentMethod::Cash, plan, 1);
    assert_eq!(r, Err(LedgerError::ConstraintViolation));
    let plan = Some(vec![req(a, 90)]);
    let r = l.record_expense("x".to_string(), 10, None, PaymentMethod::Cash, plan, 1);
    assert_eq!(r, Err(LedgerError::InvalidShareSum));
    let plan = Some(vec![req(9, 100)]);
    let r = l.record_expense("x".to_string(), 10, None, PaymentMethod::Cash, plan, 1);
    assert_eq!(r, Err(LedgerError::NotFound));
    assert_eq!(l.n_expenses(), 0);
    // A non-shared expense is legal.
    let e = l.record_expense("x".to_string(), 10, None, PaymentMethod::Cash, None, 1).unwrap();
    assert_eq!(e, 1);
    assert_eq!(l.n_shares(), 0);
}

#[test]
fn deleting_an_owner_is_restricted_while_shares_reference_it() {
    let mut l = Ledger::new();
    let a = l.add_owner("A".to_string(), None).unwrap();
    let b = l.add_owner("B".to_string(), None).unwrap();
    let p = l.add_product("Tea".to_string(), "drink".to_string(), 50, 1, 0).unwrap();
    l.assign_shares(EntityRef::Product(p), &vec![req(a, 100)], true).unwrap();
    assert_eq!(l.delete_owner(a), Err(LedgerError::ConstraintViolation));
    // Reassigning first frees the owner.
    l.assign_shares(EntityRef::Product(p), &vec![req(b, 100)], true).unwrap();
    assert_eq!(l.delete_owner(a), Ok(()));
    assert_eq!(l.n_owners(), 1);
}

#[test]
fn deleting_a_product_cascades_to_its_shares() {
    let mut l = Ledger::new();
    let a = l.add_owner("A".to_string(), None).unwrap();
    let p = l.add_product("Tea".to_string(), "drink".to_string(), 50, 1, 0).unwrap();
    l.assign_shares(EntityRef::Product(p), &vec![req(a, 100)], true).unwrap();
    assert_eq!(l.delete_product(p), Ok(()));
    assert_eq!(l.n_shares(), 0);
    assert_eq!(l.share_percentage(EntityRef::Product(p), a), None);
    // The owner is free again once the cascade removed the shares.
    assert_eq!(l.delete_owner(a), Ok(()));
}

#[test]
fn distribution_requires_an_existing_entity() {
    let l = Ledger::new();
    assert_eq!(
        l.compute_distribution(EntityRef::Expense(3), 100),
        Err(LedgerError::NotFound)
    );
}
