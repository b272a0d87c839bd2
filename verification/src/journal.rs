//! The transaction journal: purchases, sales and expenses are recorded as
//! one atomic unit each — validation, stock mutation through the inventory
//! engine, and row persistence either all take effect or none do.

use vstd::prelude::*;
use crate::types::ItemReq;
use crate::types::LedgerError;
use crate::types::PaymentMethod;
use crate::types::Purchase;
use crate::types::Product;
use crate::types::Sale;
use crate::types::SaleItem;
use crate::types::EntityRef;
use crate::types::Expense;
use crate::types::ShareReq;
use crate::types::ShareRow;
use crate::shares::req_pct_sum;
use crate::shares::reqs_bounded;
use crate::shares::reqs_distinct;
use crate::shares::reqs_known;
use crate::keyed::find_by_key;
use crate::keyed::has_key;
use crate::keyed::key_index;
use crate::keyed::keys_increasing;
use crate::keyed::lemma_key_at;
use crate::keyed::lemma_same_keys_has_key;
use crate::keyed::lemma_subrange_push;
use crate::keyed::row_of;
use crate::keyed::Keyed;
use crate::inventory::demand;
use crate::inventory::has_item;
use crate::inventory::lemma_demand_absent_alt;
use crate::inventory::items_distinct;
use crate::inventory::items_known;
use crate::inventory::purchase_applied;
use crate::inventory::sale_applied;
use crate::inventory::stock_covers;
use crate::ledger::purchased_of;
use crate::ledger::sales_monotonic;
use crate::ledger::sold_of;
use crate::ledger::Ledger;
use crate::ledger::LedgerView;

verus! {

broadcast use crate::keyed::lemma_push_has_key, crate::keyed::lemma_push_drop_last;

/// The sale total re-derived from the current product prices: the sum of
/// price times quantity over the requested line items.
pub open spec fn derived_total(products: Seq<Product>, items: Seq<ItemReq>) -> int
    decreases items.len(),
{
    if items.len() == 0 {
        0int
    } else {
        derived_total(products, items.drop_last()) + row_of(
            products,
            items.last().product_id,
        ).price * items.last().quantity
    }
}

/// The derived total only grows as line items are appended.
pub proof fn lemma_derived_total_mono(products: Seq<Product>, items: Seq<ItemReq>, k: int)
    requires
        0 <= k <= items.len(),
    ensures
        derived_total(products, items.subrange(0, k)) <= derived_total(products, items),
    decreases items.len() - k,
{
    if k == items.len() {
        assert(items.subrange(0, k) =~= items);
    } else {
        lemma_subrange_push(items, k);
        vstd::arithmetic::mul::lemma_mul_nonnegative(
            row_of(products, items[k].product_id).price as int,
            items[k].quantity as int,
        );
        lemma_derived_total_mono(products, items, k + 1);
    }
}

/// The references a sale hands in: the optional customer and every product
/// named by a line item must be on the books.
pub open spec fn sale_refs_ok(pre: LedgerView, customer_id: Option<u64>, items: Seq<ItemReq>) -> bool {
    &&& (customer_id matches Some(c) ==> has_key(pre.customers, c))
    &&& items_known(pre.products, items)
}

/// The shape a sale's line items must have: positive quantities, pairwise
/// different products, and a derived total that fits the currency type.
pub open spec fn sale_items_ok(pre: LedgerView, items: Seq<ItemReq>) -> bool {
    &&& forall|k: int| 0 <= k < items.len() ==> (#[trigger] items[k]).quantity > 0
    &&& items_distinct(items)
    &&& derived_total(pre.products, items) <= u64::MAX
}

/// The whole effect of a committed sale: stock decremented for every line
/// item, the sale row and its line items appended with prices captured at
/// sale time, one low-stock notification per crossing, and the identifier
/// counters advanced. Everything else is untouched.
pub open spec fn sale_committed(
    pre: LedgerView,
    post: LedgerView,
    customer_id: Option<u64>,
    items: Seq<ItemReq>,
    total: u64,
    payment_method: PaymentMethod,
    now: u64,
) -> bool {
    let ev = crate::inventory::crossings(pre.products, items);
    &&& post.products.len() == pre.products.len()
    &&& forall|k: int|
        0 <= k < pre.products.len() ==> #[trigger] post.products[k] == sale_applied(
            pre.products[k],
            items,
        )
    &&& post.sales == pre.sales.push(
        Sale {
            id: pre.next_sale_id,
            customer_id,
            created_at: now,
            total,
            payment_method,
            paid_at: None,
        },
    )
    &&& post.sale_items.len() == pre.sale_items.len() + items.len()
    &&& forall|k: int|
        0 <= k < pre.sale_items.len() ==> #[trigger] post.sale_items[k] == pre.sale_items[k]
    &&& forall|k: int|
        0 <= k < items.len() ==> #[trigger] post.sale_items[pre.sale_items.len() + k] == (SaleItem {
            sale_id: pre.next_sale_id,
            product_id: items[k].product_id,
            price: row_of(pre.products, items[k].product_id).price,
            quantity: items[k].quantity,
        })
    &&& post.notifications.len() == pre.notifications.len() + ev.len()
    &&& forall|k: int|
        0 <= k < pre.notifications.len() ==> #[trigger] post.notifications[k]
            == pre.notifications[k]
    &&& forall|k: int|
        0 <= k < ev.len() ==> crate::notify::is_low_stock_note(
            #[trigger] post.notifications[pre.notifications.len() + k],
            (pre.next_notification_id + k) as u64,
            ev[k],
            now,
        )
    &&& post.next_sale_id == pre.next_sale_id + 1
    &&& post.next_notification_id == pre.next_notification_id + ev.len()
    &&& post == pre.with_products(post.products, pre.next_product_id).with_sales(
        post.sales,
        post.next_sale_id,
    ).with_sale_items(post.sale_items).with_notifications(
        post.notifications,
        post.next_notification_id,
    )
}

impl Ledger {
    /// Records a sale as one atomic unit: validates the optional customer
    /// and every line item, re-derives the total from the current product
    /// prices and compares it with the caller's total, decrements stock
    /// through the inventory engine, and persists the sale row, its line
    /// items with prices captured at sale time, and one notification per
    /// low-stock crossing. On any rejection no row is written and stock is
    /// untouched. Rejects a missing customer or product with `NotFound`; a
    /// zero quantity, a product named twice or a derived total beyond the
    /// currency type with `ConstraintViolation`; a total mismatch with
    /// `InvalidSaleTotal`; and a quantity beyond stock with
    /// `InsufficientStock`.
    pub fn record_sale(
        &mut self,
        customer_id: Option<u64>,
        items: &Vec<ItemReq>,
        total: u64,
        payment_method: PaymentMethod,
        now: u64,
    ) -> (r: Result<u64, LedgerError>)
        requires
            old(self).wf(),
            old(self)@.next_sale_id < u64::MAX,
            old(self)@.next_notification_id + items@.len() <= u64::MAX,
        ensures
            final(self).wf(),
            r == Err::<u64, LedgerError>(LedgerError::NotFound) <==> !sale_refs_ok(
                old(self)@,
                customer_id,
                items@,
            ),
            r == Err::<u64, LedgerError>(LedgerError::ConstraintViolation) <==> (sale_refs_ok(
                old(self)@,
                customer_id,
                items@,
            ) && !sale_items_ok(old(self)@, items@)),
            r == Err::<u64, LedgerError>(LedgerError::InvalidSaleTotal) <==> (sale_refs_ok(
                old(self)@,
                customer_id,
                items@,
            ) && sale_items_ok(old(self)@, items@) && derived_total(old(self)@.products, items@)
                != total),
            r == Err::<u64, LedgerError>(LedgerError::InsufficientStock) <==> (sale_refs_ok(
                old(self)@,
                customer_id,
                items@,
            ) && sale_items_ok(old(self)@, items@) && derived_total(old(self)@.products, items@)
                == total && !stock_covers(old(self)@.products, items@)),
            r is Ok <==> (sale_refs_ok(old(self)@, customer_id, items@) && sale_items_ok(
                old(self)@,
                items@,
            ) && derived_total(old(self)@.products, items@) == total && stock_covers(
                old(self)@.products,
                items@,
            )),
            r is Err ==> final(self)@ == old(self)@,
            r is Ok ==> r == Ok::<u64, LedgerError>(old(self)@.next_sale_id) && sale_committed(
                old(self)@,
                final(self)@,
                customer_id,
                items@,
                total,
                payment_method,
                now,
            ),
            sales_monotonic(old(self)@.sales, final(self)@.sales),
    {
        // Validate the customer reference.
        match customer_id {
            Some(c) => {
                if find_by_key(&self.customers, c).is_none() {
                    return Err(LedgerError::NotFound);
                }
            },
            None => {},
        }
        // Validate: every product exists.
        let mut k: usize = 0;
        while k < items.len()
            invariant
                k <= items@.len(),
                old(self) == self,
                old(self).wf(),
                forall|j: int|
                    0 <= j < k ==> has_key(self@.products, (#[trigger] items@[j]).product_id),
            decreases items@.len() - k,
        {
            if self.inventory.find(items[k].product_id).is_none() {
                return Err(LedgerError::NotFound);
            }
            k = k + 1;
        }
        // Validate: every quantity is positive.
        let mut k: usize = 0;
        while k < items.len()
            invariant
                k <= items@.len(),
                old(self) == self,
                old(self).wf(),
                sale_refs_ok(self@, customer_id, items@),
                forall|j: int| 0 <= j < k ==> (#[trigger] items@[j]).quantity > 0,
            decreases items@.len() - k,
        {
            if items[k].quantity == 0 {
                return Err(LedgerError::ConstraintViolation);
            }
            k = k + 1;
        }
        // Validate: no product is named twice.
        let mut a: usize = 0;
        while a < items.len()
            invariant
                a <= items@.len(),
                old(self) == self,
                old(self).wf(),
                sale_refs_ok(self@, customer_id, items@),
                forall|j: int| 0 <= j < items@.len() ==> (#[trigger] items@[j]).quantity > 0,
                forall|i: int, j: int|
                    0 <= i < j < a ==> (#[trigger] items@[i]).product_id != (
                    #[trigger] items@[j]).product_id,
            decreases items@.len() - a,
        {
            let mut b: usize = 0;
            while b < a
                invariant
                    b <= a < items@.len(),
                    old(self) == self,
                    old(self).wf(),
                    sale_refs_ok(self@, customer_id, items@),
                    forall|j: int| 0 <= j < items@.len() ==> (#[trigger] items@[j]).quantity > 0,
                    forall|i: int|
                        0 <= i < b ==> (#[trigger] items@[i]).product_id != items@[a as int].product_id,
                decreases a - b,
            {
                if items[b].product_id == items[a].product_id {
                    return Err(LedgerError::ConstraintViolation);
                }
                b = b + 1;
            }
            a = a + 1;
        }
        // Derive the total from current prices, capturing each price.
        let mut derived: u64 = 0;
        let mut prices: Vec<u64> = Vec::new();
        let mut k: usize = 0;
        while k < items.len()
            invariant
                k <= items@.len(),
                old(self) == self,
                old(self).wf(),
                sale_refs_ok(self@, customer_id, items@),
                forall|j: int| 0 <= j < items@.len() ==> (#[trigger] items@[j]).quantity > 0,
                items_distinct(items@),
                prices@.len() == k,
                forall|j: int|
                    0 <= j < k ==> #[trigger] prices@[j] == row_of(
                        self@.products,
                        items@[j].product_id,
                    ).price,
                derived as int == derived_total(self@.products, items@.subrange(0, k as int)),
            decreases items@.len() - k,
        {
            let pid = items[k].product_id;
            proof {
                assert(has_key(self@.products, items@[k as int].product_id));
            }
            let i = match self.inventory.find(pid) {
                None => {
                    return Err(LedgerError::NotFound);
                },
                Some(i) => i,
            };
            proof {
                lemma_key_at(self@.products, self@.next_product_id, pid, i as int);
            }
            let price = self.inventory.at(i).price;
            let line = match price.checked_mul(items[k].quantity) {
                None => {
                    proof {
                        lemma_subrange_push(items@, k as int);
                        lemma_derived_total_mono(self@.products, items@, k as int + 1);
                    }
                    return Err(LedgerError::ConstraintViolation);
                },
                Some(v) => v,
            };
            let new_derived = match derived.checked_add(line) {
                None => {
                    proof {
                        lemma_subrange_push(items@, k as int);
                        lemma_derived_total_mono(self@.products, items@, k as int + 1);
                    }
                    return Err(LedgerError::ConstraintViolation);
                },
                Some(v) => v,
            };
            proof {
                lemma_subrange_push(items@, k as int);
            }
            prices.push(price);
            derived = new_derived;
            k = k + 1;
        }
        proof {
            assert(items@.subrange(0, items@.len() as int) =~= items@);
        }
        // Validate the caller's total against the derived one.
        if derived != total {
            return Err(LedgerError::InvalidSaleTotal);
        }
        let ghost pre = self@;
        // Decrement stock atomically; collect the low-stock crossings.
        let events = match self.inventory.apply_sale(items) {
            Err(e) => {
                proof {
                    assert(e == LedgerError::InsufficientStock);
                }
                return Err(e);
            },
            Ok(ev) => ev,
        };
        proof {
            crate::inventory::lemma_crossings_len(pre.products, items@);
        }
        // Persist the sale row.
        let sale_id = self.next_sale_id;
        self.sales.push(
            Sale { id: sale_id, customer_id, created_at: now, total, payment_method, paid_at: None },
        );
        self.next_sale_id = sale_id + 1;
        let ghost mid = self@;
        // Persist the line items with their captured prices.
        let ghost base = self@.sale_items.len() as int;
        let mut k: usize = 0;
        while k < items.len()
            invariant
                k <= items@.len(),
                prices@.len() == items@.len(),
                forall|j: int|
                    0 <= j < items@.len() ==> #[trigger] prices@[j] == row_of(
                        pre.products,
                        items@[j].product_id,
                    ).price,
                self@ == mid.with_sale_items(self@.sale_items),
                base == mid.sale_items.len() as int,
                self@.sale_items.len() == base + k,
                forall|j: int| 0 <= j < base ==> #[trigger] self@.sale_items[j] == mid.sale_items[j],
                forall|j: int|
                    base <= j < base + k ==> #[trigger] self@.sale_items[j] == (SaleItem {
                        sale_id: sale_id,
                        product_id: items@[j - base].product_id,
                        price: prices@[j - base],
                        quantity: items@[j - base].quantity,
                    }),
            decreases items@.len() - k,
        {
            let ghost before = self@.sale_items;
            self.sale_items.push(
                SaleItem {
                    sale_id,
                    product_id: items[k].product_id,
                    price: prices[k],
                    quantity: items[k].quantity,
                },
            );
            proof {
                let item = SaleItem {
                    sale_id,
                    product_id: items@[k as int].product_id,
                    price: prices@[k as int],
                    quantity: items@[k as int].quantity,
                };
                assert(self@.sale_items == before.push(item));
                assert forall|j: int| base <= j < base + (k as int) + 1 implies self@.sale_items[j]
                    == (SaleItem {
                    sale_id: sale_id,
                    product_id: items@[j - base].product_id,
                    price: prices@[j - base],
                    quantity: items@[j - base].quantity,
                }) by {
                    if j != base + k as int {
                        assert(before.push(item)[j] == before[j]);
                    } else {
                        assert(before.push(item)[j] == item);
                    }
                }
            }
            k = k + 1;
        }
        let ghost mid2 = self@;
        // Emit one low-stock notification per crossing, in line-item order.
        let ghost nid0 = self@.next_notification_id;
        let ghost base_n = self@.notifications.len() as int;
        let mut k: usize = 0;
        while k < events.len()
            invariant
                k <= events@.len(),
                events@.len() <= items@.len(),
                nid0 + items@.len() <= u64::MAX,
                self@ == mid2.with_notifications(self@.notifications, self@.next_notification_id),
                base_n == mid2.notifications.len() as int,
                nid0 == mid2.next_notification_id,
                self@.notifications.len() == base_n + k,
                self@.next_notification_id == nid0 + k,
                forall|j: int|
                    0 <= j < base_n ==> #[trigger] self@.notifications[j] == mid2.notifications[j],
                forall|j: int|
                    base_n <= j < base_n + k ==> crate::notify::is_low_stock_note(
                        #[trigger] self@.notifications[j],
                        (nid0 + (j - base_n)) as u64,
                        events@[j - base_n],
                        now,
                    ),
            decreases events@.len() - k,
        {
            let ghost before = self@.notifications;
            let id = self.next_notification_id;
            let note = crate::notify::make_low_stock_note(id, events[k], now);
            self.notifications.push(note);
            self.next_notification_id = id + 1;
            proof {
                assert(self@.notifications == before.push(note));
                assert forall|j: int|
                    base_n <= j < base_n + (k as int) + 1 implies crate::notify::is_low_stock_note(
                    self@.notifications[j],
                    (nid0 + (j - base_n)) as u64,
                    events@[j - base_n],
                    now,
                ) by {
                    if j != base_n + k as int {
                        assert(before.push(note)[j] == before[j]);
                    } else {
                        assert(before.push(note)[j] == note);
                    }
                }
            }
            k = k + 1;
        }
        proof {
            let pre0 = old(self)@;
            let post = self@;
            let ev = crate::inventory::crossings(pre0.products, items@);
            assert(sale_committed(pre0, post, customer_id, items@, total, payment_method, now));
            // Well-formedness of the committed state.
            assert(keys_increasing(post.sales, post.next_sale_id));
            assert(keys_increasing(post.notifications, post.next_notification_id)) by {
                assert forall|x: int, y: int| 0 <= x < y < post.notifications.len() implies (
                #[trigger] post.notifications[x]).key() < (#[trigger] post.notifications[y]).key() by {
                    if y < base_n {
                        assert(pre0.notifications[x].key() < pre0.notifications[y].key());
                    } else if x < base_n {
                        assert(pre0.notifications[x].key() < pre0.next_notification_id);
                    }
                }
                assert forall|x: int| 0 <= x < post.notifications.len() implies (
                #[trigger] post.notifications[x]).key() < post.next_notification_id by {
                    if x < base_n {
                        assert(pre0.notifications[x].key() < pre0.next_notification_id);
                    }
                }
            }
            assert forall|idx: u64| has_key(pre0.products, idx) implies has_key(
                post.products,
                idx,
            ) by {
                lemma_same_keys_has_key(pre0.products, post.products, idx);
            }
            // References of old and new rows.
            assert forall|i: int|
                0 <= i < post.sale_items.len() implies has_key(
                post.products,
                (#[trigger] post.sale_items[i]).product_id,
            ) && has_key(post.sales, post.sale_items[i].sale_id) by {
                if i < base {
                    assert(post.sale_items[i] == pre0.sale_items[i]);
                    assert(has_key(pre0.sales, pre0.sale_items[i].sale_id));
                } else {
                    assert(post.sale_items[i].product_id == items@[i - base].product_id);
                    assert(has_key(pre0.products, items@[i - base].product_id));
                    assert(post.sales[pre0.sales.len() as int].key() == sale_id);
                }
            }
            assert forall|i: int|
                0 <= i < post.sales.len() implies ((#[trigger] post.sales[i]).customer_id
                matches Some(c) ==> has_key(post.customers, c)) by {
                if i < pre0.sales.len() {
                    assert(post.sales[i] == pre0.sales[i]);
                }
            }
            assert forall|i: int| 0 <= i < post.shares.len() implies post.entity_exists(
                (#[trigger] post.shares[i]).entity,
            ) by {
                assert(pre0.entity_exists(pre0.shares[i].entity));
            }
            // Primary-key pairs of the line items.
            assert(crate::ledger::sale_item_pairs_unique(post.sale_items)) by {
                assert forall|x: int, y: int| 0 <= x < y < post.sale_items.len() implies !((
                #[trigger] post.sale_items[x]).sale_id == (#[trigger] post.sale_items[y]).sale_id
                    && post.sale_items[x].product_id == post.sale_items[y].product_id) by {
                    if x < base && y >= base {
                        let sid = pre0.sale_items[x].sale_id;
                        assert(has_key(pre0.sales, sid));
                        let w = choose|w: int|
                            0 <= w < pre0.sales.len() && (#[trigger] pre0.sales[w]).key() == sid;
                        assert(pre0.sales[w].key() < pre0.next_sale_id);
                    }
                }
            }
            // Stock conservation.
            assert(post.conservation()) by {
                assert forall|i: int| 0 <= i < post.products.len() implies (
                #[trigger] post.products[i]).stock + sold_of(
                    post.sale_items,
                    post.products[i].id,
                ) == post.products[i].opening_stock + purchased_of(
                    post.purchases,
                    post.products[i].id,
                ) by {
                    let p = pre0.products[i];
                    assert forall|j: int|
                        0 <= j < items@.len() implies (#[trigger] post.sale_items[base + j]).product_id
                            == items@[j].product_id && post.sale_items[base + j].quantity
                            == items@[j].quantity by {}
                    crate::ledger::lemma_sold_append(
                        pre0.sale_items,
                        post.sale_items,
                        items@,
                        p.id,
                    );
                    crate::inventory::lemma_demand_nonneg(items@, p.id);
                    if has_item(items@, p.id) {
                        let j = choose|j: int|
                            0 <= j < items@.len() && (#[trigger] items@[j]).product_id == p.id;
                        crate::inventory::lemma_demand_single(items@, j);
                        assert(items@[j].quantity <= row_of(pre0.products, p.id).stock);
                        lemma_key_at(pre0.products, pre0.next_product_id, p.id, i);
                    } else {
                        lemma_demand_absent_alt(items@, p.id);
                    }
                    assert(post.products[i] == sale_applied(p, items@));
                }
            }
        }
        Ok(sale_id)
    }

    /// Records an expense, optionally attaching a full ownership share set
    /// distributing its cost among owners — a non-shared expense is legal
    /// and implies full allocation to no one. Supplied shares must name
    /// existing owners, pairwise different, with percentages in [0, 100]
    /// summing to exactly 100. Rejects a missing owner with `NotFound`; a
    /// repeated owner or a percentage over 100 with `ConstraintViolation`;
    /// and a sum other than 100 with `InvalidShareSum`.
    pub fn record_expense(
        &mut self,
        category: String,
        amount: u64,
        description: Option<String>,
        payment_method: PaymentMethod,
        share_plan: Option<Vec<ShareReq>>,
        now: u64,
    ) -> (r: Result<u64, LedgerError>)
        requires
            old(self).wf(),
            old(self)@.next_expense_id < u64::MAX,
        ensures
            final(self).wf(),
            r == Err::<u64, LedgerError>(LedgerError::NotFound) <==> (share_plan matches Some(reqs)
                && !reqs_known(old(self)@.owners, reqs@)),
            r == Err::<u64, LedgerError>(LedgerError::ConstraintViolation) <==> (share_plan
                matches Some(reqs) && reqs_known(old(self)@.owners, reqs@) && (!reqs_distinct(reqs@)
                || !reqs_bounded(reqs@))),
            r == Err::<u64, LedgerError>(LedgerError::InvalidShareSum) <==> (share_plan
                matches Some(reqs) && reqs_known(old(self)@.owners, reqs@) && reqs_distinct(reqs@)
                && reqs_bounded(reqs@) && req_pct_sum(reqs@) != 100),
            r is Ok <==> (share_plan matches Some(reqs) ==> (reqs_known(old(self)@.owners, reqs@)
                && reqs_distinct(reqs@) && reqs_bounded(reqs@) && req_pct_sum(reqs@) == 100)),
            r is Err ==> final(self)@ == old(self)@,
            r is Ok ==> r == Ok::<u64, LedgerError>(old(self)@.next_expense_id)
                && final(self)@.expenses == old(self)@.expenses.push(
                Expense {
                    id: old(self)@.next_expense_id,
                    created_at: now,
                    category,
                    amount,
                    description,
                    payment_method,
                },
            ) && (share_plan matches Some(reqs) ==> final(self)@.shares.len()
                == old(self)@.shares.len() + reqs@.len() && (forall|k: int|
                0 <= k < old(self)@.shares.len() ==> #[trigger] final(self)@.shares[k]
                    == old(self)@.shares[k]) && (forall|k: int|
                0 <= k < reqs@.len() ==> #[trigger] final(self)@.shares[old(self)@.shares.len() + k]
                    == (ShareRow {
                    entity: EntityRef::Expense(old(self)@.next_expense_id),
                    owner_id: reqs@[k].owner_id,
                    percentage: reqs@[k].percentage,
                }))) && (share_plan is None ==> final(self)@.shares == old(self)@.shares)
                && final(self)@ == old(self)@.with_expenses(
                final(self)@.expenses,
                (old(self)@.next_expense_id + 1) as u64,
            ).with_shares(final(self)@.shares),
            sales_monotonic(old(self)@.sales, final(self)@.sales),
    {
        match &share_plan {
            None => {},
            Some(reqs) => {
                // Validate: every owner exists.
                let mut k: usize = 0;
                while k < reqs.len()
                    invariant
                        k <= reqs@.len(),
                        old(self) == self,
                        old(self).wf(),
                        share_plan matches Some(sp) && sp@ == reqs@,
                        forall|j: int|
                            0 <= j < k ==> has_key(self@.owners, (#[trigger] reqs@[j]).owner_id),
                    decreases reqs@.len() - k,
                {
                    if find_by_key(&self.owners, reqs[k].owner_id).is_none() {
                        return Err(LedgerError::NotFound);
                    }
                    k = k + 1;
                }
                // Validate: no owner is named twice.
                let mut a: usize = 0;
                while a < reqs.len()
                    invariant
                        a <= reqs@.len(),
                        old(self) == self,
                        old(self).wf(),
                        share_plan matches Some(sp) && sp@ == reqs@,
                        reqs_known(self@.owners, reqs@),
                        forall|i: int, j: int|
                            0 <= i < j < a ==> (#[trigger] reqs@[i]).owner_id != (
                            #[trigger] reqs@[j]).owner_id,
                    decreases reqs@.len() - a,
                {
                    let mut b: usize = 0;
                    while b < a
                        invariant
                            b <= a < reqs@.len(),
                            old(self) == self,
                            old(self).wf(),
                            share_plan matches Some(sp) && sp@ == reqs@,
                            reqs_known(self@.owners, reqs@),
                            forall|i: int|
                                0 <= i < b ==> (#[trigger] reqs@[i]).owner_id != reqs@[a as int].owner_id,
                        decreases a - b,
                    {
                        if reqs[b].owner_id == reqs[a].owner_id {
                            return Err(LedgerError::ConstraintViolation);
                        }
                        b = b + 1;
                    }
                    a = a + 1;
                }
                // Validate: every percentage lies in [0, 100].
                let mut k: usize = 0;
                while k < reqs.len()
                    invariant
                        k <= reqs@.len(),
                        old(self) == self,
                        old(self).wf(),
                        share_plan matches Some(sp) && sp@ == reqs@,
                        reqs_known(self@.owners, reqs@),
                        reqs_distinct(reqs@),
                        forall|j: int| 0 <= j < k ==> (#[trigger] reqs@[j]).percentage <= 100,
                    decreases reqs@.len() - k,
                {
                    if reqs[k].percentage > 100 {
                        return Err(LedgerError::ConstraintViolation);
                    }
                    k = k + 1;
                }
                // Validate: the set is fully allocated.
                let mut sum: u64 = 0;
                let mut k: usize = 0;
                while k < reqs.len()
                    invariant
                        k <= reqs@.len(),
                        old(self) == self,
                        old(self).wf(),
                        share_plan matches Some(sp) && sp@ == reqs@,
                        reqs_known(self@.owners, reqs@),
                        reqs_distinct(reqs@),
                        reqs_bounded(reqs@),
                        sum as int == req_pct_sum(reqs@.subrange(0, k as int)),
                        sum <= 100,
                    decreases reqs@.len() - k,
                {
                    proof {
                        lemma_subrange_push(reqs@, k as int);
                    }
                    let p = reqs[k].percentage;
                    if sum + p > 100 {
                        proof {
                            crate::shares::lemma_req_sum_mono(reqs@, k as int + 1);
                        }
                        return Err(LedgerError::InvalidShareSum);
                    }
                    sum = sum + p;
                    k = k + 1;
                }
                proof {
                    assert(reqs@.subrange(0, reqs@.len() as int) =~= reqs@);
                }
                if sum != 100 {
                    return Err(LedgerError::InvalidShareSum);
                }
            },
        }
        // Commit: the expense row, then its share set.
        let ghost pre = self@;
        let id = self.next_expense_id;
        self.expenses.push(
            Expense { id, created_at: now, category, amount, description, payment_method },
        );
        self.next_expense_id = id + 1;
        let ghost mid = self@;
        match &share_plan {
            None => {},
            Some(reqs) => {
                let ghost base = self@.shares.len() as int;
                let mut k: usize = 0;
                while k < reqs.len()
                    invariant
                        k <= reqs@.len(),
                        self@ == mid.with_shares(self@.shares),
                        base == mid.shares.len() as int,
                        self@.shares.len() == base + k,
                        forall|j: int|
                            0 <= j < base ==> #[trigger] self@.shares[j] == mid.shares[j],
                        forall|j: int|
                            base <= j < base + k ==> #[trigger] self@.shares[j] == (ShareRow {
                                entity: EntityRef::Expense(id),
                                owner_id: reqs@[j - base].owner_id,
                                percentage: reqs@[j - base].percentage,
                            }),
                    decreases reqs@.len() - k,
                {
                    let ghost before = self@.shares;
                    let row = ShareRow {
                        entity: EntityRef::Expense(id),
                        owner_id: reqs[k].owner_id,
                        percentage: reqs[k].percentage,
                    };
                    self.shares.push(row);
                    proof {
                        assert(self@.shares == before.push(row));
                        assert forall|j: int|
                            base <= j < base + (k as int) + 1 implies #[trigger] self@.shares[j]
                                == (ShareRow {
                                entity: EntityRef::Expense(id),
                                owner_id: reqs@[j - base].owner_id,
                                percentage: reqs@[j - base].percentage,
                            }) by {
                            if j != base + k as int {
                                assert(before.push(row)[j] == before[j]);
                            } else {
                                assert(before.push(row)[j] == row);
                            }
                        }
                        assert forall|j: int| 0 <= j < base implies #[trigger] self@.shares[j]
                            == mid.shares[j] by {
                            assert(before.push(row)[j] == before[j]);
                        }
                    }
                    k = k + 1;
                }
            },
        }
        proof {
            let post = self@;
            assert forall|i: int|
                0 <= i < post.shares.len() implies has_key(
                post.owners,
                (#[trigger] post.shares[i]).owner_id,
            ) && post.entity_exists(post.shares[i].entity) && post.shares[i].percentage <= 100 by {
                if i < pre.shares.len() {
                    assert(post.shares[i] == pre.shares[i]);
                    assert(has_key(pre.owners, pre.shares[i].owner_id));
                    assert(pre.entity_exists(pre.shares[i].entity));
                    match pre.shares[i].entity {
                        EntityRef::Product(_) => {},
                        EntityRef::Expense(e) => {
                            assert(post.expenses[key_index(pre.expenses, e)].id == e);
                            assert(has_key(post.expenses, e)) by {
                                let w = choose|w: int|
                                    0 <= w < pre.expenses.len() && (#[trigger] pre.expenses[w]).key()
                                        == e;
                                assert(post.expenses[w].key() == e);
                            }
                        },
                    }
                } else {
                    assert(post.expenses[pre.expenses.len() as int].key() == id);
                }
            }
            assert(crate::ledger::share_pairs_unique(post.shares)) by {
                assert forall|x: int, y: int| 0 <= x < y < post.shares.len() implies !((
                #[trigger] post.shares[x]).entity == (#[trigger] post.shares[y]).entity
                    && post.shares[x].owner_id == post.shares[y].owner_id) by {
                    if x < pre.shares.len() && y >= pre.shares.len() {
                        match pre.shares[x].entity {
                            EntityRef::Product(_) => {},
                            EntityRef::Expense(e) => {
                                assert(has_key(pre.expenses, e));
                                let w = choose|w: int|
                                    0 <= w < pre.expenses.len() && (#[trigger] pre.expenses[w]).key()
                                        == e;
                                assert(pre.expenses[w].key() < pre.next_expense_id);
                            },
                        }
                    }
                }
            }
            assert(post.conservation()) by {
                assert forall|i: int| 0 <= i < post.products.len() implies (
                #[trigger] post.products[i]).stock + sold_of(
                    post.sale_items,
                    post.products[i].id,
                ) == post.products[i].opening_stock + purchased_of(
                    post.purchases,
                    post.products[i].id,
                ) by {
                    assert(pre.products[i].stock + sold_of(pre.sale_items, pre.products[i].id)
                        == pre.products[i].opening_stock + purchased_of(
                        pre.purchases,
                        pre.products[i].id,
                    ));
                }
            }
        }
        Ok(id)
    }

    /// Records a purchase: validates the product and the optional supplier,
    /// derives the total as quantity times unit cost, increases stock
    /// through the inventory engine, and persists the purchase row — all as
    /// one atomic unit. Rejects a missing product or supplier with
    /// `NotFound`; a zero quantity, a total beyond the currency type or a
    /// stock counter overflow with `ConstraintViolation`.
    pub fn record_purchase(
        &mut self,
        product_id: u64,
        supplier_id: Option<u64>,
        quantity: u64,
        unit_cost: u64,
        payment_method: PaymentMethod,
        now: u64,
    ) -> (r: Result<u64, LedgerError>)
        requires
            old(self).wf(),
            old(self)@.next_purchase_id < u64::MAX,
        ensures
            final(self).wf(),
            r == Err::<u64, LedgerError>(LedgerError::NotFound) <==> !(has_key(
                old(self)@.products,
                product_id,
            ) && (supplier_id matches Some(s) ==> has_key(old(self)@.suppliers, s))),
            r == Err::<u64, LedgerError>(LedgerError::ConstraintViolation) <==> (has_key(
                old(self)@.products,
                product_id,
            ) && (supplier_id matches Some(s) ==> has_key(old(self)@.suppliers, s)) && (quantity
                == 0 || quantity * unit_cost > u64::MAX || row_of(
                old(self)@.products,
                product_id,
            ).stock + quantity > u64::MAX)),
            r is Ok <==> (has_key(old(self)@.products, product_id) && (supplier_id matches Some(s)
                ==> has_key(old(self)@.suppliers, s)) && quantity > 0 && quantity * unit_cost
                <= u64::MAX && row_of(old(self)@.products, product_id).stock + quantity
                <= u64::MAX),
            r is Err ==> final(self)@ == old(self)@,
            r is Ok ==> r == Ok::<u64, LedgerError>(old(self)@.next_purchase_id)
                && final(self)@.products.len() == old(self)@.products.len() && (forall|k: int|
                0 <= k < old(self)@.products.len() ==> #[trigger] final(self)@.products[k]
                    == purchase_applied(old(self)@.products[k], product_id, quantity))
                && final(self)@ == old(self)@.with_products(final(self)@.products, old(self)@.next_product_id)
                .with_purchases(
                old(self)@.purchases.push(
                    Purchase {
                        id: old(self)@.next_purchase_id,
                        product_id,
                        supplier_id,
                        created_at: now,
                        quantity,
                        total: (quantity * unit_cost) as u64,
                        payment_method,
                    },
                ),
                (old(self)@.next_purchase_id + 1) as u64,
            ),
            sales_monotonic(old(self)@.sales, final(self)@.sales),
    {
        if self.inventory.find(product_id).is_none() {
            return Err(LedgerError::NotFound);
        }
        match supplier_id {
            Some(s) => {
                if find_by_key(&self.suppliers, s).is_none() {
                    return Err(LedgerError::NotFound);
                }
            },
            None => {},
        }
        if quantity == 0 {
            return Err(LedgerError::ConstraintViolation);
        }
        let total = match quantity.checked_mul(unit_cost) {
            None => {
                return Err(LedgerError::ConstraintViolation);
            },
            Some(t) => t,
        };
        match self.inventory.apply_purchase(product_id, quantity) {
            Err(e) => {
                proof {
                    assert(e == LedgerError::ConstraintViolation);
                }
                return Err(e);
            },
            Ok(()) => {},
        }
        let id = self.next_purchase_id;
        self.purchases.push(
            Purchase {
                id,
                product_id,
                supplier_id,
                created_at: now,
                quantity,
                total,
                payment_method,
            },
        );
        self.next_purchase_id = id + 1;
        proof {
            let pre = old(self)@;
            let post = self@;
            assert forall|idx: u64| has_key(pre.products, idx) implies has_key(
                post.products,
                idx,
            ) by {
                lemma_same_keys_has_key(pre.products, post.products, idx);
            }
            assert forall|i: int| 0 <= i < post.shares.len() implies post.entity_exists(
                (#[trigger] post.shares[i]).entity,
            ) by {
                assert(pre.entity_exists(pre.shares[i].entity));
            }
            assert(post.conservation()) by {
                assert forall|i: int| 0 <= i < post.products.len() implies (
                #[trigger] post.products[i]).stock + sold_of(
                    post.sale_items,
                    post.products[i].id,
                ) == post.products[i].opening_stock + purchased_of(
                    post.purchases,
                    post.products[i].id,
                ) by {
                    assert(post.purchases.drop_last() == pre.purchases);
                    assert(pre.products[i].stock + sold_of(pre.sale_items, pre.products[i].id)
                        == pre.products[i].opening_stock + purchased_of(
                        pre.purchases,
                        pre.products[i].id,
                    ));
                }
            }
        }
        Ok(id)
    }
}

} // verus!
