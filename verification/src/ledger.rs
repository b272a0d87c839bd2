//! The ledger: the inventory engine plus master data, the append-only
//! journal of purchases, sales and expenses, ownership shares, settlement
//! state and notifications, all under one well-formedness invariant.

use vstd::prelude::*;
use crate::types::Customer;
use crate::types::EntityRef;
use crate::types::Expense;
use crate::types::Notification;
use crate::types::Owner;
use crate::types::Purchase;
use crate::types::Sale;
use crate::types::SaleItem;
use crate::types::ShareRow;
use crate::types::Supplier;
use crate::types::Product;
use crate::inventory::Inventory;
use crate::keyed::has_key;
use crate::keyed::keys_increasing;
use crate::keyed::names_unique;

verus! {

/// Total quantity of one product sold across all committed sale items.
pub open spec fn sold_of(items: Seq<SaleItem>, pid: u64) -> int
    decreases items.len(),
{
    if items.len() == 0 {
        0int
    } else {
        sold_of(items.drop_last(), pid) + if items.last().product_id == pid {
            items.last().quantity as int
        } else {
            0int
        }
    }
}

/// Total quantity of one product bought across all committed purchases.
pub open spec fn purchased_of(purchases: Seq<Purchase>, pid: u64) -> int
    decreases purchases.len(),
{
    if purchases.len() == 0 {
        0int
    } else {
        purchased_of(purchases.drop_last(), pid) + if purchases.last().product_id == pid {
            purchases.last().quantity as int
        } else {
            0int
        }
    }
}

/// A product no sale item names was never sold.
pub proof fn lemma_sold_of_absent(items: Seq<SaleItem>, pid: u64)
    requires
        forall|k: int| 0 <= k < items.len() ==> (#[trigger] items[k]).product_id != pid,
    ensures
        sold_of(items, pid) == 0,
    decreases items.len(),
{
    if items.len() > 0 {
        assert(items.last() == items[items.len() - 1]);
        lemma_sold_of_absent(items.drop_last(), pid);
    }
}

/// Appending a sale's line items raises each product's sold total by
/// exactly the batch's demand on it.
pub proof fn lemma_sold_append(
    pre: Seq<SaleItem>,
    post: Seq<SaleItem>,
    items: Seq<crate::types::ItemReq>,
    pid: u64,
)
    requires
        post.len() == pre.len() + items.len(),
        forall|k: int| 0 <= k < pre.len() ==> #[trigger] post[k] == pre[k],
        forall|k: int|
            0 <= k < items.len() ==> (#[trigger] post[pre.len() + k]).product_id
                == items[k].product_id && post[pre.len() + k].quantity == items[k].quantity,
    ensures
        sold_of(post, pid) == sold_of(pre, pid) + crate::inventory::demand(items, pid),
    decreases items.len(),
{
    if items.len() == 0 {
        assert(post =~= pre);
    } else {
        let postd = post.drop_last();
        let itemsd = items.drop_last();
        assert forall|k: int| 0 <= k < pre.len() implies #[trigger] postd[k] == pre[k] by {
            assert(postd[k] == post[k]);
        }
        assert forall|k: int|
            0 <= k < itemsd.len() implies (#[trigger] postd[pre.len() + k]).product_id
                == itemsd[k].product_id && postd[pre.len() + k].quantity == itemsd[k].quantity by {
            assert(postd[pre.len() + k] == post[pre.len() + k]);
            assert(itemsd[k] == items[k]);
        }
        lemma_sold_append(pre, postd, itemsd, pid);
        assert(post.last() == post[pre.len() + (items.len() - 1)]);
        assert(items.last() == items[items.len() - 1]);
    }
}

/// A product no purchase names was never bought.
pub proof fn lemma_purchased_of_absent(purchases: Seq<Purchase>, pid: u64)
    requires
        forall|k: int| 0 <= k < purchases.len() ==> (#[trigger] purchases[k]).product_id != pid,
    ensures
        purchased_of(purchases, pid) == 0,
    decreases purchases.len(),
{
    if purchases.len() > 0 {
        assert(purchases.last() == purchases[purchases.len() - 1]);
        lemma_purchased_of_absent(purchases.drop_last(), pid);
    }
}

/// Every (sale, product) pair appears in at most one line item.
pub open spec fn sale_item_pairs_unique(items: Seq<SaleItem>) -> bool {
    forall|i: int, j: int|
        0 <= i < j < items.len() ==> !((#[trigger] items[i]).sale_id == (
        #[trigger] items[j]).sale_id && items[i].product_id == items[j].product_id)
}

/// Every (entity, owner) pair appears in at most one share row.
pub open spec fn share_pairs_unique(shares: Seq<ShareRow>) -> bool {
    forall|i: int, j: int|
        0 <= i < j < shares.len() ==> !((#[trigger] shares[i]).entity == (
        #[trigger] shares[j]).entity && shares[i].owner_id == shares[j].owner_id)
}

/// The share table without the rows attached to one entity.
pub open spec fn shares_without(shares: Seq<ShareRow>, e: EntityRef) -> Seq<ShareRow> {
    shares.filter(|r: ShareRow| r.entity != e)
}

/// A purchase with a reference to this supplier set to null; any other
/// purchase is untouched.
pub open spec fn supplier_nulled(p: Purchase, sid: u64) -> Purchase {
    if p.supplier_id == Some(sid) {
        Purchase { supplier_id: None, ..p }
    } else {
        p
    }
}

/// A sale with a reference to this customer set to null; any other sale is
/// untouched.
pub open spec fn customer_nulled(s: Sale, cid: u64) -> Sale {
    if s.customer_id == Some(cid) {
        Sale { customer_id: None, ..s }
    } else {
        s
    }
}

/// Nulling supplier references changes no purchased quantity.
pub proof fn lemma_purchased_of_nulled(pre: Seq<Purchase>, post: Seq<Purchase>, sid: u64, pid: u64)
    requires
        post.len() == pre.len(),
        forall|k: int| 0 <= k < pre.len() ==> #[trigger] post[k] == supplier_nulled(pre[k], sid),
    ensures
        purchased_of(post, pid) == purchased_of(pre, pid),
    decreases pre.len(),
{
    if pre.len() > 0 {
        assert forall|k: int| 0 <= k < pre.drop_last().len() implies #[trigger] post.drop_last()[k]
            == supplier_nulled(pre.drop_last()[k], sid) by {
            assert(post.drop_last()[k] == post[k]);
            assert(pre.drop_last()[k] == pre[k]);
        }
        lemma_purchased_of_nulled(pre.drop_last(), post.drop_last(), sid, pid);
        assert(post.last() == supplier_nulled(pre[pre.len() - 1], sid));
    }
}

/// Filtering the share table keeps its (entity, owner) pairs unique.
pub proof fn lemma_filter_share_pairs(shares: Seq<ShareRow>, pred: spec_fn(ShareRow) -> bool)
    requires
        share_pairs_unique(shares),
    ensures
        share_pairs_unique(shares.filter(pred)),
    decreases shares.len(),
{
    reveal(Seq::filter);
    if shares.len() > 0 {
        let dl = shares.drop_last();
        let last = shares.last();
        assert(share_pairs_unique(dl)) by {
            assert forall|i: int, j: int| 0 <= i < j < dl.len() implies !((#[trigger] dl[i]).entity
                == (#[trigger] dl[j]).entity && dl[i].owner_id == dl[j].owner_id) by {
                assert(dl[i] == shares[i]);
                assert(dl[j] == shares[j]);
            }
        }
        lemma_filter_share_pairs(dl, pred);
        let fd = dl.filter(pred);
        if pred(last) {
            assert forall|a: int| 0 <= a < fd.len() implies !((#[trigger] fd[a]).entity
                == last.entity && fd[a].owner_id == last.owner_id) by {
                crate::keyed::lemma_filter_elem(dl, pred, a);
                let w = choose|w: int| 0 <= w < dl.len() && dl[w] == fd[a];
                assert(shares[w] == fd[a]);
                assert(last == shares[shares.len() - 1]);
            }
            assert(shares.filter(pred) == fd.push(last));
        } else {
            assert(shares.filter(pred) == fd);
        }
    }
}

/// Removing one entity's rows keeps the share table's pairs unique.
pub proof fn lemma_shares_without_pairs(shares: Seq<ShareRow>, e: EntityRef)
    requires
        share_pairs_unique(shares),
    ensures
        share_pairs_unique(shares_without(shares, e)),
{
    lemma_filter_share_pairs(shares, |r: ShareRow| r.entity != e);
}

/// Sales only ever grow, identifiers stay put, and a settled sale keeps its
/// settlement timestamp: no operation returns a sale to unpaid.
pub open spec fn sales_monotonic(pre: Seq<Sale>, post: Seq<Sale>) -> bool {
    &&& pre.len() <= post.len()
    &&& forall|i: int|
        0 <= i < pre.len() ==> (#[trigger] post[i]).id == pre[i].id && (pre[i].paid_at is Some
            ==> post[i].paid_at == pre[i].paid_at)
}

/// The ledger's abstract state: one sequence per table plus the next free
/// identifier of each table that hands identifiers out.
pub struct LedgerView {
    pub products: Seq<Product>,
    pub suppliers: Seq<Supplier>,
    pub customers: Seq<Customer>,
    pub owners: Seq<Owner>,
    pub purchases: Seq<Purchase>,
    pub sales: Seq<Sale>,
    pub sale_items: Seq<SaleItem>,
    pub expenses: Seq<Expense>,
    pub shares: Seq<ShareRow>,
    pub notifications: Seq<Notification>,
    pub next_product_id: u64,
    pub next_supplier_id: u64,
    pub next_customer_id: u64,
    pub next_owner_id: u64,
    pub next_purchase_id: u64,
    pub next_sale_id: u64,
    pub next_expense_id: u64,
    pub next_notification_id: u64,
}

impl LedgerView {
    /// Every table's identifiers strictly increase and stay below its next
    /// free one.
    pub open spec fn tables_wf(self) -> bool {
        &&& keys_increasing(self.products, self.next_product_id)
        &&& keys_increasing(self.suppliers, self.next_supplier_id)
        &&& keys_increasing(self.customers, self.next_customer_id)
        &&& keys_increasing(self.owners, self.next_owner_id)
        &&& keys_increasing(self.purchases, self.next_purchase_id)
        &&& keys_increasing(self.sales, self.next_sale_id)
        &&& keys_increasing(self.expenses, self.next_expense_id)
        &&& keys_increasing(self.notifications, self.next_notification_id)
    }

    /// Product, supplier, customer and owner names are each unique.
    pub open spec fn names_wf(self) -> bool {
        &&& names_unique(self.products)
        &&& names_unique(self.suppliers)
        &&& names_unique(self.customers)
        &&& names_unique(self.owners)
    }

    /// This view with the product table and its next identifier replaced.
    pub open spec fn with_products(self, products: Seq<Product>, next: u64) -> LedgerView {
        LedgerView { products, next_product_id: next, ..self }
    }

    /// This view with the supplier table and its next identifier replaced.
    pub open spec fn with_suppliers(self, suppliers: Seq<Supplier>, next: u64) -> LedgerView {
        LedgerView { suppliers, next_supplier_id: next, ..self }
    }

    /// This view with the customer table and its next identifier replaced.
    pub open spec fn with_customers(self, customers: Seq<Customer>, next: u64) -> LedgerView {
        LedgerView { customers, next_customer_id: next, ..self }
    }

    /// This view with the owner table and its next identifier replaced.
    pub open spec fn with_owners(self, owners: Seq<Owner>, next: u64) -> LedgerView {
        LedgerView { owners, next_owner_id: next, ..self }
    }

    /// This view with the sale journal and its next identifier replaced.
    pub open spec fn with_sales(self, sales: Seq<Sale>, next: u64) -> LedgerView {
        LedgerView { sales, next_sale_id: next, ..self }
    }

    /// This view with the sale line items replaced.
    pub open spec fn with_sale_items(self, sale_items: Seq<SaleItem>) -> LedgerView {
        LedgerView { sale_items, ..self }
    }

    /// This view with the notification table and its next identifier
    /// replaced.
    pub open spec fn with_notifications(self, notifications: Seq<Notification>, next: u64) -> LedgerView {
        LedgerView { notifications, next_notification_id: next, ..self }
    }

    /// This view with the purchase journal replaced.
    pub open spec fn with_purchases(self, purchases: Seq<Purchase>, next: u64) -> LedgerView {
        LedgerView { purchases, next_purchase_id: next, ..self }
    }

    /// This view with the expense journal and its next identifier replaced.
    pub open spec fn with_expenses(self, expenses: Seq<Expense>, next: u64) -> LedgerView {
        LedgerView { expenses, next_expense_id: next, ..self }
    }

    /// This view with the share table replaced.
    pub open spec fn with_shares(self, shares: Seq<ShareRow>) -> LedgerView {
        LedgerView { shares, ..self }
    }

    /// The entity a share set is attached to is on the books.
    pub open spec fn entity_exists(self, e: EntityRef) -> bool {
        match e {
            EntityRef::Product(p) => has_key(self.products, p),
            EntityRef::Expense(x) => has_key(self.expenses, x),
        }
    }

    /// Every foreign reference points at an existing row.
    pub open spec fn refs_wf(self) -> bool {
        &&& forall|i: int|
            0 <= i < self.purchases.len() ==> has_key(
                self.products,
                (#[trigger] self.purchases[i]).product_id,
            ) && (self.purchases[i].supplier_id matches Some(s) ==> has_key(self.suppliers, s))
        &&& forall|i: int|
            0 <= i < self.sales.len() ==> ((#[trigger] self.sales[i]).customer_id matches Some(c)
                ==> has_key(self.customers, c))
        &&& forall|i: int|
            0 <= i < self.sale_items.len() ==> has_key(
                self.products,
                (#[trigger] self.sale_items[i]).product_id,
            ) && has_key(self.sales, self.sale_items[i].sale_id)
        &&& forall|i: int|
            0 <= i < self.shares.len() ==> has_key(
                self.owners,
                (#[trigger] self.shares[i]).owner_id,
            ) && self.entity_exists(self.shares[i].entity)
    }

    /// A sale names a product in at most one of its line items, and a share
    /// set names an owner at most once: the schema's primary-key pairs.
    pub open spec fn pairs_wf(self) -> bool {
        &&& sale_item_pairs_unique(self.sale_items)
        &&& share_pairs_unique(self.shares)
    }

    /// Every share percentage lies between 0 and 100.
    pub open spec fn shares_bounded(self) -> bool {
        forall|i: int| 0 <= i < self.shares.len() ==> (#[trigger] self.shares[i]).percentage <= 100
    }

    /// Stock is conserved: every product's stock equals its opening stock
    /// plus everything purchased minus everything sold, over the committed
    /// journal. In particular stock never goes negative at a committed state.
    pub open spec fn conservation(self) -> bool {
        forall|i: int|
            0 <= i < self.products.len() ==> (#[trigger] self.products[i]).stock + sold_of(
                self.sale_items,
                self.products[i].id,
            ) == self.products[i].opening_stock + purchased_of(
                self.purchases,
                self.products[i].id,
            )
    }

    /// The ledger's invariant: every committed state satisfies it.
    pub open spec fn wf(self) -> bool {
        &&& self.tables_wf()
        &&& self.names_wf()
        &&& self.refs_wf()
        &&& self.pairs_wf()
        &&& self.shares_bounded()
        &&& self.conservation()
    }
}

/// The transactional ledger. Every public operation is atomic: it either
/// commits its whole effect or leaves the ledger exactly as it was.
pub struct Ledger {
    pub inventory: Inventory,
    pub suppliers: Vec<Supplier>,
    pub customers: Vec<Customer>,
    pub owners: Vec<Owner>,
    pub purchases: Vec<Purchase>,
    pub sales: Vec<Sale>,
    pub sale_items: Vec<SaleItem>,
    pub expenses: Vec<Expense>,
    pub shares: Vec<ShareRow>,
    pub notifications: Vec<Notification>,
    pub next_supplier_id: u64,
    pub next_customer_id: u64,
    pub next_owner_id: u64,
    pub next_purchase_id: u64,
    pub next_sale_id: u64,
    pub next_expense_id: u64,
    pub next_notification_id: u64,
}

impl View for Ledger {
    type V = LedgerView;

    open spec fn view(&self) -> LedgerView {
        LedgerView {
            products: self.inventory@.products,
            suppliers: self.suppliers@,
            customers: self.customers@,
            owners: self.owners@,
            purchases: self.purchases@,
            sales: self.sales@,
            sale_items: self.sale_items@,
            expenses: self.expenses@,
            shares: self.shares@,
            notifications: self.notifications@,
            next_product_id: self.inventory@.next_product_id,
            next_supplier_id: self.next_supplier_id,
            next_customer_id: self.next_customer_id,
            next_owner_id: self.next_owner_id,
            next_purchase_id: self.next_purchase_id,
            next_sale_id: self.next_sale_id,
            next_expense_id: self.next_expense_id,
            next_notification_id: self.next_notification_id,
        }
    }
}

impl Ledger {
    /// The ledger's invariant, on the concrete state.
    pub open spec fn wf(&self) -> bool {
        self@.wf()
    }

    /// An empty ledger; every table hands identifiers out from 1.
    pub fn new() -> (l: Ledger)
        ensures
            l.wf(),
            l@.products.len() == 0,
            l@.suppliers.len() == 0,
            l@.customers.len() == 0,
            l@.owners.len() == 0,
            l@.purchases.len() == 0,
            l@.sales.len() == 0,
            l@.sale_items.len() == 0,
            l@.expenses.len() == 0,
            l@.shares.len() == 0,
            l@.notifications.len() == 0,
            l@.next_product_id == 1,
            l@.next_supplier_id == 1,
            l@.next_customer_id == 1,
            l@.next_owner_id == 1,
            l@.next_purchase_id == 1,
            l@.next_sale_id == 1,
            l@.next_expense_id == 1,
            l@.next_notification_id == 1,
    {
        Ledger {
            inventory: Inventory::new(),
            suppliers: Vec::new(),
            customers: Vec::new(),
            owners: Vec::new(),
            purchases: Vec::new(),
            sales: Vec::new(),
            sale_items: Vec::new(),
            expenses: Vec::new(),
            shares: Vec::new(),
            notifications: Vec::new(),
            next_supplier_id: 1,
            next_customer_id: 1,
            next_owner_id: 1,
            next_purchase_id: 1,
            next_sale_id: 1,
            next_expense_id: 1,
            next_notification_id: 1,
        }
    }
}

} // verus!
