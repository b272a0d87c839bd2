//! Read access for callers and tests: row counts, single fields looked up
//! by identifier, and the next free identifiers.

use vstd::prelude::*;
use crate::types::EntityRef;
use crate::keyed::find_by_key;
use crate::keyed::has_key;
use crate::keyed::row_of;
use crate::keyed::lemma_key_at;
use crate::keyed::Keyed;
use crate::ledger::Ledger;

verus! {

impl Ledger {
    /// The number of products on the books.
    pub fn n_products(&self) -> (r: usize)
        ensures
            r == self@.products.len(),
    {
        self.inventory.len()
    }

    /// The number of committed purchases.
    pub fn n_purchases(&self) -> (r: usize)
        ensures
            r == self@.purchases.len(),
    {
        self.purchases.len()
    }

    /// The number of committed sales.
    pub fn n_sales(&self) -> (r: usize)
        ensures
            r == self@.sales.len(),
    {
        self.sales.len()
    }

    /// The number of committed sale line items.
    pub fn n_sale_items(&self) -> (r: usize)
        ensures
            r == self@.sale_items.len(),
    {
        self.sale_items.len()
    }

    /// The number of committed expenses.
    pub fn n_expenses(&self) -> (r: usize)
        ensures
            r == self@.expenses.len(),
    {
        self.expenses.len()
    }

    /// The number of suppliers on the books.
    pub fn n_suppliers(&self) -> (r: usize)
        ensures
            r == self@.suppliers.len(),
    {
        self.suppliers.len()
    }

    /// The number of customers on the books.
    pub fn n_customers(&self) -> (r: usize)
        ensures
            r == self@.customers.len(),
    {
        self.customers.len()
    }

    /// The number of owners on the books.
    pub fn n_owners(&self) -> (r: usize)
        ensures
            r == self@.owners.len(),
    {
        self.owners.len()
    }

    /// The number of share rows, over all entities.
    pub fn n_shares(&self) -> (r: usize)
        ensures
            r == self@.shares.len(),
    {
        self.shares.len()
    }

    /// The number of notifications.
    pub fn n_notifications(&self) -> (r: usize)
        ensures
            r == self@.notifications.len(),
    {
        self.notifications.len()
    }

    /// A product's current stock, or none for an unknown product.
    pub fn product_stock(&self, product_id: u64) -> (r: Option<u64>)
        requires
            self.wf(),
        ensures
            r == (if has_key(self@.products, product_id) {
                Some(row_of(self@.products, product_id).stock)
            } else {
                None::<u64>
            }),
    {
        match self.inventory.find(product_id) {
            None => None,
            Some(i) => {
                proof {
                    lemma_key_at(
                        self@.products,
                        self@.next_product_id,
                        product_id,
                        i as int,
                    );
                }
                Some(self.inventory.at(i).stock)
            },
        }
    }

    /// A product's current unit price, or none for an unknown product.
    pub fn product_price(&self, product_id: u64) -> (r: Option<u64>)
        requires
            self.wf(),
        ensures
            r == (if has_key(self@.products, product_id) {
                Some(row_of(self@.products, product_id).price)
            } else {
                None::<u64>
            }),
    {
        match self.inventory.find(product_id) {
            None => None,
            Some(i) => {
                proof {
                    lemma_key_at(
                        self@.products,
                        self@.next_product_id,
                        product_id,
                        i as int,
                    );
                }
                Some(self.inventory.at(i).price)
            },
        }
    }

    /// A product's low-stock threshold, or none for an unknown product.
    pub fn product_threshold(&self, product_id: u64) -> (r: Option<u64>)
        requires
            self.wf(),
        ensures
            r == (if has_key(self@.products, product_id) {
                Some(row_of(self@.products, product_id).low_stock_threshold)
            } else {
                None::<u64>
            }),
    {
        match self.inventory.find(product_id) {
            None => None,
            Some(i) => {
                proof {
                    lemma_key_at(
                        self@.products,
                        self@.next_product_id,
                        product_id,
                        i as int,
                    );
                }
                Some(self.inventory.at(i).low_stock_threshold)
            },
        }
    }

    /// A sale's settlement timestamp — none inside the option for a sale
    /// still unpaid — or none overall for an unknown sale.
    pub fn sale_paid_at(&self, sale_id: u64) -> (r: Option<Option<u64>>)
        requires
            self.wf(),
        ensures
            r == (if has_key(self@.sales, sale_id) {
                Some(row_of(self@.sales, sale_id).paid_at)
            } else {
                None::<Option<u64>>
            }),
    {
        match find_by_key(&self.sales, sale_id) {
            None => None,
            Some(i) => {
                proof {
                    lemma_key_at(self@.sales, self@.next_sale_id, sale_id, i as int);
                }
                Some(self.sales[i].paid_at)
            },
        }
    }

    /// A purchase's supplier reference — none inside the option after the
    /// supplier was deleted — or none overall for an unknown purchase.
    pub fn purchase_supplier(&self, purchase_id: u64) -> (r: Option<Option<u64>>)
        requires
            self.wf(),
        ensures
            r == (if has_key(self@.purchases, purchase_id) {
                Some(row_of(self@.purchases, purchase_id).supplier_id)
            } else {
                None::<Option<u64>>
            }),
    {
        match find_by_key(&self.purchases, purchase_id) {
            None => None,
            Some(i) => {
                proof {
                    lemma_key_at(self@.purchases, self@.next_purchase_id, purchase_id, i as int);
                }
                Some(self.purchases[i].supplier_id)
            },
        }
    }

    /// A purchase's total amount — the quantity times the unit cost at the
    /// time of purchase — or none overall for an unknown purchase.
    pub fn purchase_total(&self, purchase_id: u64) -> (r: Option<u64>)
        requires
            self.wf(),
        ensures
            r == (if has_key(self@.purchases, purchase_id) {
                Some(row_of(self@.purchases, purchase_id).total)
            } else {
                None::<u64>
            }),
    {
        match find_by_key(&self.purchases, purchase_id) {
            None => None,
            Some(i) => {
                proof {
                    lemma_key_at(self@.purchases, self@.next_purchase_id, purchase_id, i as int);
                }
                Some(self.purchases[i].total)
            },
        }
    }

    /// A sale's total amount, or none overall for an unknown sale.
    pub fn sale_total(&self, sale_id: u64) -> (r: Option<u64>)
        requires
            self.wf(),
        ensures
            r == (if has_key(self@.sales, sale_id) {
                Some(row_of(self@.sales, sale_id).total)
            } else {
                None::<u64>
            }),
    {
        match find_by_key(&self.sales, sale_id) {
            None => None,
            Some(i) => {
                proof {
                    lemma_key_at(self@.sales, self@.next_sale_id, sale_id, i as int);
                }
                Some(self.sales[i].total)
            },
        }
    }

    /// A notification's target row and read timestamp, by position, or none
    /// past the end of the table.
    pub fn notification_at(&self, index: usize) -> (r: Option<(u64, Option<u64>)>)
        ensures
            r == (if index < self@.notifications.len() {
                Some(
                    (
                        self@.notifications[index as int].target,
                        self@.notifications[index as int].read_at,
                    ),
                )
            } else {
                None::<(u64, Option<u64>)>
            }),
    {
        if index < self.notifications.len() {
            Some((self.notifications[index].target, self.notifications[index].read_at))
        } else {
            None
        }
    }

    /// One owner's stored percentage for an entity, or none where no such
    /// share row exists.
    pub fn share_percentage(&self, entity: EntityRef, owner_id: u64) -> (r: Option<u64>)
        ensures
            r is Some <==> (exists|k: int|
                0 <= k < self@.shares.len() && (#[trigger] self@.shares[k]).entity == entity
                    && self@.shares[k].owner_id == owner_id),
            r matches Some(p) ==> exists|k: int|
                0 <= k < self@.shares.len() && (#[trigger] self@.shares[k]).entity == entity
                    && self@.shares[k].owner_id == owner_id && self@.shares[k].percentage == p,
    {
        let mut k: usize = 0;
        while k < self.shares.len()
            invariant
                k <= self@.shares.len(),
                forall|j: int|
                    0 <= j < k ==> !((#[trigger] self@.shares[j]).entity == entity
                        && self@.shares[j].owner_id == owner_id),
            decreases self@.shares.len() - k,
        {
            let row = self.shares[k];
            if row.entity == entity && row.owner_id == owner_id {
                return Some(row.percentage);
            }
            k = k + 1;
        }
        None
    }

    /// The next identifier each table would hand out, in table order:
    /// products, suppliers, customers, owners, purchases, sales, expenses,
    /// notifications.
    pub fn next_ids(&self) -> (r: (u64, u64, u64, u64, u64, u64, u64, u64))
        ensures
            r.0 == self@.next_product_id,
            r.1 == self@.next_supplier_id,
            r.2 == self@.next_customer_id,
            r.3 == self@.next_owner_id,
            r.4 == self@.next_purchase_id,
            r.5 == self@.next_sale_id,
            r.6 == self@.next_expense_id,
            r.7 == self@.next_notification_id,
    {
        (
            self.inventory.next_id(),
            self.next_supplier_id,
            self.next_customer_id,
            self.next_owner_id,
            self.next_purchase_id,
            self.next_sale_id,
            self.next_expense_id,
            self.next_notification_id,
        )
    }
}

} // verus!
