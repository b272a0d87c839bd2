//! Master data: products, suppliers, customers and owners, with the
//! schema's uniqueness and delete policies. Deleting a supplier or customer
//! nulls the references on dependent journal rows and keeps the rows;
//! deleting an owner is rejected while any share references it; deleting a
//! product is rejected while any journal row references it and cascades to
//! its ownership shares.

use vstd::prelude::*;
use crate::types::Customer;
use crate::types::EntityRef;
use crate::types::LedgerError;
use crate::types::Owner;
use crate::types::Product;
use crate::types::ShareRow;
use crate::types::Supplier;
use crate::keyed::contains_name;
use crate::keyed::find_by_key;
use crate::keyed::has_key;
use crate::keyed::has_name;
use crate::keyed::key_index;
use crate::keyed::keys_increasing;
use crate::keyed::lemma_key_at;
use crate::keyed::lemma_filter_elem;
use crate::keyed::lemma_remove_keys_increasing;
use crate::keyed::lemma_remove_names_unique;
use crate::keyed::lemma_remove_preserves_other_keys;
use crate::keyed::lemma_same_keys_has_key;
use crate::keyed::lemma_subrange_push;
use crate::keyed::names_unique;
use crate::keyed::Keyed;
use crate::keyed::Named;
use crate::ledger::lemma_purchased_of_nulled;
use crate::ledger::lemma_shares_without_pairs;
use crate::ledger::customer_nulled;
use crate::ledger::purchased_of;
use crate::ledger::sales_monotonic;
use crate::ledger::shares_without;
use crate::ledger::sold_of;
use crate::ledger::supplier_nulled;
use crate::ledger::Ledger;
use crate::ledger::LedgerView;

verus! {

broadcast use crate::keyed::lemma_push_has_key, crate::keyed::lemma_push_drop_last;

impl Ledger {
    /// Adds a product to the catalog with its opening stock. Rejects a name
    /// already in use with `ConstraintViolation`; otherwise returns the
    /// fresh identifier.
    pub fn add_product(
        &mut self,
        name: String,
        category: String,
        price: u64,
        stock: u64,
        low_stock_threshold: u64,
    ) -> (r: Result<u64, LedgerError>)
        requires
            old(self).wf(),
            old(self)@.next_product_id < u64::MAX,
        ensures
            final(self).wf(),
            r == Err::<u64, LedgerError>(LedgerError::ConstraintViolation) <==> has_name(
                old(self)@.products,
                name@,
            ),
            r is Ok <==> !has_name(old(self)@.products, name@),
            r is Err ==> final(self)@ == old(self)@,
            r is Ok ==> r == Ok::<u64, LedgerError>(old(self)@.next_product_id) && final(self)@
                == old(self)@.with_products(
                old(self)@.products.push(
                    Product {
                        id: old(self)@.next_product_id,
                        name,
                        category,
                        price,
                        stock,
                        opening_stock: stock,
                        low_stock_threshold,
                    },
                ),
                (old(self)@.next_product_id + 1) as u64,
            ),
            sales_monotonic(old(self)@.sales, final(self)@.sales),
    {
        let r = self.inventory.add_product(name, category, price, stock, low_stock_threshold);
        match r {
            Err(e) => Err(e),
            Ok(id) => {
                proof {
                    let pre = old(self)@;
                    let post = self@;
                    let pid = pre.next_product_id;
                    assert forall|k: int|
                        0 <= k < pre.sale_items.len() implies (
                    #[trigger] pre.sale_items[k]).product_id != pid by {
                        let w = choose|w: int|
                            0 <= w < pre.products.len() && (#[trigger] pre.products[w]).key()
                                == pre.sale_items[k].product_id;
                        assert(pre.products[w].key() < pre.next_product_id);
                    }
                    crate::ledger::lemma_sold_of_absent(pre.sale_items, pid);
                    assert forall|k: int|
                        0 <= k < pre.purchases.len() implies (
                    #[trigger] pre.purchases[k]).product_id != pid by {
                        let w = choose|w: int|
                            0 <= w < pre.products.len() && (#[trigger] pre.products[w]).key()
                                == pre.purchases[k].product_id;
                        assert(pre.products[w].key() < pre.next_product_id);
                    }
                    crate::ledger::lemma_purchased_of_absent(pre.purchases, pid);
                    assert(post.conservation()) by {
                        assert forall|i: int| 0 <= i < post.products.len() implies (
                        #[trigger] post.products[i]).stock + sold_of(
                            post.sale_items,
                            post.products[i].id,
                        ) == post.products[i].opening_stock + purchased_of(
                            post.purchases,
                            post.products[i].id,
                        ) by {
                            if i < pre.products.len() {
                                assert(post.products[i] == pre.products[i]);
                            } else {
                                assert(post.products[i].id == pid);
                            }
                        }
                    }
                }
                Ok(id)
            },
        }
    }

    /// Updates a product's low-stock boundary. Rejects an unknown product
    /// with `NotFound`.
    pub fn adjust_threshold(&mut self, product_id: u64, new_threshold: u64) -> (r: Result<
        (),
        LedgerError,
    >)
        requires
            old(self).wf(),
        ensures
            final(self).wf(),
            r == Err::<(), LedgerError>(LedgerError::NotFound) <==> !has_key(
                old(self)@.products,
                product_id,
            ),
            r is Ok <==> has_key(old(self)@.products, product_id),
            r is Err ==> final(self)@ == old(self)@,
            r is Ok ==> final(self)@.products.len() == old(self)@.products.len() && (forall|k: int|
                0 <= k < old(self)@.products.len() ==> #[trigger] final(self)@.products[k] == (
                if old(self)@.products[k].id == product_id {
                    Product { low_stock_threshold: new_threshold, ..old(self)@.products[k] }
                } else {
                    old(self)@.products[k]
                })) && final(self)@ == old(self)@.with_products(
                final(self)@.products,
                old(self)@.next_product_id,
            ),
            sales_monotonic(old(self)@.sales, final(self)@.sales),
    {
        let r = self.inventory.adjust_threshold(product_id, new_threshold);
        match r {
            Err(e) => Err(e),
            Ok(()) => {
                proof {
                    let pre = old(self)@;
                    let post = self@;
                    assert forall|id: u64| has_key(pre.products, id) implies has_key(
                        post.products,
                        id,
                    ) by {
                        lemma_same_keys_has_key(pre.products, post.products, id);
                    }
                    assert forall|i: int| 0 <= i < post.shares.len() implies post.entity_exists(
                        (#[trigger] post.shares[i]).entity,
                    ) by {
                        assert(pre.entity_exists(pre.shares[i].entity));
                    }
                }
                Ok(())
            },
        }
    }

    /// Adds a supplier. Rejects a name already in use with
    /// `ConstraintViolation`; otherwise returns the fresh identifier.
    pub fn add_supplier(&mut self, name: String, phone: Option<String>, address: Option<String>)
        -> (r: Result<u64, LedgerError>)
        requires
            old(self).wf(),
            old(self)@.next_supplier_id < u64::MAX,
        ensures
            final(self).wf(),
            r == Err::<u64, LedgerError>(LedgerError::ConstraintViolation) <==> has_name(
                old(self)@.suppliers,
                name@,
            ),
            r is Ok <==> !has_name(old(self)@.suppliers, name@),
            r is Err ==> final(self)@ == old(self)@,
            r is Ok ==> r == Ok::<u64, LedgerError>(old(self)@.next_supplier_id) && final(self)@
                == old(self)@.with_suppliers(
                old(self)@.suppliers.push(
                    Supplier { id: old(self)@.next_supplier_id, name, phone, address },
                ),
                (old(self)@.next_supplier_id + 1) as u64,
            ),
            sales_monotonic(old(self)@.sales, final(self)@.sales),
    {
        if contains_name(&self.suppliers, &name) {
            return Err(LedgerError::ConstraintViolation);
        }
        let id = self.next_supplier_id;
        self.suppliers.push(Supplier { id, name, phone, address });
        self.next_supplier_id = id + 1;
        Ok(id)
    }

    /// Adds a customer. Rejects a name already in use with
    /// `ConstraintViolation`; otherwise returns the fresh identifier.
    pub fn add_customer(&mut self, name: String, phone: Option<String>) -> (r: Result<
        u64,
        LedgerError,
    >)
        requires
            old(self).wf(),
            old(self)@.next_customer_id < u64::MAX,
        ensures
            final(self).wf(),
            r == Err::<u64, LedgerError>(LedgerError::ConstraintViolation) <==> has_name(
                old(self)@.customers,
                name@,
            ),
            r is Ok <==> !has_name(old(self)@.customers, name@),
            r is Err ==> final(self)@ == old(self)@,
            r is Ok ==> r == Ok::<u64, LedgerError>(old(self)@.next_customer_id) && final(self)@
                == old(self)@.with_customers(
                old(self)@.customers.push(
                    Customer { id: old(self)@.next_customer_id, name, phone },
                ),
                (old(self)@.next_customer_id + 1) as u64,
            ),
            sales_monotonic(old(self)@.sales, final(self)@.sales),
    {
        if contains_name(&self.customers, &name) {
            return Err(LedgerError::ConstraintViolation);
        }
        let id = self.next_customer_id;
        self.customers.push(Customer { id, name, phone });
        self.next_customer_id = id + 1;
        Ok(id)
    }

    /// Adds an owner. Rejects a name already in use with
    /// `ConstraintViolation`; otherwise returns the fresh identifier.
    pub fn add_owner(&mut self, name: String, alias: Option<String>) -> (r: Result<
        u64,
        LedgerError,
    >)
        requires
            old(self).wf(),
            old(self)@.next_owner_id < u64::MAX,
        ensures
            final(self).wf(),
            r == Err::<u64, LedgerError>(LedgerError::ConstraintViolation) <==> has_name(
                old(self)@.owners,
                name@,
            ),
            r is Ok <==> !has_name(old(self)@.owners, name@),
            r is Err ==> final(self)@ == old(self)@,
            r is Ok ==> r == Ok::<u64, LedgerError>(old(self)@.next_owner_id) && final(self)@
                == old(self)@.with_owners(
                old(self)@.owners.push(Owner { id: old(self)@.next_owner_id, name, alias }),
                (old(self)@.next_owner_id + 1) as u64,
            ),
            sales_monotonic(old(self)@.sales, final(self)@.sales),
    {
        if contains_name(&self.owners, &name) {
            return Err(LedgerError::ConstraintViolation);
        }
        let id = self.next_owner_id;
        self.owners.push(Owner { id, name, alias });
        self.next_owner_id = id + 1;
        Ok(id)
    }

    /// Deletes a supplier. History is preserved: every purchase that
    /// referenced it keeps its row with the supplier reference set to null.
    /// Rejects an unknown supplier with `NotFound`.
    pub fn delete_supplier(&mut self, supplier_id: u64) -> (r: Result<(), LedgerError>)
        requires
            old(self).wf(),
        ensures
            final(self).wf(),
            r == Err::<(), LedgerError>(LedgerError::NotFound) <==> !has_key(
                old(self)@.suppliers,
                supplier_id,
            ),
            r is Ok <==> has_key(old(self)@.suppliers, supplier_id),
            r is Err ==> final(self)@ == old(self)@,
            r is Ok ==> final(self)@.purchases.len() == old(self)@.purchases.len() && (forall|
                k: int,
            |
                0 <= k < old(self)@.purchases.len() ==> #[trigger] final(self)@.purchases[k]
                    == supplier_nulled(old(self)@.purchases[k], supplier_id)) && final(self)@
                == old(self)@.with_suppliers(
                old(self)@.suppliers.remove(key_index(old(self)@.suppliers, supplier_id)),
                old(self)@.next_supplier_id,
            ).with_purchases(final(self)@.purchases, old(self)@.next_purchase_id),
            sales_monotonic(old(self)@.sales, final(self)@.sales),
    {
        let i = match find_by_key(&self.suppliers, supplier_id) {
            None => {
                return Err(LedgerError::NotFound);
            },
            Some(i) => i,
        };
        proof {
            lemma_key_at(self@.suppliers, self@.next_supplier_id, supplier_id, i as int);
        }
        self.suppliers.remove(i);
        let ghost mid = self@;
        let mut k: usize = 0;
        while k < self.purchases.len()
            invariant
                k <= self@.purchases.len(),
                self@.purchases.len() == mid.purchases.len(),
                forall|j: int|
                    0 <= j < k ==> #[trigger] self@.purchases[j] == supplier_nulled(
                        mid.purchases[j],
                        supplier_id,
                    ),
                forall|j: int|
                    k <= j < self@.purchases.len() ==> #[trigger] self@.purchases[j]
                        == mid.purchases[j],
                self@ == mid.with_purchases(self@.purchases, mid.next_purchase_id),
            decreases self@.purchases.len() - k,
        {
            let p = self.purchases[k];
            let is_target = match p.supplier_id {
                Some(s) => s == supplier_id,
                None => false,
            };
            if is_target {
                self.purchases[k].supplier_id = None;
            }
            k = k + 1;
        }
        proof {
            let pre = old(self)@;
            let post = self@;
            let idx = key_index(pre.suppliers, supplier_id);
            lemma_remove_keys_increasing(pre.suppliers, pre.next_supplier_id, idx);
            lemma_remove_names_unique(pre.suppliers, idx);
            assert(keys_increasing(post.purchases, post.next_purchase_id)) by {
                assert forall|a: int, b: int| 0 <= a < b < post.purchases.len() implies (
                #[trigger] post.purchases[a]).key() < (#[trigger] post.purchases[b]).key() by {
                    assert(pre.purchases[a].key() < pre.purchases[b].key());
                }
                assert forall|a: int| 0 <= a < post.purchases.len() implies (
                #[trigger] post.purchases[a]).key() < post.next_purchase_id by {
                    assert(pre.purchases[a].key() < pre.next_purchase_id);
                }
            }
            assert forall|a: int|
                0 <= a < post.purchases.len() implies has_key(
                post.products,
                (#[trigger] post.purchases[a]).product_id,
            ) && (post.purchases[a].supplier_id matches Some(s) ==> has_key(post.suppliers, s)) by {
                assert(pre.purchases[a].product_id == post.purchases[a].product_id);
                match post.purchases[a].supplier_id {
                    Some(s) => {
                        assert(pre.purchases[a].supplier_id == Some(s));
                        assert(s != supplier_id);
                        assert(has_key(pre.suppliers, s));
                        lemma_remove_preserves_other_keys(pre.suppliers, idx, s);
                    },
                    None => {},
                }
            }
            assert(post.conservation()) by {
                assert forall|i2: int| 0 <= i2 < post.products.len() implies (
                #[trigger] post.products[i2]).stock + sold_of(
                    post.sale_items,
                    post.products[i2].id,
                ) == post.products[i2].opening_stock + purchased_of(
                    post.purchases,
                    post.products[i2].id,
                ) by {
                    lemma_purchased_of_nulled(
                        pre.purchases,
                        post.purchases,
                        supplier_id,
                        post.products[i2].id,
                    );
                }
            }
        }
        Ok(())
    }

    /// Deletes a customer. History is preserved: every sale that referenced
    /// it keeps its row, settlement state included, with the customer
    /// reference set to null. Rejects an unknown customer with `NotFound`.
    pub fn delete_customer(&mut self, customer_id: u64) -> (r: Result<(), LedgerError>)
        requires
            old(self).wf(),
        ensures
            final(self).wf(),
            r == Err::<(), LedgerError>(LedgerError::NotFound) <==> !has_key(
                old(self)@.customers,
                customer_id,
            ),
            r is Ok <==> has_key(old(self)@.customers, customer_id),
            r is Err ==> final(self)@ == old(self)@,
            r is Ok ==> final(self)@.sales.len() == old(self)@.sales.len() && (forall|k: int|
                0 <= k < old(self)@.sales.len() ==> #[trigger] final(self)@.sales[k]
                    == customer_nulled(old(self)@.sales[k], customer_id)) && final(self)@
                == old(self)@.with_customers(
                old(self)@.customers.remove(key_index(old(self)@.customers, customer_id)),
                old(self)@.next_customer_id,
            ).with_sales(final(self)@.sales, old(self)@.next_sale_id),
            sales_monotonic(old(self)@.sales, final(self)@.sales),
    {
        let i = match find_by_key(&self.customers, customer_id) {
            None => {
                return Err(LedgerError::NotFound);
            },
            Some(i) => i,
        };
        proof {
            lemma_key_at(self@.customers, self@.next_customer_id, customer_id, i as int);
        }
        self.customers.remove(i);
        let ghost mid = self@;
        let mut k: usize = 0;
        while k < self.sales.len()
            invariant
                k <= self@.sales.len(),
                self@.sales.len() == mid.sales.len(),
                forall|j: int|
                    0 <= j < k ==> #[trigger] self@.sales[j] == customer_nulled(
                        mid.sales[j],
                        customer_id,
                    ),
                forall|j: int|
                    k <= j < self@.sales.len() ==> #[trigger] self@.sales[j] == mid.sales[j],
                self@ == mid.with_sales(self@.sales, mid.next_sale_id),
            decreases self@.sales.len() - k,
        {
            let s = self.sales[k];
            let is_target = match s.customer_id {
                Some(c) => c == customer_id,
                None => false,
            };
            if is_target {
                self.sales[k].customer_id = None;
            }
            k = k + 1;
        }
        proof {
            let pre = old(self)@;
            let post = self@;
            let idx = key_index(pre.customers, customer_id);
            lemma_remove_keys_increasing(pre.customers, pre.next_customer_id, idx);
            lemma_remove_names_unique(pre.customers, idx);
            assert(keys_increasing(post.sales, post.next_sale_id)) by {
                assert forall|a: int, b: int| 0 <= a < b < post.sales.len() implies (
                #[trigger] post.sales[a]).key() < (#[trigger] post.sales[b]).key() by {
                    assert(pre.sales[a].key() < pre.sales[b].key());
                }
                assert forall|a: int| 0 <= a < post.sales.len() implies (
                #[trigger] post.sales[a]).key() < post.next_sale_id by {
                    assert(pre.sales[a].key() < pre.next_sale_id);
                }
            }
            assert forall|a: int|
                0 <= a < post.sales.len() implies ((#[trigger] post.sales[a]).customer_id
                matches Some(c) ==> has_key(post.customers, c)) by {
                match post.sales[a].customer_id {
                    Some(c) => {
                        assert(pre.sales[a].customer_id == Some(c));
                        assert(c != customer_id);
                        assert(has_key(pre.customers, c));
                        lemma_remove_preserves_other_keys(pre.customers, idx, c);
                    },
                    None => {},
                }
            }
            assert forall|a: int|
                0 <= a < post.sale_items.len() implies has_key(
                post.products,
                (#[trigger] post.sale_items[a]).product_id,
            ) && has_key(post.sales, post.sale_items[a].sale_id) by {
                assert(has_key(pre.sales, pre.sale_items[a].sale_id));
                assert forall|m: int| 0 <= m < pre.sales.len() implies (
                #[trigger] post.sales[m]).key() == pre.sales[m].key() by {}
                lemma_same_keys_has_key(pre.sales, post.sales, pre.sale_items[a].sale_id);
            }
        }
        Ok(())
    }

    /// Deletes an owner. Rejected with `ConstraintViolation` while any
    /// ownership share references the owner: shares must be reassigned
    /// first. Rejects an unknown owner with `NotFound`.
    pub fn delete_owner(&mut self, owner_id: u64) -> (r: Result<(), LedgerError>)
        requires
            old(self).wf(),
        ensures
            final(self).wf(),
            r == Err::<(), LedgerError>(LedgerError::NotFound) <==> !has_key(
                old(self)@.owners,
                owner_id,
            ),
            r == Err::<(), LedgerError>(LedgerError::ConstraintViolation) <==> (has_key(
                old(self)@.owners,
                owner_id,
            ) && (exists|k: int|
                0 <= k < old(self)@.shares.len() && (#[trigger] old(self)@.shares[k]).owner_id
                    == owner_id)),
            r is Ok <==> (has_key(old(self)@.owners, owner_id) && !(exists|k: int|
                0 <= k < old(self)@.shares.len() && (#[trigger] old(self)@.shares[k]).owner_id
                    == owner_id)),
            r is Err ==> final(self)@ == old(self)@,
            r is Ok ==> final(self)@ == old(self)@.with_owners(
                old(self)@.owners.remove(key_index(old(self)@.owners, owner_id)),
                old(self)@.next_owner_id,
            ),
            sales_monotonic(old(self)@.sales, final(self)@.sales),
    {
        let i = match find_by_key(&self.owners, owner_id) {
            None => {
                return Err(LedgerError::NotFound);
            },
            Some(i) => i,
        };
        proof {
            lemma_key_at(self@.owners, self@.next_owner_id, owner_id, i as int);
        }
        let mut k: usize = 0;
        while k < self.shares.len()
            invariant
                k <= self@.shares.len(),
                old(self) == self,
                old(self).wf(),
                has_key(self@.owners, owner_id),
                forall|j: int| 0 <= j < k ==> (#[trigger] self@.shares[j]).owner_id != owner_id,
            decreases self@.shares.len() - k,
        {
            if self.shares[k].owner_id == owner_id {
                return Err(LedgerError::ConstraintViolation);
            }
            k = k + 1;
        }
        self.owners.remove(i);
        proof {
            let pre = old(self)@;
            let post = self@;
            let idx = key_index(pre.owners, owner_id);
            lemma_remove_keys_increasing(pre.owners, pre.next_owner_id, idx);
            lemma_remove_names_unique(pre.owners, idx);
            assert forall|a: int|
                0 <= a < post.shares.len() implies has_key(
                post.owners,
                (#[trigger] post.shares[a]).owner_id,
            ) && post.entity_exists(post.shares[a].entity) by {
                assert(pre.shares[a].owner_id != owner_id);
                assert(has_key(pre.owners, pre.shares[a].owner_id));
                lemma_remove_preserves_other_keys(pre.owners, idx, pre.shares[a].owner_id);
                assert(pre.entity_exists(pre.shares[a].entity));
            }
        }
        Ok(())
    }

    /// Deletes a product. Rejected with `ConstraintViolation` while any
    /// purchase or sale line item references the product, preserving the
    /// journal; the product's ownership shares are cascaded away with it.
    /// Rejects an unknown product with `NotFound`.
    pub fn delete_product(&mut self, product_id: u64) -> (r: Result<(), LedgerError>)
        requires
            old(self).wf(),
        ensures
            final(self).wf(),
            r == Err::<(), LedgerError>(LedgerError::NotFound) <==> !has_key(
                old(self)@.products,
                product_id,
            ),
            r == Err::<(), LedgerError>(LedgerError::ConstraintViolation) <==> (has_key(
                old(self)@.products,
                product_id,
            ) && ((exists|k: int|
                0 <= k < old(self)@.purchases.len() && (#[trigger] old(self)@.purchases[k]).product_id
                    == product_id) || (exists|k: int|
                0 <= k < old(self)@.sale_items.len() && (#[trigger] old(self)@.sale_items[k]).product_id
                    == product_id))),
            r is Ok <==> (has_key(old(self)@.products, product_id) && !(exists|k: int|
                0 <= k < old(self)@.purchases.len() && (#[trigger] old(self)@.purchases[k]).product_id
                    == product_id) && !(exists|k: int|
                0 <= k < old(self)@.sale_items.len() && (#[trigger] old(self)@.sale_items[k]).product_id
                    == product_id)),
            r is Err ==> final(self)@ == old(self)@,
            r is Ok ==> final(self)@ == old(self)@.with_products(
                old(self)@.products.remove(key_index(old(self)@.products, product_id)),
                old(self)@.next_product_id,
            ).with_shares(shares_without(old(self)@.shares, EntityRef::Product(product_id))),
            sales_monotonic(old(self)@.sales, final(self)@.sales),
    {
        let i = match self.inventory.find(product_id) {
            None => {
                return Err(LedgerError::NotFound);
            },
            Some(i) => i,
        };
        let mut k: usize = 0;
        while k < self.purchases.len()
            invariant
                k <= self@.purchases.len(),
                old(self) == self,
                old(self).wf(),
                has_key(self@.products, product_id),
                forall|j: int| 0 <= j < k ==> (#[trigger] self@.purchases[j]).product_id != product_id,
            decreases self@.purchases.len() - k,
        {
            if self.purchases[k].product_id == product_id {
                return Err(LedgerError::ConstraintViolation);
            }
            k = k + 1;
        }
        let mut k: usize = 0;
        while k < self.sale_items.len()
            invariant
                k <= self@.sale_items.len(),
                old(self) == self,
                old(self).wf(),
                has_key(self@.products, product_id),
                forall|j: int| 0 <= j < self@.purchases.len() ==> (#[trigger] self@.purchases[j]).product_id != product_id,
                forall|j: int| 0 <= j < k ==> (#[trigger] self@.sale_items[j]).product_id != product_id,
            decreases self@.sale_items.len() - k,
        {
            if self.sale_items[k].product_id == product_id {
                return Err(LedgerError::ConstraintViolation);
            }
            k = k + 1;
        }
        let ghost pre = self@;
        match self.inventory.remove_product(product_id) {
            Err(_) => {
                // Unreachable: the product was found above.
                return Err(LedgerError::NotFound);
            },
            Ok(()) => {},
        }
        let ghost mid = self@;
        let target = EntityRef::Product(product_id);
        let mut kept: Vec<ShareRow> = Vec::new();
        let mut k: usize = 0;
        while k < self.shares.len()
            invariant
                k <= self@.shares.len(),
                self@ == mid,
                mid.shares == pre.shares,
                target == EntityRef::Product(product_id),
                kept@ == shares_without(pre.shares.subrange(0, k as int), target),
            decreases self@.shares.len() - k,
        {
            let row = self.shares[k];
            proof {
                lemma_subrange_push(pre.shares, k as int);
                reveal(Seq::filter);
            }
            if !(row.entity == target) {
                kept.push(row);
            }
            k = k + 1;
        }
        proof {
            assert(pre.shares.subrange(0, pre.shares.len() as int) =~= pre.shares);
        }
        self.shares = kept;
        proof {
            let post = self@;
            let idx = key_index(pre.products, product_id);
            lemma_remove_keys_increasing(pre.products, pre.next_product_id, idx);
            lemma_remove_names_unique(pre.products, idx);
            lemma_shares_without_pairs(pre.shares, target);
            assert forall|a: int|
                0 <= a < post.purchases.len() implies has_key(
                post.products,
                (#[trigger] post.purchases[a]).product_id,
            ) && (post.purchases[a].supplier_id matches Some(s) ==> has_key(post.suppliers, s)) by {
                assert(pre.purchases[a].product_id != product_id);
                assert(has_key(pre.products, pre.purchases[a].product_id));
                lemma_remove_preserves_other_keys(pre.products, idx, pre.purchases[a].product_id);
            }
            assert forall|a: int|
                0 <= a < post.sale_items.len() implies has_key(
                post.products,
                (#[trigger] post.sale_items[a]).product_id,
            ) && has_key(post.sales, post.sale_items[a].sale_id) by {
                assert(pre.sale_items[a].product_id != product_id);
                assert(has_key(pre.products, pre.sale_items[a].product_id));
                lemma_remove_preserves_other_keys(pre.products, idx, pre.sale_items[a].product_id);
            }
            assert forall|a: int|
                0 <= a < post.shares.len() implies has_key(
                post.owners,
                (#[trigger] post.shares[a]).owner_id,
            ) && post.entity_exists(post.shares[a].entity) && post.shares[a].percentage <= 100 by {
                lemma_filter_elem(
                    pre.shares,
                    |r: ShareRow| r.entity != target,
                    a,
                );
                pre.shares.lemma_filter_pred(|r: ShareRow| r.entity != target, a);
                let w = choose|w: int|
                    0 <= w < pre.shares.len() && pre.shares[w] == post.shares[a];
                assert(has_key(pre.owners, pre.shares[w].owner_id));
                assert(pre.entity_exists(pre.shares[w].entity));
                assert(post.shares[a].entity != target);
                match post.shares[a].entity {
                    EntityRef::Product(p) => {
                        assert(p != product_id);
                        lemma_remove_preserves_other_keys(pre.products, idx, p);
                    },
                    EntityRef::Expense(_) => {},
                }
            }
            assert(post.conservation()) by {
                assert forall|i2: int| 0 <= i2 < post.products.len() implies (
                #[trigger] post.products[i2]).stock + sold_of(
                    post.sale_items,
                    post.products[i2].id,
                ) == post.products[i2].opening_stock + purchased_of(
                    post.purchases,
                    post.products[i2].id,
                ) by {
                    let a0 = if i2 < idx { i2 } else { i2 + 1 };
                    assert(post.products[i2] == pre.products[a0]);
                }
            }
        }
        Ok(())
    }
}

} // verus!
