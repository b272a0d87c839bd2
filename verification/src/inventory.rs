//! The inventory engine: sole owner of product rows and of stock mutation.
//! Stock increases only through `apply_purchase` and decreases only through
//! `apply_sale`, which rejects any batch that would take a product below
//! zero and reports every low-stock threshold crossing it causes.

use vstd::prelude::*;
use crate::types::ItemReq;
use crate::types::LedgerError;
use crate::types::Product;
use crate::keyed::has_key;
use crate::keyed::names_unique;
use crate::keyed::Named;
use crate::keyed::key_index;
use crate::keyed::keys_increasing;
use crate::keyed::lemma_key_at;
use crate::keyed::lemma_subrange_push;
use crate::keyed::row_of;
use crate::keyed::find_by_key;
use crate::keyed::Keyed;

verus! {

/// Total quantity a batch of requested line items asks of one product.
pub open spec fn demand(items: Seq<ItemReq>, pid: u64) -> int
    decreases items.len(),
{
    if items.len() == 0 {
        0int
    } else {
        demand(items.drop_last(), pid) + if items.last().product_id == pid {
            items.last().quantity as int
        } else {
            0int
        }
    }
}

/// One product as it stands after a batch of line items is applied.
pub open spec fn sale_applied(p: Product, items: Seq<ItemReq>) -> Product {
    Product { stock: (p.stock - demand(items, p.id)) as u64, ..p }
}

/// One product as it stands after a purchase of `quantity` units of the
/// product named `pid` is applied.
pub open spec fn purchase_applied(p: Product, pid: u64, quantity: u64) -> Product {
    if p.id == pid {
        Product { stock: (p.stock + quantity) as u64, ..p }
    } else {
        p
    }
}

/// The requested line items name pairwise different products.
pub open spec fn items_distinct(items: Seq<ItemReq>) -> bool {
    forall|i: int, j: int|
        0 <= i < j < items.len() ==> (#[trigger] items[i]).product_id != (
        #[trigger] items[j]).product_id
}

/// Every requested product is on the books.
pub open spec fn items_known(products: Seq<Product>, items: Seq<ItemReq>) -> bool {
    forall|k: int| 0 <= k < items.len() ==> has_key(products, (#[trigger] items[k]).product_id)
}

/// Every line item is covered by its product's current stock.
pub open spec fn stock_covers(products: Seq<Product>, items: Seq<ItemReq>) -> bool {
    forall|k: int|
        0 <= k < items.len() ==> (#[trigger] items[k]).quantity <= row_of(
            products,
            items[k].product_id,
        ).stock
}

/// Taking `quantity` units from `p` crosses its low-stock threshold: the
/// stock was above the threshold and lands at or below it.
pub open spec fn crosses(p: Product, quantity: u64) -> bool {
    p.stock > p.low_stock_threshold && p.stock - quantity <= p.low_stock_threshold
}

/// The products whose stock a batch of line items takes across the low-stock
/// threshold, in line-item order, judged against the state before the batch.
pub open spec fn crossings(products: Seq<Product>, items: Seq<ItemReq>) -> Seq<u64>
    decreases items.len(),
{
    if items.len() == 0 {
        Seq::empty()
    } else {
        let pre = crossings(products, items.drop_last());
        let it = items.last();
        if has_key(products, it.product_id) && crosses(row_of(products, it.product_id), it.quantity) {
            pre.push(it.product_id)
        } else {
            pre
        }
    }
}

/// A batch causes at most one crossing per line item.
pub proof fn lemma_crossings_len(products: Seq<Product>, items: Seq<ItemReq>)
    ensures
        crossings(products, items).len() <= items.len(),
    decreases items.len(),
{
    if items.len() > 0 {
        lemma_crossings_len(products, items.drop_last());
    }
}

/// A product none of the line items name is asked for nothing.
pub proof fn lemma_demand_absent(items: Seq<ItemReq>, pid: u64)
    requires
        forall|k: int| 0 <= k < items.len() ==> (#[trigger] items[k]).product_id != pid,
    ensures
        demand(items, pid) == 0,
    decreases items.len(),
{
    if items.len() > 0 {
        assert(items.last() == items[items.len() - 1]);
        lemma_demand_absent(items.drop_last(), pid);
    }
}

/// Some line item of the batch names this product.
pub open spec fn has_item(items: Seq<ItemReq>, pid: u64) -> bool {
    exists|j: int| 0 <= j < items.len() && (#[trigger] items[j]).product_id == pid
}

/// A product no line item names is asked for nothing.
pub proof fn lemma_demand_absent_alt(items: Seq<ItemReq>, pid: u64)
    requires
        !has_item(items, pid),
    ensures
        demand(items, pid) == 0,
{
    assert forall|k: int| 0 <= k < items.len() implies (#[trigger] items[k]).product_id != pid by {
        if items[k].product_id == pid {
            assert(has_item(items, pid));
        }
    }
    lemma_demand_absent(items, pid);
}

/// No batch asks a negative quantity of any product.
pub proof fn lemma_demand_nonneg(items: Seq<ItemReq>, pid: u64)
    ensures
        demand(items, pid) >= 0,
    decreases items.len(),
{
    if items.len() > 0 {
        lemma_demand_nonneg(items.drop_last(), pid);
    }
}

/// In a batch of pairwise different products, the demand on one named
/// product is exactly its line item's quantity.
pub proof fn lemma_demand_single(items: Seq<ItemReq>, k: int)
    requires
        items_distinct(items),
        0 <= k < items.len(),
    ensures
        demand(items, items[k].product_id) == items[k].quantity,
    decreases items.len(),
{
    let pid = items[k].product_id;
    let dl = items.drop_last();
    if k == items.len() - 1 {
        assert(items.last() == items[k]);
        assert forall|m: int| 0 <= m < dl.len() implies (#[trigger] dl[m]).product_id != pid by {
            assert(dl[m] == items[m]);
            assert(items[m].product_id != items[k].product_id);
        }
        lemma_demand_absent(dl, pid);
    } else {
        assert(items.last() == items[items.len() - 1]);
        assert(items.last().product_id != pid);
        assert(items_distinct(dl)) by {
            assert forall|a: int, b: int| 0 <= a < b < dl.len() implies (
            #[trigger] dl[a]).product_id != (#[trigger] dl[b]).product_id by {
                assert(dl[a] == items[a]);
                assert(dl[b] == items[b]);
            }
        }
        assert(dl[k] == items[k]);
        lemma_demand_single(dl, k);
    }
}

/// The inventory engine. It exclusively owns the product table: no other
/// component writes stock.
pub struct Inventory {
    products: Vec<Product>,
    next_product_id: u64,
}

/// The inventory engine's abstract state.
pub struct InventoryView {
    pub products: Seq<Product>,
    pub next_product_id: u64,
}

impl View for Inventory {
    type V = InventoryView;

    closed spec fn view(&self) -> InventoryView {
        InventoryView { products: self.products@, next_product_id: self.next_product_id }
    }
}

impl InventoryView {
    /// Product identifiers strictly increase and stay below the next free
    /// one, and product names are pairwise different.
    pub open spec fn wf(self) -> bool {
        &&& keys_increasing(self.products, self.next_product_id)
        &&& names_unique(self.products)
    }
}

impl Inventory {
    /// An empty inventory; identifiers are handed out from 1.
    pub fn new() -> (inv: Inventory)
        ensures
            inv@.wf(),
            inv@.products.len() == 0,
            inv@.next_product_id == 1,
    {
        Inventory { products: Vec::new(), next_product_id: 1 }
    }

    /// Finds the index of the product carrying the identifier.
    pub(crate) fn find(&self, product_id: u64) -> (r: Option<usize>)
        ensures
            match r {
                Some(i) => i < self@.products.len() && self@.products[i as int].id == product_id
                    && has_key(self@.products, product_id),
                None => !has_key(self@.products, product_id),
            },
    {
        find_by_key(&self.products, product_id)
    }

    /// The number of product rows.
    pub(crate) fn len(&self) -> (r: usize)
        ensures
            r == self@.products.len(),
    {
        self.products.len()
    }

    /// The next identifier the product table would hand out.
    pub(crate) fn next_id(&self) -> (r: u64)
        ensures
            r == self@.next_product_id,
    {
        self.next_product_id
    }

    /// Read access to one product row.
    pub(crate) fn at(&self, i: usize) -> (p: &Product)
        requires
            i < self@.products.len(),
        ensures
            *p == self@.products[i as int],
    {
        &self.products[i]
    }

    /// A product's current stock, or none for an unknown product.
    pub fn stock_of(&self, product_id: u64) -> (r: Option<u64>)
        requires
            self@.wf(),
        ensures
            r == (if has_key(self@.products, product_id) {
                Some(row_of(self@.products, product_id).stock)
            } else {
                None::<u64>
            }),
    {
        match self.find(product_id) {
            None => None,
            Some(i) => {
                proof {
                    lemma_key_at(self@.products, self@.next_product_id, product_id, i as int);
                }
                Some(self.products[i].stock)
            },
        }
    }

    /// Adds a product to the catalog. Rejects a name already in use with
    /// `ConstraintViolation`; otherwise returns the fresh identifier.
    pub fn add_product(
        &mut self,
        name: String,
        category: String,
        price: u64,
        stock: u64,
        low_stock_threshold: u64,
    ) -> (r: Result<u64, LedgerError>)
        requires
            old(self)@.wf(),
            old(self)@.next_product_id < u64::MAX,
        ensures
            final(self)@.wf(),
            r == Err::<u64, LedgerError>(LedgerError::ConstraintViolation) <==> (exists|i: int|
                0 <= i < old(self)@.products.len() && (#[trigger] old(self)@.products[i]).name@
                    == name@),
            r is Ok <==> !(exists|i: int|
                0 <= i < old(self)@.products.len() && (#[trigger] old(self)@.products[i]).name@
                    == name@),
            r is Err ==> final(self)@ == old(self)@,
            r is Ok ==> r == Ok::<u64, LedgerError>(old(self)@.next_product_id)
                && final(self)@.next_product_id == old(self)@.next_product_id + 1
                && final(self)@.products == old(self)@.products.push(
                Product {
                    id: old(self)@.next_product_id,
                    name: name,
                    category: category,
                    price: price,
                    stock: stock,
                    opening_stock: stock,
                    low_stock_threshold: low_stock_threshold,
                },
            ),
    {
        let mut i: usize = 0;
        while i < self.products.len()
            invariant
                i <= self@.products.len(),
                old(self) == self,
                old(self)@.wf(),
                forall|j: int| 0 <= j < i ==> (#[trigger] self@.products[j]).name@ != name@,
            decreases self@.products.len() - i,
        {
            if self.products[i].name == name {
                return Err(LedgerError::ConstraintViolation);
            }
            i = i + 1;
        }
        let id = self.next_product_id;
        self.products.push(
            Product {
                id,
                name,
                category,
                price,
                stock,
                opening_stock: stock,
                low_stock_threshold,
            },
        );
        self.next_product_id = id + 1;
        Ok(id)
    }

    /// Increases a product's stock by a purchased quantity. Rejects an
    /// unknown product with `NotFound` and a quantity that would overflow
    /// the stock counter with `ConstraintViolation`.
    pub fn apply_purchase(&mut self, product_id: u64, quantity: u64) -> (r: Result<
        (),
        LedgerError,
    >)
        requires
            old(self)@.wf(),
        ensures
            final(self)@.wf(),
            final(self)@.next_product_id == old(self)@.next_product_id,
            r == Err::<(), LedgerError>(LedgerError::NotFound) <==> !has_key(
                old(self)@.products,
                product_id,
            ),
            r == Err::<(), LedgerError>(LedgerError::ConstraintViolation) <==> (has_key(
                old(self)@.products,
                product_id,
            ) && row_of(old(self)@.products, product_id).stock + quantity > u64::MAX),
            r is Ok <==> (has_key(old(self)@.products, product_id) && row_of(
                old(self)@.products,
                product_id,
            ).stock + quantity <= u64::MAX),
            r is Err ==> final(self)@ == old(self)@,
            r is Ok ==> final(self)@.products.len() == old(self)@.products.len() && (forall|k: int|
                0 <= k < old(self)@.products.len() ==> #[trigger] final(self)@.products[k]
                    == purchase_applied(old(self)@.products[k], product_id, quantity)),
    {
        let i = match self.find(product_id) {
            None => {
                return Err(LedgerError::NotFound);
            },
            Some(i) => i,
        };
        proof {
            lemma_key_at(self@.products, self@.next_product_id, product_id, i as int);
        }
        let stock = self.products[i].stock;
        let new_stock = match stock.checked_add(quantity) {
            None => {
                return Err(LedgerError::ConstraintViolation);
            },
            Some(s) => s,
        };
        self.products[i].stock = new_stock;
        proof {
            assert forall|k: int| 0 <= k < old(self)@.products.len() implies #[trigger] self@
                .products[k] == purchase_applied(old(self)@.products[k], product_id, quantity) by {
                if k != i as int {
                    assert(old(self)@.products[k].id != product_id);
                }
            }
        }
        Ok(())
    }

    /// Updates a product's low-stock boundary. Rejects an unknown product
    /// with `NotFound`.
    pub fn adjust_threshold(&mut self, product_id: u64, new_threshold: u64) -> (r: Result<
        (),
        LedgerError,
    >)
        requires
            old(self)@.wf(),
        ensures
            final(self)@.wf(),
            final(self)@.next_product_id == old(self)@.next_product_id,
            r == Err::<(), LedgerError>(LedgerError::NotFound) <==> !has_key(
                old(self)@.products,
                product_id,
            ),
            r is Ok <==> has_key(old(self)@.products, product_id),
            r is Err ==> final(self)@ == old(self)@,
            r is Ok ==> final(self)@.products.len() == old(self)@.products.len() && (forall|k: int|
                0 <= k < old(self)@.products.len() ==> #[trigger] final(self)@.products[k] == (
                if old(self)@.products[k].id == product_id {
                    Product { low_stock_threshold: new_threshold, ..old(self)@.products[k] }
                } else {
                    old(self)@.products[k]
                })),
    {
        let i = match self.find(product_id) {
            None => {
                return Err(LedgerError::NotFound);
            },
            Some(i) => i,
        };
        self.products[i].low_stock_threshold = new_threshold;
        proof {
            assert forall|k: int|
                0 <= k < old(self)@.products.len() && old(self)@.products[k].id == product_id
                    implies k == i as int by {
                if old(self)@.products[k].id == product_id && k != i as int {
                    if k < i as int {
                        assert(old(self)@.products[k].key() < old(self)@.products[i as int].key());
                    } else {
                        assert(old(self)@.products[i as int].key() < old(self)@.products[k].key());
                    }
                }
            }
        }
        Ok(())
    }

    /// Decreases stock for every line item of a sale, atomically: either
    /// every item succeeds or the inventory is untouched. Rejects an unknown
    /// product with `NotFound`, a batch naming a product twice with
    /// `ConstraintViolation`, and a quantity beyond the product's stock with
    /// `InsufficientStock`. Returns the low-stock crossings the batch
    /// caused, in line-item order, as product identifiers.
    pub fn apply_sale(&mut self, items: &Vec<ItemReq>) -> (r: Result<Vec<u64>, LedgerError>)
        requires
            old(self)@.wf(),
        ensures
            final(self)@.wf(),
            final(self)@.next_product_id == old(self)@.next_product_id,
            r == Err::<Vec<u64>, LedgerError>(LedgerError::NotFound) <==> !items_known(
                old(self)@.products,
                items@,
            ),
            r == Err::<Vec<u64>, LedgerError>(LedgerError::ConstraintViolation) <==> (items_known(
                old(self)@.products,
                items@,
            ) && !items_distinct(items@)),
            r == Err::<Vec<u64>, LedgerError>(LedgerError::InsufficientStock) <==> (items_known(
                old(self)@.products,
                items@,
            ) && items_distinct(items@) && !stock_covers(old(self)@.products, items@)),
            r is Ok <==> (items_known(old(self)@.products, items@) && items_distinct(items@)
                && stock_covers(old(self)@.products, items@)),
            r is Err ==> final(self)@ == old(self)@,
            r matches Ok(ev) ==> final(self)@.products.len() == old(self)@.products.len()
                && (forall|k: int|
                    0 <= k < old(self)@.products.len() ==> #[trigger] final(self)@.products[k]
                        == sale_applied(old(self)@.products[k], items@))
                && ev@ == crossings(old(self)@.products, items@),
    {
        // Validate: every product exists.
        let mut k: usize = 0;
        while k < items.len()
            invariant
                k <= items@.len(),
                old(self) == self,
                old(self)@.wf(),
                forall|j: int|
                    0 <= j < k ==> has_key(self@.products, (#[trigger] items@[j]).product_id),
            decreases items@.len() - k,
        {
            if self.find(items[k].product_id).is_none() {
                return Err(LedgerError::NotFound);
            }
            k = k + 1;
        }
        // Validate: no product is named twice.
        let mut a: usize = 0;
        while a < items.len()
            invariant
                a <= items@.len(),
                old(self) == self,
                old(self)@.wf(),
                items_known(self@.products, items@),
                forall|i: int, j: int|
                    0 <= i < j < a ==> (#[trigger] items@[i]).product_id != (
                    #[trigger] items@[j]).product_id,
            decreases items@.len() - a,
        {
            let mut b: usize = 0;
            while b < a
                invariant
                    b <= a < items@.len(),
                    old(self) == self,
                    old(self)@.wf(),
                    items_known(self@.products, items@),
                    forall|i: int|
                        0 <= i < b ==> (#[trigger] items@[i]).product_id != items@[a as int].product_id,
                decreases a - b,
            {
                if items[b].product_id == items[a].product_id {
                    return Err(LedgerError::ConstraintViolation);
                }
                b = b + 1;
            }
            a = a + 1;
        }
        // Validate: stock covers every item.
        let mut k: usize = 0;
        while k < items.len()
            invariant
                k <= items@.len(),
                old(self) == self,
                old(self)@.wf(),
                items_known(self@.products, items@),
                items_distinct(items@),
                forall|j: int|
                    0 <= j < k ==> (#[trigger] items@[j]).quantity <= row_of(
                        self@.products,
                        items@[j].product_id,
                    ).stock,
            decreases items@.len() - k,
        {
            let i = match self.find(items[k].product_id) {
                None => {
                    proof {
                        assert(has_key(self@.products, items@[k as int].product_id));
                    }
                    return Err(LedgerError::NotFound);
                },
                Some(i) => i,
            };
            proof {
                lemma_key_at(
                    self@.products,
                    self@.next_product_id,
                    items@[k as int].product_id,
                    i as int,
                );
            }
            if items[k].quantity > self.products[i].stock {
                return Err(LedgerError::InsufficientStock);
            }
            k = k + 1;
        }
        // Commit: decrease stock item by item and collect crossings.
        let ghost products0 = self@.products;
        let mut events: Vec<u64> = Vec::new();
        let mut k: usize = 0;
        while k < items.len()
            invariant
                k <= items@.len(),
                self@.next_product_id == old(self)@.next_product_id,
                keys_increasing(products0, old(self)@.next_product_id),
                items_known(products0, items@),
                items_distinct(items@),
                stock_covers(products0, items@),
                self@.products.len() == products0.len(),
                forall|j: int|
                    0 <= j < products0.len() ==> #[trigger] self@.products[j] == sale_applied(
                        products0[j],
                        items@.subrange(0, k as int),
                    ),
                events@ == crossings(products0, items@.subrange(0, k as int)),
                old(self)@.products == products0,
                old(self)@.wf(),
            decreases items@.len() - k,
        {
            let pid = items[k].product_id;
            let qty = items[k].quantity;
            proof {
                assert(has_key(products0, items@[k as int].product_id));
            }
            let i = match self.find(pid) {
                None => {
                    proof {
                        let w = choose|w: int|
                            0 <= w < products0.len() && (#[trigger] products0[w]).key() == pid;
                        assert(self@.products[w].id == pid);
                        assert(has_key(self@.products, pid));
                    }
                    // Unreachable: the product was validated above.
                    return Err(LedgerError::NotFound);
                },
                Some(i) => i,
            };
            proof {
                lemma_key_at(products0, old(self)@.next_product_id, products0[i as int].id, i as int);
                assert(products0[i as int].id == pid);
                lemma_key_at(products0, old(self)@.next_product_id, pid, i as int);
                assert forall|m: int| 0 <= m < k implies (#[trigger] items@.subrange(0, k as int)[m]).product_id
                    != pid by {
                    assert(items@[m].product_id != items@[k as int].product_id);
                }
                lemma_demand_absent(items@.subrange(0, k as int), pid);
                assert(self@.products[i as int] == sale_applied(
                    products0[i as int],
                    items@.subrange(0, k as int),
                ));
            }
            let stock = self.products[i].stock;
            let threshold = self.products[i].low_stock_threshold;
            proof {
                assert(stock == products0[i as int].stock);
                assert(threshold == products0[i as int].low_stock_threshold);
                assert(items@[k as int].quantity <= row_of(products0, pid).stock);
            }
            if stock > threshold && stock - qty <= threshold {
                events.push(pid);
            }
            self.products[i].stock = stock - qty;
            proof {
                lemma_subrange_push(items@, k as int);
                let pre = items@.subrange(0, k as int);
                let cur = items@.subrange(0, k as int + 1);
                assert(cur == pre.push(items@[k as int]));
                assert(cur.drop_last() == pre) by {
                    assert(pre.push(items@[k as int]).drop_last() =~= pre);
                }
                assert forall|j: int| 0 <= j < products0.len() implies #[trigger] self@.products[j]
                    == sale_applied(products0[j], cur) by {
                    if j == i as int {
                        assert(demand(cur, pid) == demand(pre, pid) + qty);
                    } else {
                        assert(products0[j].id != pid) by {
                            if products0[j].id == pid {
                                lemma_key_at(
                                    products0,
                                    old(self)@.next_product_id,
                                    pid,
                                    j,
                                );
                            }
                        }
                        assert(demand(cur, products0[j].id) == demand(pre, products0[j].id));
                    }
                }
                assert(events@ == crossings(products0, cur)) by {
                    assert(crosses(row_of(products0, pid), qty) <==> (stock > threshold && stock
                        - qty <= threshold));
                }
            }
            k = k + 1;
        }
        proof {
            assert(items@.subrange(0, items@.len() as int) =~= items@);
        }
        Ok(events)
    }

    /// Removes a product row. The caller enforces the restrict-delete rules;
    /// the engine only keeps the table well formed. Rejects an unknown
    /// product with `NotFound`.
    pub fn remove_product(&mut self, product_id: u64) -> (r: Result<(), LedgerError>)
        requires
            old(self)@.wf(),
        ensures
            final(self)@.wf(),
            final(self)@.next_product_id == old(self)@.next_product_id,
            r is Ok <==> has_key(old(self)@.products, product_id),
            r == Err::<(), LedgerError>(LedgerError::NotFound) <==> !has_key(
                old(self)@.products,
                product_id,
            ),
            r is Err ==> final(self)@ == old(self)@,
            r is Ok ==> final(self)@.products == old(self)@.products.remove(
                key_index(old(self)@.products, product_id),
            ),
    {
        let i = match self.find(product_id) {
            None => {
                return Err(LedgerError::NotFound);
            },
            Some(i) => i,
        };
        proof {
            lemma_key_at(self@.products, self@.next_product_id, product_id, i as int);
        }
        self.products.remove(i);
        Ok(())
    }
}

} // verus!
