//! The payment tracker: the one mutable field of a committed sale. A sale
//! moves from unpaid to paid exactly once; settlement is irreversible, and
//! corrections are modeled as new adjusting records, never a rewound state.

use vstd::prelude::*;
use crate::types::LedgerError;
use crate::types::Sale;
use crate::keyed::find_by_key;
use crate::keyed::has_key;
use crate::keyed::row_of;
use crate::keyed::Keyed;
use crate::ledger::sales_monotonic;
use crate::ledger::Ledger;

verus! {

impl Ledger {
    /// Marks a sale paid, stamping the settlement timestamp. Rejects an
    /// unknown sale with `NotFound` and a second settlement with
    /// `AlreadyPaid`: a sale never returns to unpaid.
    pub fn mark_paid(&mut self, sale_id: u64, now: u64) -> (r: Result<(), LedgerError>)
        requires
            old(self).wf(),
        ensures
            final(self).wf(),
            r == Err::<(), LedgerError>(LedgerError::NotFound) <==> !has_key(
                old(self)@.sales,
                sale_id,
            ),
            r == Err::<(), LedgerError>(LedgerError::AlreadyPaid) <==> (has_key(
                old(self)@.sales,
                sale_id,
            ) && row_of(old(self)@.sales, sale_id).is_paid()),
            r is Ok <==> (has_key(old(self)@.sales, sale_id) && !row_of(
                old(self)@.sales,
                sale_id,
            ).is_paid()),
            r is Err ==> final(self)@ == old(self)@,
            r is Ok ==> final(self)@.sales.len() == old(self)@.sales.len() && (forall|k: int|
                0 <= k < old(self)@.sales.len() ==> #[trigger] final(self)@.sales[k] == (if old(
                    self,
                )@.sales[k].id == sale_id {
                    Sale { paid_at: Some(now), ..old(self)@.sales[k] }
                } else {
                    old(self)@.sales[k]
                })) && final(self)@ == old(self)@.with_sales(
                final(self)@.sales,
                old(self)@.next_sale_id,
            ),
            sales_monotonic(old(self)@.sales, final(self)@.sales),
    {
        let i = match find_by_key(&self.sales, sale_id) {
            None => {
                return Err(LedgerError::NotFound);
            },
            Some(i) => i,
        };
        proof {
            crate::keyed::lemma_key_at(self@.sales, self@.next_sale_id, sale_id, i as int);
        }
        if self.sales[i].paid_at.is_some() {
            return Err(LedgerError::AlreadyPaid);
        }
        self.sales[i].paid_at = Some(now);
        proof {
            let pre = old(self)@;
            let post = self@;
            assert forall|k: int|
                0 <= k < pre.sales.len() && pre.sales[k].id == sale_id implies k == i as int by {
                if k != i as int {
                    if k < i as int {
                        assert(pre.sales[k].key() < pre.sales[i as int].key());
                    } else {
                        assert(pre.sales[i as int].key() < pre.sales[k].key());
                    }
                }
            }
            assert forall|a: int|
                0 <= a < post.sale_items.len() implies has_key(
                post.products,
                (#[trigger] post.sale_items[a]).product_id,
            ) && has_key(post.sales, post.sale_items[a].sale_id) by {
                assert(has_key(pre.sales, pre.sale_items[a].sale_id));
                crate::keyed::lemma_same_keys_has_key(
                    pre.sales,
                    post.sales,
                    pre.sale_items[a].sale_id,
                );
            }
        }
        Ok(())
    }
}

} // verus!
