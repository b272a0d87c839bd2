//! The ledger's laws, stated and proved as standalone theorems over the
//! abstract state. Every public operation requires the well-formedness
//! invariant and re-establishes it, so by induction these laws hold at
//! every committed state, after any sequence of operations.

use vstd::prelude::*;
use crate::types::EntityRef;
use crate::types::Sale;
use crate::types::ShareReq;
use crate::types::ShareRow;
use crate::keyed::lemma_filter_elem;
use crate::ledger::sales_monotonic;
use crate::ledger::purchased_of;
use crate::ledger::shares_without;
use crate::ledger::sold_of;
use crate::ledger::LedgerView;
use crate::shares::pct_sum;
use crate::shares::req_pct_sum;
use crate::shares::shares_for;

verus! {

broadcast use crate::keyed::lemma_push_drop_last;

/// Stock conservation. In every well-formed ledger state — and every
/// operation both requires and re-establishes well-formedness — each
/// product's stock equals the stock it was created with, plus every
/// quantity purchased, minus every quantity sold, over the committed
/// journal; replaying the journal therefore reproduces the stock exactly,
/// and stock is never negative at a committed state.
pub proof fn lemma_stock_conservation(l: LedgerView, i: int)
    requires
        l.wf(),
        0 <= i < l.products.len(),
    ensures
        l.products[i].stock + sold_of(l.sale_items, l.products[i].id) == l.products[i].opening_stock
            + purchased_of(l.purchases, l.products[i].id),
        l.products[i].stock >= 0,
{
}

/// Settlement is irreversible across one operation: every operation's
/// contract carries `sales_monotonic`, so a sale that was paid before the
/// call is still paid after it, with the same settlement timestamp.
pub proof fn lemma_paid_stays_paid(pre: Seq<Sale>, post: Seq<Sale>, i: int)
    requires
        sales_monotonic(pre, post),
        0 <= i < pre.len(),
        pre[i].is_paid(),
    ensures
        post[i].is_paid(),
        post[i].paid_at == pre[i].paid_at,
{
}

/// `sales_monotonic` composes, so settlement is irreversible across any
/// sequence of operations, not only a single one.
pub proof fn lemma_sales_monotonic_trans(a: Seq<Sale>, b: Seq<Sale>, c: Seq<Sale>)
    requires
        sales_monotonic(a, b),
        sales_monotonic(b, c),
    ensures
        sales_monotonic(a, c),
{
}

/// No sequence keeps anything out of an empty filter.
proof fn lemma_filter_none(s: Seq<ShareRow>, pred: spec_fn(ShareRow) -> bool)
    requires
        forall|i: int| 0 <= i < s.len() ==> !pred(#[trigger] s[i]),
    ensures
        s.filter(pred).len() == 0,
    decreases s.len(),
{
    reveal(Seq::filter);
    if s.len() > 0 {
        assert forall|i: int| 0 <= i < s.drop_last().len() implies !pred(
            #[trigger] s.drop_last()[i],
        ) by {
            assert(s.drop_last()[i] == s[i]);
        }
        lemma_filter_none(s.drop_last(), pred);
        assert(!pred(s[s.len() - 1]));
    }
}

/// A filter whose test every element passes keeps the whole sequence.
proof fn lemma_filter_all(s: Seq<ShareRow>, pred: spec_fn(ShareRow) -> bool)
    requires
        forall|i: int| 0 <= i < s.len() ==> pred(#[trigger] s[i]),
    ensures
        s.filter(pred) == s,
    decreases s.len(),
{
    reveal(Seq::filter);
    if s.len() == 0 {
        assert(s.filter(pred) =~= s);
    } else {
        assert forall|i: int| 0 <= i < s.drop_last().len() implies pred(
            #[trigger] s.drop_last()[i],
        ) by {
            assert(s.drop_last()[i] == s[i]);
        }
        lemma_filter_all(s.drop_last(), pred);
        assert(pred(s[s.len() - 1]));
        assert(s.drop_last().push(s.last()) =~= s);
    }
}

/// Rows whose percentages match pairwise sum to the same total.
proof fn lemma_pct_sum_of_reqs(reqs: Seq<ShareReq>, rows: Seq<ShareRow>)
    requires
        rows.len() == reqs.len(),
        forall|k: int| 0 <= k < reqs.len() ==> (#[trigger] rows[k]).percentage == reqs[k].percentage,
    ensures
        pct_sum(rows) == req_pct_sum(reqs),
    decreases reqs.len(),
{
    if reqs.len() > 0 {
        assert forall|k: int|
            0 <= k < reqs.drop_last().len() implies (#[trigger] rows.drop_last()[k]).percentage
                == reqs.drop_last()[k].percentage by {
            assert(rows.drop_last()[k] == rows[k]);
            assert(reqs.drop_last()[k] == reqs[k]);
        }
        lemma_pct_sum_of_reqs(reqs.drop_last(), rows.drop_last());
        assert(rows.last() == rows[reqs.len() - 1]);
        assert(reqs.last() == reqs[reqs.len() - 1]);
    }
}

/// Full allocation of a finalized share set. A finalized assignment only
/// commits when the requested percentages sum to exactly 100, and its
/// contract pins the committed share table; this theorem closes the loop:
/// in the committed state, the entity's stored share set sums to exactly
/// 100 — validation rejects every set that does not.
pub proof fn lemma_finalized_share_sum(
    pre: LedgerView,
    post: LedgerView,
    entity: EntityRef,
    reqs: Seq<ShareReq>,
)
    requires
        req_pct_sum(reqs) == 100,
        post.shares.len() == shares_without(pre.shares, entity).len() + reqs.len(),
        forall|k: int|
            0 <= k < shares_without(pre.shares, entity).len() ==> #[trigger] post.shares[k]
                == shares_without(pre.shares, entity)[k],
        forall|k: int|
            0 <= k < reqs.len() ==> #[trigger] post.shares[shares_without(
                pre.shares,
                entity,
            ).len() + k] == (ShareRow {
                entity,
                owner_id: reqs[k].owner_id,
                percentage: reqs[k].percentage,
            }),
    ensures
        pct_sum(shares_for(post.shares, entity)) == 100,
{
    let kept = shares_without(pre.shares, entity);
    let fresh = Seq::new(
        reqs.len(),
        |k: int|
            ShareRow { entity, owner_id: reqs[k].owner_id, percentage: reqs[k].percentage },
    );
    assert forall|i: int| 0 <= i < post.shares.len() implies post.shares[i] == (kept + fresh)[i] by {
        if i >= kept.len() {
            let k = i - kept.len();
            assert(post.shares[shares_without(pre.shares, entity).len() + k] == (ShareRow {
                entity,
                owner_id: reqs[k].owner_id,
                percentage: reqs[k].percentage,
            }));
        }
    }
    assert(post.shares =~= kept + fresh);
    let keep = |r: ShareRow| r.entity == entity;
    Seq::filter_distributes_over_add(kept, fresh, keep);
    assert forall|i: int| 0 <= i < kept.len() implies !keep(#[trigger] kept[i]) by {
        lemma_filter_elem(pre.shares, |r: ShareRow| r.entity != entity, i);
        pre.shares.lemma_filter_pred(|r: ShareRow| r.entity != entity, i);
    }
    lemma_filter_none(kept, keep);
    assert forall|i: int| 0 <= i < fresh.len() implies keep(#[trigger] fresh[i]) by {}
    lemma_filter_all(fresh, keep);
    assert(shares_for(post.shares, entity) =~= fresh);
    lemma_pct_sum_of_reqs(reqs, fresh);
}

} // verus!
