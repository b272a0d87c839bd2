//! The ownership ledger: percentage shares of a product's proceeds or an
//! expense's cost among owners, replaced as a whole set per entity, and the
//! exact distribution of an amount over a fully allocated share set. Each
//! owner receives the amount times their percentage, rounded down, and the
//! residual cents go to the first largest share, so the distributed amounts
//! always sum exactly to the amount.

use vstd::prelude::*;
use crate::types::EntityRef;
use crate::types::LedgerError;
use crate::types::Owner;
use crate::types::OwnerAmount;
use crate::types::ShareReq;
use crate::types::ShareRow;
use crate::keyed::find_by_key;
use crate::keyed::has_key;
use crate::keyed::lemma_filter_elem;
use crate::keyed::lemma_key_at;
use crate::keyed::lemma_subrange_push;
use crate::keyed::Keyed;
use crate::ledger::sales_monotonic;
use crate::ledger::share_pairs_unique;
use crate::ledger::shares_without;
use crate::ledger::lemma_shares_without_pairs;
use crate::ledger::Ledger;
use vstd::arithmetic::div_mod::lemma_div_is_ordered;
use vstd::arithmetic::div_mod::lemma_div_pos_is_pos;
use vstd::arithmetic::div_mod::lemma_div_by_multiple;
use vstd::arithmetic::div_mod::lemma_fundamental_div_mod;
use vstd::arithmetic::div_mod::lemma_remainder_lower;
use vstd::arithmetic::mul::lemma_mul_inequality;
use vstd::arithmetic::mul::lemma_mul_nonnegative;
use vstd::arithmetic::mul::lemma_mul_upper_bound;

verus! {

broadcast use crate::keyed::lemma_push_has_key, crate::keyed::lemma_push_drop_last;

/// The sum of the requested percentages.
pub open spec fn req_pct_sum(reqs: Seq<ShareReq>) -> int
    decreases reqs.len(),
{
    if reqs.len() == 0 {
        0int
    } else {
        req_pct_sum(reqs.drop_last()) + reqs.last().percentage
    }
}

/// Every requested owner is on the books.
pub open spec fn reqs_known(owners: Seq<Owner>, reqs: Seq<ShareReq>) -> bool {
    forall|k: int| 0 <= k < reqs.len() ==> has_key(owners, (#[trigger] reqs[k]).owner_id)
}

/// The requests name pairwise different owners.
pub open spec fn reqs_distinct(reqs: Seq<ShareReq>) -> bool {
    forall|i: int, j: int|
        0 <= i < j < reqs.len() ==> (#[trigger] reqs[i]).owner_id != (#[trigger] reqs[j]).owner_id
}

/// Every requested percentage lies between 0 and 100.
pub open spec fn reqs_bounded(reqs: Seq<ShareReq>) -> bool {
    forall|k: int| 0 <= k < reqs.len() ==> (#[trigger] reqs[k]).percentage <= 100
}

/// The percentage sum only grows as requests are appended.
pub proof fn lemma_req_sum_mono(reqs: Seq<ShareReq>, k: int)
    requires
        0 <= k <= reqs.len(),
    ensures
        req_pct_sum(reqs.subrange(0, k)) <= req_pct_sum(reqs),
    decreases reqs.len() - k,
{
    if k == reqs.len() {
        assert(reqs.subrange(0, k) =~= reqs);
    } else {
        lemma_subrange_push(reqs, k);
        lemma_req_sum_mono(reqs, k + 1);
    }
}

/// The share rows attached to one entity, in table order.
pub open spec fn shares_for(shares: Seq<ShareRow>, e: EntityRef) -> Seq<ShareRow> {
    shares.filter(|r: ShareRow| r.entity == e)
}

/// The sum of the percentages of a share set.
pub open spec fn pct_sum(rows: Seq<ShareRow>) -> int
    decreases rows.len(),
{
    if rows.len() == 0 {
        0int
    } else {
        pct_sum(rows.drop_last()) + rows.last().percentage
    }
}

/// The percentage sum only grows as rows are appended.
pub proof fn lemma_pct_sum_mono(rows: Seq<ShareRow>, k: int)
    requires
        0 <= k <= rows.len(),
    ensures
        pct_sum(rows.subrange(0, k)) <= pct_sum(rows),
    decreases rows.len() - k,
{
    if k == rows.len() {
        assert(rows.subrange(0, k) =~= rows);
    } else {
        lemma_subrange_push(rows, k);
        lemma_pct_sum_mono(rows, k + 1);
    }
}

/// One owner's base part: the amount times the percentage, rounded down to
/// a whole cent.
pub open spec fn base_share(amount: u64, pct: u64) -> int {
    (amount * pct) / 100
}

/// The sum of the base parts of a share set.
pub open spec fn base_sum(amount: u64, rows: Seq<ShareRow>) -> int
    decreases rows.len(),
{
    if rows.len() == 0 {
        0int
    } else {
        base_sum(amount, rows.drop_last()) + base_share(amount, rows.last().percentage)
    }
}

/// A base part lies between 0 and the amount.
pub proof fn lemma_base_share_bounds(amount: u64, pct: u64)
    requires
        pct <= 100,
    ensures
        0 <= base_share(amount, pct) <= amount,
{
    lemma_mul_nonnegative(amount as int, pct as int);
    lemma_div_pos_is_pos(amount * pct, 100);
    lemma_mul_inequality(pct as int, 100, amount as int);
    lemma_div_is_ordered(amount * pct, amount * 100, 100);
    lemma_div_by_multiple(amount as int, 100);
    assert(amount * pct == pct * amount) by (nonlinear_arith);
    assert(amount * 100 == 100 * amount) by (nonlinear_arith);
}

/// One hundred base parts never exceed the amount times the percentage sum.
pub proof fn lemma_base_sum_times_100(amount: u64, rows: Seq<ShareRow>)
    ensures
        0 <= base_sum(amount, rows),
        base_sum(amount, rows) * 100 <= amount * pct_sum(rows),
    decreases rows.len(),
{
    if rows.len() == 0 {
        assert(amount * 0 == 0) by (nonlinear_arith);
    } else {
        let dl = rows.drop_last();
        lemma_base_sum_times_100(amount, dl);
        let p = rows.last().percentage;
        let x = amount * p;
        lemma_mul_nonnegative(amount as int, p as int);
        lemma_fundamental_div_mod(x, 100);
        lemma_remainder_lower(x, 100);
        lemma_div_pos_is_pos(x, 100);
        assert(base_share(amount, p) * 100 <= x);
        assert(amount * pct_sum(rows) == amount * pct_sum(dl) + amount * p) by (nonlinear_arith)
            requires
                pct_sum(rows) == pct_sum(dl) + p,
        ;
        assert((base_sum(amount, dl) + base_share(amount, p)) * 100 == base_sum(amount, dl) * 100
            + base_share(amount, p) * 100) by (nonlinear_arith);
    }
}

/// Over a fully allocated share set, the base parts sum to at most the
/// amount.
pub proof fn lemma_base_sum_le_amount(amount: u64, rows: Seq<ShareRow>)
    requires
        pct_sum(rows) == 100,
    ensures
        0 <= base_sum(amount, rows) <= amount,
{
    lemma_base_sum_times_100(amount, rows);
    assert(amount * 100 == 100 * amount) by (nonlinear_arith);
}

/// The base-part sum only grows as rows are appended.
pub proof fn lemma_base_sum_mono(amount: u64, rows: Seq<ShareRow>, k: int)
    requires
        0 <= k <= rows.len(),
        reqs_rows_bounded(rows),
    ensures
        base_sum(amount, rows.subrange(0, k)) <= base_sum(amount, rows),
    decreases rows.len() - k,
{
    if k == rows.len() {
        assert(rows.subrange(0, k) =~= rows);
    } else {
        lemma_subrange_push(rows, k);
        lemma_base_share_bounds(amount, rows[k].percentage);
        lemma_base_sum_mono(amount, rows, k + 1);
    }
}

/// Every percentage of the set lies between 0 and 100.
pub open spec fn reqs_rows_bounded(rows: Seq<ShareRow>) -> bool {
    forall|k: int| 0 <= k < rows.len() ==> (#[trigger] rows[k]).percentage <= 100
}

/// The base-part sum covers each single base part.
pub proof fn lemma_base_sum_ge_term(amount: u64, rows: Seq<ShareRow>, k: int)
    requires
        0 <= k < rows.len(),
        reqs_rows_bounded(rows),
    ensures
        base_share(amount, rows[k].percentage) <= base_sum(amount, rows),
    decreases rows.len(),
{
    let dl = rows.drop_last();
    lemma_base_share_bounds(amount, rows.last().percentage);
    if k == rows.len() - 1 {
        lemma_base_sum_times_100(amount, dl);
    } else {
        assert(reqs_rows_bounded(dl)) by {
            assert forall|m: int| 0 <= m < dl.len() implies (#[trigger] dl[m]).percentage
                <= 100 by {
                assert(dl[m] == rows[m]);
            }
        }
        assert(dl[k] == rows[k]);
        lemma_base_sum_ge_term(amount, dl, k);
    }
}

/// The first index carrying the largest percentage of a nonempty set.
pub open spec fn first_max_index(rows: Seq<ShareRow>) -> int
    decreases rows.len(),
{
    if rows.len() <= 1 {
        0int
    } else {
        let m = first_max_index(rows.drop_last());
        if rows.last().percentage > rows[m].percentage {
            rows.len() - 1
        } else {
            m
        }
    }
}

/// The first maximal index is in range and carries a maximal percentage.
pub proof fn lemma_first_max_index(rows: Seq<ShareRow>)
    requires
        rows.len() > 0,
    ensures
        0 <= first_max_index(rows) < rows.len(),
        forall|k: int|
            0 <= k < rows.len() ==> (#[trigger] rows[k]).percentage <= rows[first_max_index(
                rows,
            )].percentage,
    decreases rows.len(),
{
    if rows.len() > 1 {
        lemma_first_max_index(rows.drop_last());
        assert forall|k: int| 0 <= k < rows.len() implies (#[trigger] rows[k]).percentage
            <= rows[first_max_index(rows)].percentage by {
            if k < rows.len() - 1 {
                assert(rows.drop_last()[k] == rows[k]);
            }
        }
    }
}

/// The sum of the distributed amounts.
pub open spec fn amount_sum(out: Seq<OwnerAmount>) -> int
    decreases out.len(),
{
    if out.len() == 0 {
        0int
    } else {
        amount_sum(out.drop_last()) + out.last().amount
    }
}

impl Ledger {
    /// Whether the entity a share set would attach to is on the books.
    pub fn entity_on_books(&self, entity: EntityRef) -> (r: bool)
        ensures
            r == self@.entity_exists(entity),
    {
        match entity {
            EntityRef::Product(p) => self.inventory.find(p).is_some(),
            EntityRef::Expense(x) => find_by_key(&self.expenses, x).is_some(),
        }
    }

    /// Replaces the full share set of one entity atomically. Every owner
    /// must exist and every percentage lie in [0, 100]; because partial
    /// allocation during data entry is common, the sum is only required to
    /// be exactly 100 when `finalize` is set — during incremental edits it
    /// may transiently differ. Rejects a missing entity or owner with
    /// `NotFound`; a repeated owner or a percentage over 100 with
    /// `ConstraintViolation`; and, with `finalize`, a sum other than 100
    /// with `InvalidShareSum`.
    pub fn assign_shares(&mut self, entity: EntityRef, reqs: &Vec<ShareReq>, finalize: bool) -> (r:
        Result<(), LedgerError>)
        requires
            old(self).wf(),
        ensures
            final(self).wf(),
            r == Err::<(), LedgerError>(LedgerError::NotFound) <==> !(old(self)@.entity_exists(
                entity,
            ) && reqs_known(old(self)@.owners, reqs@)),
            r == Err::<(), LedgerError>(LedgerError::ConstraintViolation) <==> (old(
                self,
            )@.entity_exists(entity) && reqs_known(old(self)@.owners, reqs@) && (!reqs_distinct(
                reqs@,
            ) || !reqs_bounded(reqs@))),
            r == Err::<(), LedgerError>(LedgerError::InvalidShareSum) <==> (old(
                self,
            )@.entity_exists(entity) && reqs_known(old(self)@.owners, reqs@) && reqs_distinct(reqs@)
                && reqs_bounded(reqs@) && finalize && req_pct_sum(reqs@) != 100),
            r is Ok <==> (old(self)@.entity_exists(entity) && reqs_known(old(self)@.owners, reqs@)
                && reqs_distinct(reqs@) && reqs_bounded(reqs@) && (finalize ==> req_pct_sum(reqs@)
                == 100)),
            r is Err ==> final(self)@ == old(self)@,
            r is Ok ==> final(self)@.shares.len() == shares_without(old(self)@.shares, entity).len()
                + reqs@.len() && (forall|k: int|
                0 <= k < shares_without(old(self)@.shares, entity).len()
                    ==> #[trigger] final(self)@.shares[k] == shares_without(
                    old(self)@.shares,
                    entity,
                )[k]) && (forall|k: int|
                0 <= k < reqs@.len() ==> #[trigger] final(self)@.shares[shares_without(
                    old(self)@.shares,
                    entity,
                ).len() + k] == (ShareRow {
                    entity,
                    owner_id: reqs@[k].owner_id,
                    percentage: reqs@[k].percentage,
                })) && final(self)@ == old(self)@.with_shares(final(self)@.shares),
            sales_monotonic(old(self)@.sales, final(self)@.sales),
    {
        if !self.entity_on_books(entity) {
            return Err(LedgerError::NotFound);
        }
        // Validate: every owner exists.
        let mut k: usize = 0;
        while k < reqs.len()
            invariant
                k <= reqs@.len(),
                old(self) == self,
                old(self).wf(),
                self@.entity_exists(entity),
                forall|j: int|
                    0 <= j < k ==> has_key(self@.owners, (#[trigger] reqs@[j]).owner_id),
            decreases reqs@.len() - k,
        {
            if find_by_key(&self.owners, reqs[k].owner_id).is_none() {
                return Err(LedgerError::NotFound);
            }
            k = k + 1;
        }
        // Validate: no owner is named twice.
        let mut a: usize = 0;
        while a < reqs.len()
            invariant
                a <= reqs@.len(),
                old(self) == self,
                old(self).wf(),
                self@.entity_exists(entity),
                reqs_known(self@.owners, reqs@),
                forall|i: int, j: int|
                    0 <= i < j < a ==> (#[trigger] reqs@[i]).owner_id != (
                    #[trigger] reqs@[j]).owner_id,
            decreases reqs@.len() - a,
        {
            let mut b: usize = 0;
            while b < a
                invariant
                    b <= a < reqs@.len(),
                    old(self) == self,
                    old(self).wf(),
                    self@.entity_exists(entity),
                    reqs_known(self@.owners, reqs@),
                    forall|i: int|
                        0 <= i < b ==> (#[trigger] reqs@[i]).owner_id != reqs@[a as int].owner_id,
                decreases a - b,
            {
                if reqs[b].owner_id == reqs[a].owner_id {
                    return Err(LedgerError::ConstraintViolation);
                }
                b = b + 1;
            }
            a = a + 1;
        }
        // Validate: every percentage lies in [0, 100].
        let mut k: usize = 0;
        while k < reqs.len()
            invariant
                k <= reqs@.len(),
                old(self) == self,
                old(self).wf(),
                self@.entity_exists(entity),
                reqs_known(self@.owners, reqs@),
                reqs_distinct(reqs@),
                forall|j: int| 0 <= j < k ==> (#[trigger] reqs@[j]).percentage <= 100,
            decreases reqs@.len() - k,
        {
            if reqs[k].percentage > 100 {
                return Err(LedgerError::ConstraintViolation);
            }
            k = k + 1;
        }
        // Validate the full-allocation sum where the caller finalizes.
        if finalize {
            let mut sum: u64 = 0;
            let mut k: usize = 0;
            while k < reqs.len()
                invariant
                    k <= reqs@.len(),
                    old(self) == self,
                    old(self).wf(),
                    self@.entity_exists(entity),
                    reqs_known(self@.owners, reqs@),
                    reqs_distinct(reqs@),
                    reqs_bounded(reqs@),
                    finalize,
                    sum as int == req_pct_sum(reqs@.subrange(0, k as int)),
                    sum <= 100,
                decreases reqs@.len() - k,
            {
                proof {
                    lemma_subrange_push(reqs@, k as int);
                }
                let p = reqs[k].percentage;
                if sum + p > 100 {
                    proof {
                        lemma_req_sum_mono(reqs@, k as int + 1);
                    }
                    return Err(LedgerError::InvalidShareSum);
                }
                sum = sum + p;
                k = k + 1;
            }
            proof {
                assert(reqs@.subrange(0, reqs@.len() as int) =~= reqs@);
            }
            if sum != 100 {
                return Err(LedgerError::InvalidShareSum);
            }
        }
        // Commit: keep the other entities' rows, then append the new set.
        let ghost pre = self@;
        let mut kept: Vec<ShareRow> = Vec::new();
        let mut k: usize = 0;
        while k < self.shares.len()
            invariant
                k <= self@.shares.len(),
                self@ == pre,
                kept@ == shares_without(pre.shares.subrange(0, k as int), entity),
            decreases self@.shares.len() - k,
        {
            let row = self.shares[k];
            proof {
                lemma_subrange_push(pre.shares, k as int);
                reveal(Seq::filter);
            }
            if !(row.entity == entity) {
                kept.push(row);
            }
            k = k + 1;
        }
        proof {
            assert(pre.shares.subrange(0, pre.shares.len() as int) =~= pre.shares);
        }
        let ghost removed = shares_without(pre.shares, entity);
        let ghost base = kept@.len() as int;
        let mut k: usize = 0;
        while k < reqs.len()
            invariant
                k <= reqs@.len(),
                self@ == pre,
                base == removed.len() as int,
                kept@.len() == base + k,
                forall|j: int| 0 <= j < base ==> #[trigger] kept@[j] == removed[j],
                forall|j: int|
                    base <= j < base + k ==> #[trigger] kept@[j] == (ShareRow {
                        entity,
                        owner_id: reqs@[j - base].owner_id,
                        percentage: reqs@[j - base].percentage,
                    }),
            decreases reqs@.len() - k,
        {
            let ghost before = kept@;
            let row = ShareRow { entity, owner_id: reqs[k].owner_id, percentage: reqs[k].percentage };
            kept.push(row);
            proof {
                assert(kept@ == before.push(row));
                assert forall|j: int| base <= j < base + (k as int) + 1 implies #[trigger] kept@[j]
                    == (ShareRow {
                    entity,
                    owner_id: reqs@[j - base].owner_id,
                    percentage: reqs@[j - base].percentage,
                }) by {
                    if j != base + k as int {
                        assert(before.push(row)[j] == before[j]);
                    } else {
                        assert(before.push(row)[j] == row);
                    }
                }
                assert forall|j: int| 0 <= j < base implies #[trigger] kept@[j] == removed[j] by {
                    assert(before.push(row)[j] == before[j]);
                }
            }
            k = k + 1;
        }
        self.shares = kept;
        proof {
            let post = self@;
            lemma_shares_without_pairs(pre.shares, entity);
            assert(share_pairs_unique(post.shares)) by {
                assert forall|x: int, y: int| 0 <= x < y < post.shares.len() implies !((
                #[trigger] post.shares[x]).entity == (#[trigger] post.shares[y]).entity
                    && post.shares[x].owner_id == post.shares[y].owner_id) by {
                    if x < base && y < base {
                        assert(post.shares[x] == removed[x]);
                        assert(post.shares[y] == removed[y]);
                    } else if x < base && y >= base {
                        assert(post.shares[x] == removed[x]);
                        lemma_filter_elem(pre.shares, |r: ShareRow| r.entity != entity, x);
                        pre.shares.lemma_filter_pred(|r: ShareRow| r.entity != entity, x);
                        assert(post.shares[x].entity != entity);
                        assert(post.shares[y].entity == entity);
                    } else {
                        assert(reqs@[x - base].owner_id != reqs@[y - base].owner_id);
                    }
                }
            }
            assert forall|a2: int|
                0 <= a2 < post.shares.len() implies has_key(
                post.owners,
                (#[trigger] post.shares[a2]).owner_id,
            ) && post.entity_exists(post.shares[a2].entity) && post.shares[a2].percentage
                <= 100 by {
                if a2 < base {
                    lemma_filter_elem(pre.shares, |r: ShareRow| r.entity != entity, a2);
                    let w = choose|w: int|
                        0 <= w < pre.shares.len() && pre.shares[w] == removed[a2];
                    assert(has_key(pre.owners, pre.shares[w].owner_id));
                    assert(pre.entity_exists(pre.shares[w].entity));
                } else {
                    assert(post.shares[a2].owner_id == reqs@[a2 - base].owner_id);
                    assert(has_key(pre.owners, reqs@[a2 - base].owner_id));
                }
            }
        }
        Ok(())
    }

    /// Computes, for a fully allocated entity, each owner's part of an
    /// amount: the amount times the percentage, rounded down to whole
    /// cents, with the residual cents assigned to the first largest share —
    /// so the parts always sum exactly to the amount. Rejects a missing
    /// entity with `NotFound` and a share set whose percentages do not sum
    /// to exactly 100 — an empty set included — with `InvalidShareSum`.
    pub fn compute_distribution(&self, entity: EntityRef, amount: u64) -> (r: Result<
        Vec<OwnerAmount>,
        LedgerError,
    >)
        requires
            self.wf(),
        ensures
            r == Err::<Vec<OwnerAmount>, LedgerError>(LedgerError::NotFound) <==> !self@.entity_exists(
                entity,
            ),
            r == Err::<Vec<OwnerAmount>, LedgerError>(LedgerError::InvalidShareSum) <==> (
            self@.entity_exists(entity) && pct_sum(shares_for(self@.shares, entity)) != 100),
            r is Ok <==> (self@.entity_exists(entity) && pct_sum(shares_for(self@.shares, entity))
                == 100),
            r matches Ok(out) ==> {
                let rows = shares_for(self@.shares, entity);
                &&& out@.len() == rows.len()
                &&& forall|k: int|
                    0 <= k < rows.len() ==> (#[trigger] out@[k]).owner_id == rows[k].owner_id
                &&& forall|k: int|
                    0 <= k < rows.len() ==> (#[trigger] out@[k]).amount == base_share(
                        amount,
                        rows[k].percentage,
                    ) + if k == first_max_index(rows) {
                        amount - base_sum(amount, rows)
                    } else {
                        0int
                    }
                &&& amount_sum(out@) == amount
            },
    {
        if !self.entity_on_books(entity) {
            return Err(LedgerError::NotFound);
        }
        // Collect the entity's rows in table order.
        let mut rows: Vec<ShareRow> = Vec::new();
        let mut k: usize = 0;
        while k < self.shares.len()
            invariant
                k <= self@.shares.len(),
                self.wf(),
                self@.entity_exists(entity),
                rows@ == shares_for(self@.shares.subrange(0, k as int), entity),
            decreases self@.shares.len() - k,
        {
            let row = self.shares[k];
            proof {
                lemma_subrange_push(self@.shares, k as int);
                reveal(Seq::filter);
            }
            if row.entity == entity {
                rows.push(row);
            }
            k = k + 1;
        }
        proof {
            assert(self@.shares.subrange(0, self@.shares.len() as int) =~= self@.shares);
        }
        let ghost rs = shares_for(self@.shares, entity);
        proof {
            assert forall|j: int| 0 <= j < rs.len() implies (#[trigger] rs[j]).percentage
                <= 100 by {
                lemma_filter_elem(self@.shares, |r: ShareRow| r.entity == entity, j);
                let w = choose|w: int| 0 <= w < self@.shares.len() && self@.shares[w] == rs[j];
            }
        }
        // The set must be fully allocated: percentages sum to exactly 100.
        let mut sum: u64 = 0;
        let mut k: usize = 0;
        while k < rows.len()
            invariant
                k <= rows@.len(),
                rows@ == rs,
                rs == shares_for(self@.shares, entity),
                self@.entity_exists(entity),
                reqs_rows_bounded(rs),
                sum as int == pct_sum(rs.subrange(0, k as int)),
                sum <= 100,
            decreases rows@.len() - k,
        {
            proof {
                lemma_subrange_push(rs, k as int);
            }
            let p = rows[k].percentage;
            if sum + p > 100 {
                proof {
                    lemma_pct_sum_mono(rs, k as int + 1);
                }
                return Err(LedgerError::InvalidShareSum);
            }
            sum = sum + p;
            k = k + 1;
        }
        proof {
            assert(rs.subrange(0, rs.len() as int) =~= rs);
        }
        if sum != 100 {
            return Err(LedgerError::InvalidShareSum);
        }
        proof {
            lemma_base_sum_le_amount(amount, rs);
        }
        // The base parts, rounded down.
        let mut bases: Vec<u64> = Vec::new();
        let mut bsum: u64 = 0;
        let mut k: usize = 0;
        while k < rows.len()
            invariant
                k <= rows@.len(),
                rows@ == rs,
                reqs_rows_bounded(rs),
                pct_sum(rs) == 100,
                bases@.len() == k,
                forall|j: int|
                    0 <= j < k ==> #[trigger] bases@[j] as int == base_share(
                        amount,
                        rs[j].percentage,
                    ),
                bsum as int == base_sum(amount, rs.subrange(0, k as int)),
                bsum <= amount,
            decreases rows@.len() - k,
        {
            proof {
                lemma_subrange_push(rs, k as int);
                lemma_base_share_bounds(amount, rs[k as int].percentage);
                lemma_base_sum_mono(amount, rs, k as int + 1);
                lemma_base_sum_le_amount(amount, rs);
                lemma_mul_upper_bound(amount as int, u64::MAX as int, rs[k as int].percentage as int, u64::MAX as int);
            }
            let p = rows[k].percentage;
            let b = ((amount as u128 * p as u128) / 100) as u64;
            bases.push(b);
            bsum = bsum + b;
            k = k + 1;
        }
        proof {
            assert(rs.subrange(0, rs.len() as int) =~= rs);
        }
        // The first largest share receives the residual cents.
        let mut m: usize = 0;
        let mut k: usize = 1;
        while k < rows.len()
            invariant
                rows@ == rs,
                rs.len() > 0,
                1 <= k <= rows@.len(),
                m < k,
                m as int == first_max_index(rs.subrange(0, k as int)),
            decreases rows@.len() - k,
        {
            proof {
                lemma_subrange_push(rs, k as int);
                assert(rs.subrange(0, k as int + 1).drop_last() == rs.subrange(0, k as int));
                assert(rs.subrange(0, k as int)[m as int] == rs[m as int]);
            }
            if rows[k].percentage > rows[m].percentage {
                m = k;
            }
            k = k + 1;
        }
        proof {
            assert(rs.subrange(0, rs.len() as int) =~= rs);
            lemma_first_max_index(rs);
        }
        let resid = amount - bsum;
        // Assemble the distribution.
        let mut out: Vec<OwnerAmount> = Vec::new();
        let mut k: usize = 0;
        while k < rows.len()
            invariant
                k <= rows@.len(),
                rows@ == rs,
                reqs_rows_bounded(rs),
                pct_sum(rs) == 100,
                bases@.len() == rs.len(),
                forall|j: int|
                    0 <= j < rs.len() ==> #[trigger] bases@[j] as int == base_share(
                        amount,
                        rs[j].percentage,
                    ),
                bsum as int == base_sum(amount, rs),
                bsum <= amount,
                resid as int == amount - base_sum(amount, rs),
                m < rs.len(),
                m as int == first_max_index(rs),
                out@.len() == k,
                forall|j: int|
                    0 <= j < k ==> (#[trigger] out@[j]).owner_id == rs[j].owner_id,
                forall|j: int|
                    0 <= j < k ==> (#[trigger] out@[j]).amount == base_share(
                        amount,
                        rs[j].percentage,
                    ) + if j == m as int {
                        amount - base_sum(amount, rs)
                    } else {
                        0int
                    },
                amount_sum(out@) == base_sum(amount, rs.subrange(0, k as int)) + if k > m {
                    amount - base_sum(amount, rs)
                } else {
                    0int
                },
            decreases rows@.len() - k,
        {
            proof {
                lemma_subrange_push(rs, k as int);
                lemma_base_sum_ge_term(amount, rs, k as int);
                lemma_base_sum_mono(amount, rs, k as int + 1);
            }
            let part = if k == m {
                bases[k] + resid
            } else {
                bases[k]
            };
            out.push(OwnerAmount { owner_id: rows[k].owner_id, amount: part });
            k = k + 1;
        }
        proof {
            assert(rs.subrange(0, rs.len() as int) =~= rs);
        }
        Ok(out)
    }
}

} // verus!
