//! The notification emitter: a stateless producer that turns domain events
//! — a low-stock crossing, an unpaid sale aging past a window — into
//! notification rows, plus the read-state transition. Notifications are
//! advisory; there is no un-read transition.

use vstd::prelude::*;
use crate::types::LedgerError;
use crate::types::Notification;
use crate::keyed::find_by_key;
use crate::keyed::has_key;
use crate::keyed::keys_increasing;
use crate::keyed::lemma_subrange_push;
use crate::keyed::Keyed;
use crate::ledger::sales_monotonic;
use crate::ledger::Ledger;

verus! {

broadcast use crate::keyed::lemma_push_drop_last;

/// The notification row a low-stock crossing produces: it points at the
/// product whose stock fell to or below its threshold, and starts unread.
pub open spec fn is_low_stock_note(n: Notification, id: u64, product_id: u64, now: u64) -> bool {
    &&& n.id == id
    &&& n.created_at == now
    &&& n.title@ == "Low stock"@
    &&& n.message@ == "Stock fell to or below the product's low-stock threshold"@
    &&& n.target == product_id
    &&& n.read_at is None
}

/// The notification row an aged unpaid sale produces: it points at the sale
/// that is still unpaid past the configured window, and starts unread.
pub open spec fn is_unpaid_note(n: Notification, id: u64, sale_id: u64, now: u64) -> bool {
    &&& n.id == id
    &&& n.created_at == now
    &&& n.title@ == "Unpaid sale"@
    &&& n.message@ == "A sale is still unpaid past the aging window"@
    &&& n.target == sale_id
    &&& n.read_at is None
}

/// Builds the notification row for one low-stock crossing.
pub fn make_low_stock_note(id: u64, product_id: u64, now: u64) -> (n: Notification)
    ensures
        is_low_stock_note(n, id, product_id, now),
{
    Notification {
        id,
        created_at: now,
        title: "Low stock".to_owned(),
        message: "Stock fell to or below the product's low-stock threshold".to_owned(),
        target: product_id,
        read_at: None,
    }
}

/// Builds the notification row for one aged unpaid sale.
pub fn make_unpaid_note(id: u64, sale_id: u64, now: u64) -> (n: Notification)
    ensures
        is_unpaid_note(n, id, sale_id, now),
{
    Notification {
        id,
        created_at: now,
        title: "Unpaid sale".to_owned(),
        message: "A sale is still unpaid past the aging window".to_owned(),
        target: sale_id,
        read_at: None,
    }
}

/// The sales that are still unpaid and older than the aging window, as sale
/// identifiers in sale order.
pub open spec fn aged_unpaid(sales: Seq<crate::types::Sale>, window: u64, now: u64) -> Seq<u64>
    decreases sales.len(),
{
    if sales.len() == 0 {
        Seq::empty()
    } else {
        let pre = aged_unpaid(sales.drop_last(), window, now);
        let s = sales.last();
        if s.paid_at is None && s.created_at + window <= now {
            pre.push(s.id)
        } else {
            pre
        }
    }
}

impl Ledger {
    /// Emits one notification per sale that is still unpaid past the aging
    /// window, in sale order, and returns how many were emitted.
    /// Notifications are advisory and best-effort: no record is kept of
    /// which sales were already reported, so a later pass may report the
    /// same sale again.
    pub fn emit_unpaid_reminders(&mut self, window: u64, now: u64) -> (r: usize)
        requires
            old(self).wf(),
            old(self)@.next_notification_id + old(self)@.sales.len() <= u64::MAX,
        ensures
            final(self).wf(),
            r == aged_unpaid(old(self)@.sales, window, now).len(),
            final(self)@.notifications.len() == old(self)@.notifications.len() + r,
            forall|k: int|
                0 <= k < old(self)@.notifications.len() ==> #[trigger] final(self)@.notifications[k]
                    == old(self)@.notifications[k],
            forall|k: int|
                0 <= k < aged_unpaid(old(self)@.sales, window, now).len() ==> is_unpaid_note(
                    #[trigger] final(self)@.notifications[old(self)@.notifications.len() + k],
                    (old(self)@.next_notification_id + k) as u64,
                    aged_unpaid(old(self)@.sales, window, now)[k],
                    now,
                ),
            final(self)@ == old(self)@.with_notifications(
                final(self)@.notifications,
                (old(self)@.next_notification_id + r) as u64,
            ),
            sales_monotonic(old(self)@.sales, final(self)@.sales),
    {
        let ghost pre = self@;
        let ghost base = self@.notifications.len() as int;
        let ghost nid0 = self@.next_notification_id;
        let mut count: usize = 0;
        let mut k: usize = 0;
        while k < self.sales.len()
            invariant
                k <= self@.sales.len(),
                self@ == pre.with_notifications(self@.notifications, self@.next_notification_id),
                base == pre.notifications.len() as int,
                nid0 == pre.next_notification_id,
                nid0 + pre.sales.len() <= u64::MAX,
                count as int == aged_unpaid(pre.sales.subrange(0, k as int), window, now).len(),
                count <= k,
                self@.notifications.len() == base + count,
                self@.next_notification_id == nid0 + count,
                forall|j: int|
                    0 <= j < base ==> #[trigger] self@.notifications[j] == pre.notifications[j],
                forall|j: int|
                    base <= j < base + count ==> is_unpaid_note(
                        #[trigger] self@.notifications[j],
                        (nid0 + (j - base)) as u64,
                        aged_unpaid(pre.sales.subrange(0, k as int), window, now)[j - base],
                        now,
                    ),
            decreases self@.sales.len() - k,
        {
            let ghost before = self@.notifications;
            let ghost aged_pre = aged_unpaid(pre.sales.subrange(0, k as int), window, now);
            proof {
                lemma_subrange_push(pre.sales, k as int);
            }
            let s = self.sales[k];
            let aged = match s.created_at.checked_add(window) {
                Some(t) => t <= now,
                None => false,
            };
            if s.paid_at.is_none() && aged {
                let id = self.next_notification_id;
                let note = make_unpaid_note(id, s.id, now);
                self.notifications.push(note);
                self.next_notification_id = id + 1;
                count = count + 1;
                proof {
                    assert(self@.notifications == before.push(note));
                    assert forall|j: int|
                        base <= j < base + count implies is_unpaid_note(
                        #[trigger] self@.notifications[j],
                        (nid0 + (j - base)) as u64,
                        aged_unpaid(pre.sales.subrange(0, k as int + 1), window, now)[j - base],
                        now,
                    ) by {
                        if j != base + count - 1 {
                            assert(before.push(note)[j] == before[j]);
                            assert(aged_pre[j - base] == aged_unpaid(
                                pre.sales.subrange(0, k as int + 1),
                                window,
                                now,
                            )[j - base]);
                        } else {
                            assert(before.push(note)[j] == note);
                        }
                    }
                    assert forall|j: int| 0 <= j < base implies #[trigger] self@.notifications[j]
                        == pre.notifications[j] by {
                        assert(before.push(note)[j] == before[j]);
                    }
                }
            }
            k = k + 1;
        }
        proof {
            assert(pre.sales.subrange(0, pre.sales.len() as int) =~= pre.sales);
            let post = self@;
            let n = count as int;
            assert(keys_increasing(post.notifications, post.next_notification_id)) by {
                assert forall|x: int, y: int| 0 <= x < y < post.notifications.len() implies (
                #[trigger] post.notifications[x]).key() < (#[trigger] post.notifications[y]).key() by {
                    if y < base {
                        assert(pre.notifications[x].key() < pre.notifications[y].key());
                    } else if x < base {
                        assert(pre.notifications[x].key() < pre.next_notification_id);
                        assert(is_unpaid_note(
                            post.notifications[y],
                            (nid0 + (y - base)) as u64,
                            aged_unpaid(pre.sales, window, now)[y - base],
                            now,
                        ));
                    } else {
                        assert(is_unpaid_note(
                            post.notifications[x],
                            (nid0 + (x - base)) as u64,
                            aged_unpaid(pre.sales, window, now)[x - base],
                            now,
                        ));
                        assert(is_unpaid_note(
                            post.notifications[y],
                            (nid0 + (y - base)) as u64,
                            aged_unpaid(pre.sales, window, now)[y - base],
                            now,
                        ));
                    }
                }
                assert forall|x: int| 0 <= x < post.notifications.len() implies (
                #[trigger] post.notifications[x]).key() < post.next_notification_id by {
                    if x < base {
                        assert(pre.notifications[x].key() < pre.next_notification_id);
                    } else {
                        assert(is_unpaid_note(
                            post.notifications[x],
                            (nid0 + (x - base)) as u64,
                            aged_unpaid(pre.sales, window, now)[x - base],
                            now,
                        ));
                    }
                }
            }
        }
        count
    }

    /// Marks a notification read, stamping the read timestamp. Marking an
    /// already-read notification again is a no-op that keeps the original
    /// timestamp: there is no un-read transition. Rejects an unknown
    /// notification with `NotFound`.
    pub fn mark_read(&mut self, notification_id: u64, now: u64) -> (r: Result<(), LedgerError>)
        requires
            old(self).wf(),
        ensures
            final(self).wf(),
            r == Err::<(), LedgerError>(LedgerError::NotFound) <==> !has_key(
                old(self)@.notifications,
                notification_id,
            ),
            r is Ok <==> has_key(old(self)@.notifications, notification_id),
            r is Err ==> final(self)@ == old(self)@,
            r is Ok ==> final(self)@.notifications.len() == old(self)@.notifications.len() && (
            forall|k: int|
                0 <= k < old(self)@.notifications.len() ==> #[trigger] final(self)@.notifications[k]
                    == (if old(self)@.notifications[k].id == notification_id && old(
                    self,
                )@.notifications[k].read_at is None {
                    Notification { read_at: Some(now), ..old(self)@.notifications[k] }
                } else {
                    old(self)@.notifications[k]
                })) && final(self)@ == old(self)@.with_notifications(
                final(self)@.notifications,
                old(self)@.next_notification_id,
            ),
            sales_monotonic(old(self)@.sales, final(self)@.sales),
    {
        let i = match find_by_key(&self.notifications, notification_id) {
            None => {
                return Err(LedgerError::NotFound);
            },
            Some(i) => i,
        };
        if self.notifications[i].read_at.is_none() {
            self.notifications[i].read_at = Some(now);
        }
        proof {
            let pre = old(self)@;
            let post = self@;
            assert forall|k: int|
                0 <= k < pre.notifications.len() && pre.notifications[k].id == notification_id
                    implies k == i as int by {
                if k != i as int {
                    if k < i as int {
                        assert(pre.notifications[k].key() < pre.notifications[i as int].key());
                    } else {
                        assert(pre.notifications[i as int].key() < pre.notifications[k].key());
                    }
                }
            }
        }
        Ok(())
    }
}

} // verus!
