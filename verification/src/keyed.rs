//! Tables of rows with unique integer identifiers: lookup, freshness, and
//! the well-formedness every table shares.

use vstd::prelude::*;
use crate::types::Customer;
use crate::types::Expense;
use crate::types::Notification;
use crate::types::Owner;
use crate::types::Product;
use crate::types::Purchase;
use crate::types::Sale;
use crate::types::Supplier;

verus! {

/// A table row carrying a unique integer identifier.
pub trait Keyed: Sized {
    /// The row's identifier.
    spec fn key(&self) -> u64;

    /// Returns the row's identifier.
    fn read_key(&self) -> (k: u64)
        ensures
            k == self.key(),
    ;
}

impl Keyed for Product {
    open spec fn key(&self) -> u64 {
        self.id
    }

    fn read_key(&self) -> (k: u64)
        ensures
            k == self.key(),
    {
        self.id
    }
}

impl Keyed for Supplier {
    open spec fn key(&self) -> u64 {
        self.id
    }

    fn read_key(&self) -> (k: u64)
        ensures
            k == self.key(),
    {
        self.id
    }
}

impl Keyed for Customer {
    open spec fn key(&self) -> u64 {
        self.id
    }

    fn read_key(&self) -> (k: u64)
        ensures
            k == self.key(),
    {
        self.id
    }
}

impl Keyed for Owner {
    open spec fn key(&self) -> u64 {
        self.id
    }

    fn read_key(&self) -> (k: u64)
        ensures
            k == self.key(),
    {
        self.id
    }
}

impl Keyed for Purchase {
    open spec fn key(&self) -> u64 {
        self.id
    }

    fn read_key(&self) -> (k: u64)
        ensures
            k == self.key(),
    {
        self.id
    }
}

impl Keyed for Sale {
    open spec fn key(&self) -> u64 {
        self.id
    }

    fn read_key(&self) -> (k: u64)
        ensures
            k == self.key(),
    {
        self.id
    }
}

impl Keyed for Expense {
    open spec fn key(&self) -> u64 {
        self.id
    }

    fn read_key(&self) -> (k: u64)
        ensures
            k == self.key(),
    {
        self.id
    }
}

impl Keyed for Notification {
    open spec fn key(&self) -> u64 {
        self.id
    }

    fn read_key(&self) -> (k: u64)
        ensures
            k == self.key(),
    {
        self.id
    }
}

/// Some row of the table carries this identifier.
pub open spec fn has_key<T: Keyed>(rows: Seq<T>, id: u64) -> bool {
    exists|i: int| 0 <= i < rows.len() && (#[trigger] rows[i]).key() == id
}

/// The index of the row carrying this identifier. With `keys_increasing`
/// that row is unique, so this names the one index where it stands.
pub open spec fn key_index<T: Keyed>(rows: Seq<T>, id: u64) -> int {
    choose|i: int| 0 <= i < rows.len() && (#[trigger] rows[i]).key() == id
}

/// The row carrying this identifier.
pub open spec fn row_of<T: Keyed>(rows: Seq<T>, id: u64) -> T {
    rows[key_index(rows, id)]
}

/// Identifiers strictly increase along the table and stay below the next
/// free one; in particular every identifier appears at most once.
pub open spec fn keys_increasing<T: Keyed>(rows: Seq<T>, next: u64) -> bool {
    &&& forall|i: int, j: int|
        0 <= i < j < rows.len() ==> (#[trigger] rows[i]).key() < (#[trigger] rows[j]).key()
    &&& forall|i: int| 0 <= i < rows.len() ==> (#[trigger] rows[i]).key() < next
}

/// In a table with strictly increasing identifiers, a row found at index `i`
/// is the one row the identifier names.
pub proof fn lemma_key_at<T: Keyed>(rows: Seq<T>, next: u64, id: u64, i: int)
    requires
        keys_increasing(rows, next),
        0 <= i < rows.len(),
        rows[i].key() == id,
    ensures
        has_key(rows, id),
        key_index(rows, id) == i,
        row_of(rows, id) == rows[i],
{
    assert(has_key(rows, id));
    let j = key_index(rows, id);
    if i < j {
        assert(rows[i].key() < rows[j].key());
    } else if j < i {
        assert(rows[j].key() < rows[i].key());
    }
}

/// Finds the index of the row carrying the identifier, scanning in order.
pub fn find_by_key<T: Keyed>(rows: &Vec<T>, id: u64) -> (r: Option<usize>)
    ensures
        match r {
            Some(i) => i < rows@.len() && rows@[i as int].key() == id && has_key(rows@, id),
            None => !has_key(rows@, id),
        },
{
    let mut i: usize = 0;
    while i < rows.len()
        invariant
            i <= rows@.len(),
            forall|j: int| 0 <= j < i ==> (#[trigger] rows@[j]).key() != id,
        decreases rows@.len() - i,
    {
        if rows[i].read_key() == id {
            return Some(i);
        }
        i = i + 1;
    }
    None
}

/// A table row carrying a name that must be unique within its table.
pub trait Named: Sized {
    /// The row's name, as a sequence of characters.
    spec fn vname(&self) -> Seq<char>;

    /// Whether the row carries exactly this name.
    fn name_matches(&self, other: &String) -> (r: bool)
        ensures
            r == (self.vname() == other@),
    ;
}

impl Named for Product {
    open spec fn vname(&self) -> Seq<char> {
        self.name@
    }

    fn name_matches(&self, other: &String) -> (r: bool)
        ensures
            r == (self.vname() == other@),
    {
        self.name == *other
    }
}

impl Named for Supplier {
    open spec fn vname(&self) -> Seq<char> {
        self.name@
    }

    fn name_matches(&self, other: &String) -> (r: bool)
        ensures
            r == (self.vname() == other@),
    {
        self.name == *other
    }
}

impl Named for Customer {
    open spec fn vname(&self) -> Seq<char> {
        self.name@
    }

    fn name_matches(&self, other: &String) -> (r: bool)
        ensures
            r == (self.vname() == other@),
    {
        self.name == *other
    }
}

impl Named for Owner {
    open spec fn vname(&self) -> Seq<char> {
        self.name@
    }

    fn name_matches(&self, other: &String) -> (r: bool)
        ensures
            r == (self.vname() == other@),
    {
        self.name == *other
    }
}

/// Some row of the table carries this name.
pub open spec fn has_name<T: Named>(rows: Seq<T>, name: Seq<char>) -> bool {
    exists|i: int| 0 <= i < rows.len() && (#[trigger] rows[i]).vname() == name
}

/// Whether some row of the table carries this name.
pub fn contains_name<T: Named>(rows: &Vec<T>, name: &String) -> (r: bool)
    ensures
        r == has_name(rows@, name@),
{
    let mut i: usize = 0;
    while i < rows.len()
        invariant
            i <= rows@.len(),
            forall|j: int| 0 <= j < i ==> (#[trigger] rows@[j]).vname() != name@,
        decreases rows@.len() - i,
    {
        if rows[i].name_matches(name) {
            return true;
        }
        i = i + 1;
    }
    false
}

/// A row pushed at the end leaves every identifier findable.
pub broadcast proof fn lemma_push_has_key<T: Keyed>(rows: Seq<T>, x: T, id: u64)
    requires
        has_key(rows, id),
    ensures
        #[trigger] has_key(rows.push(x), id),
{
    let w = choose|w: int| 0 <= w < rows.len() && (#[trigger] rows[w]).key() == id;
    assert(rows.push(x)[w].key() == id);
}

/// Rewriting rows in place without touching their identifiers leaves every
/// identifier findable.
pub proof fn lemma_same_keys_has_key<T: Keyed>(pre: Seq<T>, post: Seq<T>, id: u64)
    requires
        post.len() == pre.len(),
        forall|k: int| 0 <= k < pre.len() ==> (#[trigger] post[k]).key() == pre[k].key(),
        has_key(pre, id),
    ensures
        has_key(post, id),
{
    let w = choose|w: int| 0 <= w < pre.len() && (#[trigger] pre[w]).key() == id;
    assert(post[w].key() == id);
}

/// Names are pairwise different along the table.
pub open spec fn names_unique<T: Named>(rows: Seq<T>) -> bool {
    forall|i: int, j: int|
        0 <= i < j < rows.len() ==> (#[trigger] rows[i]).vname() != (#[trigger] rows[j]).vname()
}

/// Removing a row keeps the remaining identifiers strictly increasing.
pub proof fn lemma_remove_keys_increasing<T: Keyed>(rows: Seq<T>, next: u64, i: int)
    requires
        keys_increasing(rows, next),
        0 <= i < rows.len(),
    ensures
        keys_increasing(rows.remove(i), next),
{
    let post = rows.remove(i);
    assert forall|a: int, b: int| 0 <= a < b < post.len() implies (#[trigger] post[a]).key() < (
    #[trigger] post[b]).key() by {
        let a0 = if a < i { a } else { a + 1 };
        let b0 = if b < i { b } else { b + 1 };
        assert(post[a] == rows[a0]);
        assert(post[b] == rows[b0]);
        assert(rows[a0].key() < rows[b0].key());
    }
    assert forall|a: int| 0 <= a < post.len() implies (#[trigger] post[a]).key() < next by {
        let a0 = if a < i { a } else { a + 1 };
        assert(post[a] == rows[a0]);
    }
}

/// Removing a row keeps the remaining names pairwise different.
pub proof fn lemma_remove_names_unique<T: Named>(rows: Seq<T>, i: int)
    requires
        names_unique(rows),
        0 <= i < rows.len(),
    ensures
        names_unique(rows.remove(i)),
{
    let post = rows.remove(i);
    assert forall|a: int, b: int| 0 <= a < b < post.len() implies (#[trigger] post[a]).vname() != (
    #[trigger] post[b]).vname() by {
        let a0 = if a < i { a } else { a + 1 };
        let b0 = if b < i { b } else { b + 1 };
        assert(post[a] == rows[a0]);
        assert(post[b] == rows[b0]);
        assert(rows[a0].vname() != rows[b0].vname());
    }
}

/// Removing one row leaves every other identifier findable.
pub proof fn lemma_remove_preserves_other_keys<T: Keyed>(rows: Seq<T>, i: int, other: u64)
    requires
        0 <= i < rows.len(),
        has_key(rows, other),
        rows[i].key() != other,
    ensures
        has_key(rows.remove(i), other),
{
    let post = rows.remove(i);
    let w = choose|w: int| 0 <= w < rows.len() && (#[trigger] rows[w]).key() == other;
    if w < i {
        assert(post[w] == rows[w]);
        assert(has_key(post, other));
    } else {
        assert(post[w - 1] == rows[w]);
        assert(has_key(post, other));
    }
}

/// Every element of a filtered sequence stands somewhere in the original.
pub proof fn lemma_filter_elem<A>(s: Seq<A>, pred: spec_fn(A) -> bool, a: int)
    requires
        0 <= a < s.filter(pred).len(),
    ensures
        s.contains(s.filter(pred)[a]),
    decreases s.len(),
{
    reveal(Seq::filter);
    if s.len() > 0 {
        let dl = s.drop_last();
        let fd = dl.filter(pred);
        if a < fd.len() {
            lemma_filter_elem(dl, pred, a);
            let w = choose|w: int| 0 <= w < dl.len() && dl[w] == fd[a];
            assert(s[w] == s.filter(pred)[a]);
        } else {
            assert(s.filter(pred)[a] == s.last());
            assert(s[s.len() - 1] == s.last());
        }
    }
}

/// Splitting a sequence one past an index splits it as a push.
pub proof fn lemma_subrange_push<A>(s: Seq<A>, k: int)
    requires
        0 <= k < s.len(),
    ensures
        s.subrange(0, k + 1) == s.subrange(0, k).push(s[k]),
{
    assert(s.subrange(0, k + 1) =~= s.subrange(0, k).push(s[k]));
}

/// Dropping the last element of a push gives the sequence back.
pub broadcast proof fn lemma_push_drop_last<A>(s: Seq<A>, x: A)
    ensures
        #[trigger] s.push(x).drop_last() == s,
{
    assert(s.push(x).drop_last() =~= s);
}

} // verus!
