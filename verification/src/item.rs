//! Key/value entries and the ordering facts the node algorithms rest on.

use vstd::prelude::*;

verus! {

/// Type identified by a key.
///
/// Implemented by [`Item`] and [`crate::internal::Branch`].
pub trait Keyed {
    type Key;

    /// The key under which this value is ordered.
    spec fn spec_key(&self) -> Self::Key;

    /// Returns the key under which this value is ordered.
    fn key(&self) -> (k: &Self::Key)
        ensures
            *k == self.spec_key(),
    ;
}

/// A key/value entry, usable both as leaf data and as a separator in an
/// internal node. All ordered operations identify an item by its key alone.
#[derive(Clone, Copy, PartialEq, Eq, Structural, Hash, Debug)]
pub struct Item {
    pub key: u64,
    pub value: u64,
}

impl Item {
    /// Builds the entry binding `key` to `value`.
    pub fn new(key: u64, value: u64) -> (r: Item)
        ensures
            r == (Item { key, value }),
    {
        Item { key, value }
    }
}

impl Keyed for Item {
    type Key = u64;

    open spec fn spec_key(&self) -> u64 {
        self.key
    }

    fn key(&self) -> (k: &u64) {
        &self.key
    }
}

/// Items are strictly ordered by key: no two items share a key, and the
/// sequence ascends.
pub open spec fn keys_sorted(s: Seq<Item>) -> bool {
    forall|i: int, j: int| 0 <= i < j < s.len() ==> s[i].key < s[j].key
}

/// Some item of `s` carries the key `k`.
pub open spec fn has_key(s: Seq<Item>, k: u64) -> bool {
    exists|i: int| 0 <= i < s.len() && s[i].key == k
}

/// Every key of `s` lies strictly between the bounds, where a bound exists.
pub open spec fn keys_between(s: Seq<Item>, lo: Option<u64>, hi: Option<u64>) -> bool {
    forall|i: int|
        0 <= i < s.len() ==> {
            &&& (lo matches Some(l) ==> l < #[trigger] s[i].key)
            &&& (hi matches Some(h) ==> s[i].key < h)
        }
}

/// What a split keeps in the left (original) node: the items strictly before
/// the median position.
pub open spec fn split_left(s: Seq<Item>) -> Seq<Item> {
    s.subrange(0, s.len() as int / 2)
}

/// The median item a split promotes out of both halves, to become a separator
/// one level up.
pub open spec fn split_median(s: Seq<Item>) -> Item {
    s[s.len() as int / 2]
}

/// What a split moves into the fresh right sibling: the items strictly after
/// the median position.
pub open spec fn split_right(s: Seq<Item>) -> Seq<Item> {
    s.subrange(s.len() as int / 2 + 1, s.len() as int)
}

/// What an `append` produces: the left items, the demoted separator, then the
/// right items.
pub open spec fn appended(left: Seq<Item>, separator: Item, right: Seq<Item>) -> Seq<Item> {
    left + seq![separator] + right
}

/// Round trip: appending the promoted median and the right sibling back onto
/// what a split left behind restores the original item sequence.
pub proof fn lemma_split_append_round_trip(s: Seq<Item>)
    requires
        s.len() >= 1,
    ensures
        appended(split_left(s), split_median(s), split_right(s)) == s,
{
    assert(appended(split_left(s), split_median(s), split_right(s)) =~= s);
}

/// Concatenating two strictly sorted runs around a separator that strictly
/// bounds both keeps the result strictly sorted.
pub proof fn lemma_sorted_append(left: Seq<Item>, separator: Item, right: Seq<Item>)
    requires
        keys_sorted(left),
        keys_sorted(right),
        keys_between(left, None, Some(separator.key)),
        keys_between(right, Some(separator.key), None),
    ensures
        keys_sorted(appended(left, separator, right)),
{
    let t = appended(left, separator, right);
    assert forall|p: int, q: int| 0 <= p < q < t.len() implies t[p].key < t[q].key by {
        let m = left.len() as int;
        if p < m && q > m {
            assert(t[p].key < separator.key);
            assert(separator.key < t[q].key);
        }
    }
}

/// A node that respects its capacity before an insert still respects it after:
/// one new item on top of strictly fewer than `max_items` stays within
/// `max_items`. A node already at `max_items` must be split first.
pub proof fn lemma_insert_within_capacity(s: Seq<Item>, i: int, item: Item, max_items: int)
    requires
        0 <= i <= s.len(),
        s.len() < max_items,
    ensures
        s.insert(i, item).len() <= max_items,
{
}

/// Boundary no-op pair, right side: pushing an item at the right boundary and
/// popping the right boundary returns that same item and restores the original
/// sequence; with one item more than `min_items` present, the pop is owed.
pub proof fn lemma_push_pop_right(s: Seq<Item>, item: Item, min_items: int)
    ensures
        s.push(item).last() == item,
        s.push(item).drop_last() == s,
        s.len() >= min_items ==> s.push(item).len() > min_items,
{
    assert(s.push(item).drop_last() =~= s);
}

/// Boundary no-op pair, left side: pushing an item at the left boundary and
/// popping the left boundary returns that same item and restores the original
/// sequence; with one item more than `min_items` present, the pop is owed.
pub proof fn lemma_push_pop_left(s: Seq<Item>, item: Item, min_items: int)
    ensures
        (seq![item] + s)[0] == item,
        (seq![item] + s).drop_first() == s,
        s.len() >= min_items ==> (seq![item] + s).len() > min_items,
{
    assert((seq![item] + s).drop_first() =~= s);
}

/// Inserting an item whose key fits strictly between its new neighbours keeps
/// the sequence strictly sorted.
pub proof fn lemma_sorted_insert(s: Seq<Item>, i: int, item: Item)
    requires
        keys_sorted(s),
        0 <= i <= s.len(),
        i > 0 ==> s[i - 1].key < item.key,
        i < s.len() ==> item.key < s[i].key,
    ensures
        keys_sorted(s.insert(i, item)),
{
    let t = s.insert(i, item);
    assert forall|p: int, q: int| 0 <= p < q < t.len() implies t[p].key < t[q].key by {
        if p < i && q > i {
            assert(s[p].key < s[i - 1].key || p == i - 1);
        }
        if p == i && q > i {
            assert(t[q] == s[q - 1]);
        }
    }
}

/// Removing an item keeps the sequence strictly sorted.
pub proof fn lemma_sorted_remove(s: Seq<Item>, i: int)
    requires
        keys_sorted(s),
        0 <= i < s.len(),
    ensures
        keys_sorted(s.remove(i)),
{
}

/// Replacing an item by one whose key fits strictly between the same
/// neighbours keeps the sequence strictly sorted.
pub proof fn lemma_sorted_update(s: Seq<Item>, i: int, item: Item)
    requires
        keys_sorted(s),
        0 <= i < s.len(),
        i > 0 ==> s[i - 1].key < item.key,
        i < s.len() - 1 ==> item.key < s[i + 1].key,
    ensures
        keys_sorted(s.update(i, item)),
{
    let t = s.update(i, item);
    assert forall|p: int, q: int| 0 <= p < q < t.len() implies t[p].key < t[q].key by {
        if q == i && p < i - 1 {
            assert(s[p].key < s[i - 1].key);
        }
        if p == i && q > i + 1 {
            assert(s[i + 1].key < s[q].key);
        }
    }
}

/// A contiguous slice of a strictly sorted sequence is strictly sorted.
pub proof fn lemma_sorted_subrange(s: Seq<Item>, lo: int, hi: int)
    requires
        keys_sorted(s),
        0 <= lo <= hi <= s.len(),
    ensures
        keys_sorted(s.subrange(lo, hi)),
{
}

} // verus!
