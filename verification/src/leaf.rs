//! Leaf nodes: a flat, strictly key-ordered store of items, with no children.

use vstd::prelude::*;

verus! {

use crate::balance::Balance;
use crate::balance::WouldUnderflow;
use crate::balance::balance_of;
use crate::balance::classify;
use crate::item::Item;
use crate::item::has_key;
use crate::item::keys_sorted;
use crate::item::lemma_sorted_insert;
use crate::item::lemma_sorted_remove;
use crate::item::lemma_sorted_subrange;
use crate::offset::Offset;

/// A leaf node: an ordered flat sequence of items and a parent back-reference
/// (absent at the root). Its view is the item sequence.
pub struct LeafNode {
    parent: Option<usize>,
    items: Vec<Item>,
}

impl View for LeafNode {
    type V = Seq<Item>;

    closed spec fn view(&self) -> Seq<Item> {
        self.items@
    }
}

impl LeafNode {
    /// The arena address of this node's parent, absent at the root.
    pub closed spec fn parent_spec(&self) -> Option<usize> {
        self.parent
    }

    /// Well-formedness: the items are strictly ordered by key.
    pub open spec fn wf(&self) -> bool {
        keys_sorted(self@)
    }

    /// Builds a leaf holding the single given item.
    pub fn new(parent: Option<usize>, item: Item) -> (r: LeafNode)
        ensures
            r@ == seq![item],
            r.parent_spec() == parent,
            r.wf(),
    {
        let mut items: Vec<Item> = Vec::new();
        items.push(item);
        LeafNode { parent, items }
    }

    /// The arena address of this node's parent, absent at the root.
    pub fn parent(&self) -> (r: Option<usize>)
        ensures
            r == self.parent_spec(),
    {
        self.parent
    }

    /// Re-homes this node under a new parent.
    pub fn set_parent(&mut self, p: Option<usize>)
        ensures
            final(self).parent_spec() == p,
            final(self)@ == old(self)@,
    {
        self.parent = p;
    }

    /// The number of items stored in this node.
    pub fn item_count(&self) -> (r: usize)
        ensures
            r == self@.len(),
    {
        self.items.len()
    }

    /// Classifies this node's occupancy against the configured bounds.
    pub fn balance(&self, min_items: usize, max_items: usize) -> (r: Balance)
        ensures
            r == balance_of(self@.len() as int, min_items as int, max_items as int),
    {
        classify(self.items.len(), min_items, max_items)
    }

    /// Whether this node holds fewer items than the configured minimum.
    pub fn is_underflowing(&self, min_items: usize) -> (r: bool)
        ensures
            r <==> self@.len() < min_items,
    {
        self.items.len() < min_items
    }

    /// Whether this node holds more items than the configured maximum.
    pub fn is_overflowing(&self, max_items: usize) -> (r: bool)
        ensures
            r <==> self@.len() > max_items,
    {
        self.items.len() > max_items
    }

    /// Finds the position of `key`: `Ok(o)` addresses the item whose key it
    /// is, and `Err(i)` is the raw index at which inserting `key` preserves
    /// the ascending key order.
    pub fn offset_of(&self, key: u64) -> (r: Result<Offset, usize>)
        requires
            self.wf(),
        ensures
            match r {
                Ok(o) => 0 <= o.idx() < self@.len() && self@[o.idx()].key == key,
                Err(i) => {
                    &&& i <= self@.len()
                    &&& forall|j: int| 0 <= j < i ==> self@[j].key < key
                    &&& forall|j: int| i <= j < self@.len() ==> key < self@[j].key
                },
            },
    {
        let mut i: usize = 0;
        while i < self.items.len()
            invariant
                self.wf(),
                i <= self@.len(),
                forall|j: int| 0 <= j < i ==> self@[j].key < key,
            decreases self@.len() - i,
        {
            let k = self.items[i].key;
            if k == key {
                return Ok(Offset::at(i));
            }
            if k > key {
                assert forall|j: int| i <= j < self@.len() implies key < self@[j].key by {
                    assert(j == i || self@[i as int].key < self@[j].key);
                }
                return Err(i);
            }
            i = i + 1;
        }
        Err(i)
    }

    /// Exact-match lookup: the value stored under `key`, or `None` when the
    /// key is absent from this node.
    pub fn get(&self, key: u64) -> (r: Option<&u64>)
        requires
            self.wf(),
        ensures
            match r {
                Some(v) => has_key(self@, key) && forall|i: int|
                    0 <= i < self@.len() && self@[i].key == key ==> self@[i].value == *v,
                None => !has_key(self@, key),
            },
    {
        match self.offset_of(key) {
            Ok(o) => {
                let i = o.unwrap();
                Some(&self.items[i].value)
            },
            Err(_) => None,
        }
    }

    /// Positional access: the item at `offset`, or `None` when the offset is
    /// the sentinel or out of range.
    pub fn item(&self, offset: Offset) -> (r: Option<&Item>)
        ensures
            match r {
                Some(it) => 0 <= offset.idx() < self@.len() && *it == self@[offset.idx()],
                None => !(0 <= offset.idx() < self@.len()),
            },
    {
        match offset.value() {
            Some(i) => {
                if i < self.items.len() {
                    Some(&self.items[i])
                } else {
                    None
                }
            },
            None => None,
        }
    }

    /// Mutable positional access: a reference through which the caller may
    /// rewrite the item at `offset`, or `None` when the offset is the sentinel
    /// or out of range.
    pub fn item_mut(&mut self, offset: Offset) -> (r: Option<&mut Item>)
        ensures
            final(self).parent_spec() == old(self).parent_spec(),
            match r {
                Some(it) => {
                    &&& 0 <= offset.idx() < old(self)@.len()
                    &&& *it == old(self)@[offset.idx()]
                    &&& final(self)@ == old(self)@.update(offset.idx(), *final(it))
                },
                None => !(0 <= offset.idx() < old(self)@.len()) && final(self)@ == old(self)@,
            },
    {
        match offset.value() {
            Some(i) => {
                if i < self.items.len() {
                    Some(&mut self.items[i])
                } else {
                    None
                }
            },
            None => None,
        }
    }

    /// Mutable exact-match lookup: a reference through which the caller may
    /// rewrite the value stored under `key`, or `None` when the key is absent.
    pub fn get_mut(&mut self, key: u64) -> (r: Option<&mut u64>)
        requires
            old(self).wf(),
        ensures
            final(self).wf(),
            final(self).parent_spec() == old(self).parent_spec(),
            match r {
                Some(v) => {
                    &&& has_key(old(self)@, key)
                    &&& final(self)@.len() == old(self)@.len()
                    &&& forall|i: int|
                        0 <= i < old(self)@.len() && old(self)@[i].key == key ==> old(self)@[i].value == *v
                    &&& forall|i: int|
                        0 <= i < old(self)@.len() && old(self)@[i].key == key ==> final(self)@[i] == (Item { key, value: *final(v) })
                    &&& forall|i: int|
                        0 <= i < old(self)@.len() && old(self)@[i].key != key ==> final(self)@[i] == old(self)@[i]
                },
                None => !has_key(old(self)@, key) && final(self)@ == old(self)@,
            },
    {
        match self.offset_of(key) {
            Ok(o) => {
                let i = o.unwrap();
                let ghost s0 = self.items@;
                let it: &mut Item = &mut self.items[i];
                proof {
                    assert forall|j: int|
                        0 <= j < s0.len() && s0[j].key == key implies j == i as int by {
                        if j != i as int {
                            assert(s0[j].key < s0[i as int].key || s0[i as int].key < s0[j].key);
                        }
                    }
                }
                Some(&mut it.value)
            },
            Err(_) => None,
        }
    }

    /// Inserts `key`/`value` in key order, assuming spare capacity. If the key
    /// is already present, overwrites the value in place and returns the
    /// previous one beside its offset; otherwise returns the fresh offset and
    /// `None`.
    pub fn insert_by_key(&mut self, key: u64, value: u64) -> (r: (Offset, Option<u64>))
        requires
            old(self).wf(),
            old(self)@.len() < usize::MAX - 1,
        ensures
            final(self).wf(),
            final(self).parent_spec() == old(self).parent_spec(),
            has_key(old(self)@, key) ==> {
                &&& 0 <= r.0.idx() < old(self)@.len()
                &&& old(self)@[r.0.idx()].key == key
                &&& r.1 == Some(old(self)@[r.0.idx()].value)
                &&& final(self)@ == old(self)@.update(r.0.idx(), Item { key, value })
            },
            !has_key(old(self)@, key) ==> {
                &&& 0 <= r.0.idx() <= old(self)@.len()
                &&& forall|j: int| 0 <= j < r.0.idx() ==> old(self)@[j].key < key
                &&& forall|j: int| r.0.idx() <= j < old(self)@.len() ==> key < old(self)@[j].key
                &&& r.1 == None::<u64>
                &&& final(self)@ == old(self)@.insert(r.0.idx(), Item { key, value })
            },
    {
        match self.offset_of(key) {
            Ok(o) => {
                let i = o.unwrap();
                let previous = self.items[i].value;
                self.items[i] = Item::new(key, value);
                proof {
                    crate::item::lemma_sorted_update(old(self)@, i as int, Item { key, value });
                }
                (o, Some(previous))
            },
            Err(i) => {
                self.items.insert(i, Item::new(key, value));
                proof {
                    lemma_sorted_insert(old(self)@, i as int, Item { key, value });
                }
                (Offset::at(i), None)
            },
        }
    }

    /// Positional insert, assuming spare capacity. Keeps the node well-formed
    /// whenever the new item's key fits strictly between its neighbours.
    pub fn insert(&mut self, offset: Offset, item: Item)
        requires
            0 <= offset.idx() <= old(self)@.len(),
            old(self)@.len() < usize::MAX - 1,
        ensures
            final(self)@ == old(self)@.insert(offset.idx(), item),
            final(self).parent_spec() == old(self).parent_spec(),
            old(self).wf() && (offset.idx() == 0 || old(self)@[offset.idx() - 1].key < item.key)
                && (offset.idx() == old(self)@.len() || item.key < old(self)@[offset.idx()].key)
                ==> final(self).wf(),
    {
        let i = offset.unwrap();
        self.items.insert(i, item);
        proof {
            if old(self).wf() && (offset.idx() == 0 || old(self)@[offset.idx() - 1].key < item.key)
                && (offset.idx() == old(self)@.len() || item.key < old(self)@[offset.idx()].key) {
                lemma_sorted_insert(old(self)@, offset.idx(), item);
            }
        }
    }

    /// Positional removal: takes the item at `offset` out and returns it.
    pub fn remove(&mut self, offset: Offset) -> (r: Item)
        requires
            0 <= offset.idx() < old(self)@.len(),
        ensures
            r == old(self)@[offset.idx()],
            final(self)@ == old(self)@.remove(offset.idx()),
            final(self).parent_spec() == old(self).parent_spec(),
            old(self).wf() ==> final(self).wf(),
    {
        let i = offset.unwrap();
        let r = self.items.remove(i);
        proof {
            if old(self).wf() {
                lemma_sorted_remove(old(self)@, offset.idx());
            }
        }
        r
    }

    /// Removes and returns the maximum-key item, used to supply a predecessor
    /// replacement during internal-key deletion.
    pub fn remove_last(&mut self) -> (r: Item)
        requires
            old(self)@.len() >= 1,
        ensures
            r == old(self)@.last(),
            final(self)@ == old(self)@.drop_last(),
            final(self).parent_spec() == old(self).parent_spec(),
            old(self).wf() ==> final(self).wf(),
    {
        let r = self.items.pop().unwrap();
        proof {
            assert(self@ =~= old(self)@.drop_last());
        }
        r
    }

    /// Prepends an item at the left boundary, the receiving half of borrowing
    /// one item from the left sibling.
    pub fn push_left(&mut self, item: Item)
        requires
            old(self)@.len() < usize::MAX - 1,
        ensures
            final(self)@ == seq![item] + old(self)@,
            final(self).parent_spec() == old(self).parent_spec(),
    {
        self.items.insert(0, item);
        proof {
            assert(self@ =~= seq![item] + old(self)@);
        }
    }

    /// Gives up the leftmost item, unless that would leave the node below
    /// `min_items` (so the caller must merge instead of borrow).
    pub fn pop_left(&mut self, min_items: usize) -> (r: Result<Item, WouldUnderflow>)
        ensures
            final(self).parent_spec() == old(self).parent_spec(),
            old(self)@.len() > min_items ==> (r matches Ok(it) && it == old(self)@[0] && final(self)@ == old(self)@.drop_first()),
            old(self)@.len() <= min_items ==> (r matches Err(_) && final(self)@ == old(self)@),
            old(self).wf() ==> final(self).wf(),
    {
        if self.items.len() > min_items {
            let it = self.items.remove(0);
            proof {
                assert(self@ =~= old(self)@.drop_first());
                if old(self).wf() {
                    lemma_sorted_remove(old(self)@, 0);
                }
            }
            Ok(it)
        } else {
            Err(WouldUnderflow)
        }
    }

    /// Appends an item at the right boundary; returns its offset.
    pub fn push_right(&mut self, item: Item) -> (r: Offset)
        requires
            old(self)@.len() < usize::MAX - 1,
        ensures
            r.idx() == old(self)@.len(),
            final(self)@ == old(self)@.push(item),
            final(self).parent_spec() == old(self).parent_spec(),
    {
        let o = Offset::at(self.items.len());
        self.items.push(item);
        o
    }

    /// Gives up the rightmost item and its offset, unless that would leave the
    /// node below `min_items` (so the caller must merge instead of borrow).
    pub fn pop_right(&mut self, min_items: usize) -> (r: Result<(Offset, Item), WouldUnderflow>)
        ensures
            final(self).parent_spec() == old(self).parent_spec(),
            old(self)@.len() > min_items ==> (r matches Ok(p) && p.0.idx() == old(self)@.len() - 1
                && p.1 == old(self)@.last() && final(self)@ == old(self)@.drop_last()),
            old(self)@.len() <= min_items ==> (r matches Err(_) && final(self)@ == old(self)@),
            old(self).wf() ==> final(self).wf(),
    {
        if self.items.len() > min_items {
            let o = Offset::at(self.items.len() - 1);
            let it = self.items.pop().unwrap();
            proof {
                assert(self@ =~= old(self)@.drop_last());
                if old(self).wf() {
                    lemma_sorted_remove(old(self)@, old(self)@.len() - 1);
                    assert(old(self)@.remove(old(self)@.len() - 1) =~= old(self)@.drop_last());
                }
            }
            Ok((o, it))
        } else {
            Err(WouldUnderflow)
        }
    }

    /// Splits this node in half: keeps the items left of the median, promotes
    /// the median out, and returns `(new_length, median, right_sibling)`. The
    /// right sibling starts under the same parent.
    pub fn split(&mut self) -> (r: (usize, Item, LeafNode))
        requires
            old(self)@.len() >= 1,
        ensures
            r.0 == old(self)@.len() / 2,
            r.1 == crate::item::split_median(old(self)@),
            final(self)@ == crate::item::split_left(old(self)@),
            r.2@ == crate::item::split_right(old(self)@),
            final(self).parent_spec() == old(self).parent_spec(),
            r.2.parent_spec() == old(self).parent_spec(),
            old(self).wf() ==> final(self).wf() && r.2.wf(),
    {
        let m = self.items.len() / 2;
        let right_items = self.items.split_off(m + 1);
        let median = self.items.pop().unwrap();
        proof {
            assert(self@ =~= old(self)@.subrange(0, old(self)@.len() as int / 2));
            if old(self).wf() {
                lemma_sorted_subrange(old(self)@, 0, old(self)@.len() as int / 2);
                lemma_sorted_subrange(old(self)@, old(self)@.len() as int / 2 + 1, old(self)@.len() as int);
            }
        }
        (self.items.len(), median, LeafNode { parent: self.parent, items: right_items })
    }

    /// Local consistency check: this node hangs under `parent`, its keys
    /// ascend strictly, and they all lie strictly between the given bounds
    /// where a bound exists.
    pub fn validate(&self, parent: Option<usize>, min: Option<u64>, max: Option<u64>) -> (r: bool)
        ensures
            r <==> {
                &&& self.parent_spec() == parent
                &&& self.wf()
                &&& crate::item::keys_between(self@, min, max)
            },
    {
        let parent_ok = match (self.parent, parent) {
            (None, None) => true,
            (Some(a), Some(b)) => a == b,
            _ => false,
        };
        if !parent_ok {
            return false;
        }
        let mut i: usize = 0;
        while i < self.items.len()
            invariant
                i <= self@.len(),
                forall|p: int, q: int| 0 <= p < q < i ==> self@[p].key < self@[q].key,
                forall|p: int|
                    0 <= p < i ==> {
                        &&& (min matches Some(l) ==> l < #[trigger] self@[p].key)
                        &&& (max matches Some(h) ==> self@[p].key < h)
                    },
            decreases self@.len() - i,
        {
            let ghost ii = i as int;
            let k = self.items[i].key;
            if i > 0 && self.items[i - 1].key >= k {
                proof {
                    assert(self@[ii - 1].key >= self@[ii].key);
                    assert(!self.wf());
                }
                return false;
            }
            match min {
                Some(l) => {
                    if k <= l {
                        proof {
                            assert(!crate::item::keys_between(self@, min, max));
                        }
                        return false;
                    }
                },
                None => {},
            }
            match max {
                Some(h) => {
                    if k >= h {
                        proof {
                            assert(!crate::item::keys_between(self@, min, max));
                        }
                        return false;
                    }
                },
                None => {},
            }
            assert forall|p: int, q: int| 0 <= p < q < i + 1 implies self@[p].key < self@[q].key by {
                if q == ii && p < q - 1 {
                    assert(self@[p].key < self@[q - 1].key);
                }
            }
            i = i + 1;
        }
        true
    }

    /// Concatenates `self`, the separator demoted from the parent, and the
    /// absorbed right sibling; returns the offset at which the separator
    /// landed. Keeps the node well-formed whenever the separator's key lies
    /// strictly between the two halves.
    pub fn append(&mut self, separator: Item, other: LeafNode) -> (r: Offset)
        requires
            old(self)@.len() + 1 + other@.len() < usize::MAX,
        ensures
            r.idx() == old(self)@.len(),
            final(self)@ == crate::item::appended(old(self)@, separator, other@),
            final(self).parent_spec() == old(self).parent_spec(),
            old(self).wf() && other.wf() && crate::item::keys_between(
                old(self)@,
                None,
                Some(separator.key),
            ) && crate::item::keys_between(other@, Some(separator.key), None) ==> final(self).wf(),
    {
        let ghost osnap = other@;
        let mut other = other;
        let r = Offset::at(self.items.len());
        self.items.push(separator);
        self.items.append(&mut other.items);
        proof {
            assert(self@ =~= crate::item::appended(old(self)@, separator, osnap));
            if old(self).wf() && crate::item::keys_sorted(osnap) && crate::item::keys_between(
                old(self)@,
                None,
                Some(separator.key),
            ) && crate::item::keys_between(osnap, Some(separator.key), None) {
                crate::item::lemma_sorted_append(old(self)@, separator, osnap);
            }
        }
        r
    }
}

} // verus!
