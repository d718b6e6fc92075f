//! Internal nodes: a leading left child plus an ordered sequence of
//! (separator item, right child) branches, and a parent back-reference.

use vstd::prelude::*;

verus! {

use crate::balance::Balance;
use crate::balance::WouldUnderflow;
use crate::balance::balance_of;
use crate::balance::classify;
use crate::item::Item;
use crate::item::Keyed;
use crate::item::has_key;
use crate::item::keys_sorted;
use crate::item::lemma_sorted_insert;
use crate::item::lemma_sorted_remove;
use crate::item::lemma_sorted_subrange;
use crate::item::lemma_sorted_update;
use crate::offset::Offset;

/// One (separator item, right child address) pair of an internal node.
#[derive(Clone, Copy, PartialEq, Eq, Structural, Debug)]
pub struct Branch {
    pub item: Item,
    pub child: usize,
}

impl Keyed for Branch {
    type Key = u64;

    open spec fn spec_key(&self) -> u64 {
        self.item.key
    }

    fn key(&self) -> (k: &u64) {
        &self.item.key
    }
}

/// Error returned by [`InternalNode::insert_by_key`] when the key is not
/// already a separator at this level. Creating a brand-new separator is only
/// valid as a side effect of a child split, which the external driver performs
/// through the positional operations; the rejected pair is handed back.
#[derive(Clone, Copy, PartialEq, Eq, Structural, Debug)]
pub struct InsertionError {
    pub key: u64,
    pub value: u64,
}

/// The separator items carried by a branch sequence, in order.
pub open spec fn items_of(bs: Seq<Branch>) -> Seq<Item> {
    bs.map_values(|b: Branch| b.item)
}

/// The branches are strictly ordered by separator key.
pub open spec fn branch_keys_sorted(bs: Seq<Branch>) -> bool {
    forall|i: int, j: int| 0 <= i < j < bs.len() ==> bs[i].item.key < bs[j].item.key
}

/// Branch order and separator-item order are the same thing.
pub proof fn lemma_wf_items(bs: Seq<Branch>)
    ensures
        branch_keys_sorted(bs) <==> keys_sorted(items_of(bs)),
{
    if branch_keys_sorted(bs) {
        assert forall|i: int, j: int|
            0 <= i < j < items_of(bs).len() implies items_of(bs)[i].key < items_of(
            bs,
        )[j].key by {
            assert(items_of(bs)[i] == bs[i].item);
            assert(items_of(bs)[j] == bs[j].item);
        }
    }
    if keys_sorted(items_of(bs)) {
        assert forall|i: int, j: int|
            0 <= i < j < bs.len() implies bs[i].item.key < bs[j].item.key by {
            assert(items_of(bs)[i] == bs[i].item);
            assert(items_of(bs)[j] == bs[j].item);
        }
    }
}

/// An internal node: one leading child address plus `n` branches, hence
/// exactly `n + 1` children around `n` separator items.
pub struct InternalNode {
    parent: Option<usize>,
    first: usize,
    branches: Vec<Branch>,
}

impl InternalNode {
    /// The branch sequence of this node.
    pub closed spec fn branches_spec(&self) -> Seq<Branch> {
        self.branches@
    }

    /// The leading (leftmost) child address.
    pub closed spec fn first_child_spec(&self) -> usize {
        self.first
    }

    /// The arena address of this node's parent, absent at the root.
    pub closed spec fn parent_spec(&self) -> Option<usize> {
        self.parent
    }

    /// The separator items of this node, in branch order.
    pub open spec fn items_spec(&self) -> Seq<Item> {
        items_of(self.branches_spec())
    }

    /// The number of children: one more than the number of items.
    pub open spec fn child_count_spec(&self) -> int {
        self.branches_spec().len() as int + 1
    }

    /// The child address at child index `i`: the leading child at 0, the
    /// right child of branch `i - 1` otherwise.
    pub open spec fn child_spec(&self, i: int) -> usize {
        if i == 0 {
            self.first_child_spec()
        } else {
            self.branches_spec()[i - 1].child
        }
    }

    /// The key bounding child `i` from the left, absent at the open end.
    pub open spec fn left_sep_key(&self, i: int) -> Option<u64> {
        if i == 0 {
            None
        } else {
            Some(self.branches_spec()[i - 1].item.key)
        }
    }

    /// The key bounding child `i` from the right, absent at the open end.
    pub open spec fn right_sep_key(&self, i: int) -> Option<u64> {
        if i < self.branches_spec().len() {
            Some(self.branches_spec()[i].item.key)
        } else {
            None
        }
    }

    /// Well-formedness: the separator items are strictly ordered by key.
    pub open spec fn wf(&self) -> bool {
        branch_keys_sorted(self.branches_spec())
    }

    /// Builds the smallest internal node: a median item binding a left and a
    /// right child.
    pub fn binary(parent: Option<usize>, left_id: usize, median: Item, right_id: usize) -> (r:
        InternalNode)
        ensures
            r.items_spec() == seq![median],
            r.child_count_spec() == 2,
            r.child_spec(0) == left_id,
            r.child_spec(1) == right_id,
            r.parent_spec() == parent,
            r.wf(),
    {
        let mut branches: Vec<Branch> = Vec::new();
        branches.push(Branch { item: median, child: right_id });
        let r = InternalNode { parent, first: left_id, branches };
        proof {
            assert(r.items_spec() =~= seq![median]);
        }
        r
    }

    /// The arena address of this node's parent, absent at the root.
    pub fn parent(&self) -> (r: Option<usize>)
        ensures
            r == self.parent_spec(),
    {
        self.parent
    }

    /// Re-homes this node under a new parent.
    pub fn set_parent(&mut self, p: Option<usize>)
        ensures
            final(self).parent_spec() == p,
            final(self).branches_spec() == old(self).branches_spec(),
            final(self).first_child_spec() == old(self).first_child_spec(),
    {
        self.parent = p;
    }

    /// The number of separator items stored in this node.
    pub fn item_count(&self) -> (r: usize)
        ensures
            r == self.items_spec().len(),
    {
        self.branches.len()
    }

    /// The number of children: one more than the number of items.
    pub fn child_count(&self) -> (r: usize)
        requires
            self.branches_spec().len() < usize::MAX,
        ensures
            r == self.child_count_spec(),
    {
        self.branches.len() + 1
    }

    /// Classifies this node's occupancy against the configured bounds.
    pub fn balance(&self, min_items: usize, max_items: usize) -> (r: Balance)
        ensures
            r == balance_of(self.items_spec().len() as int, min_items as int, max_items as int),
    {
        classify(self.branches.len(), min_items, max_items)
    }

    /// Whether this node holds fewer items than the configured minimum.
    pub fn is_underflowing(&self, min_items: usize) -> (r: bool)
        ensures
            r <==> self.items_spec().len() < min_items,
    {
        self.branches.len() < min_items
    }

    /// Whether this node holds more items than the configured maximum.
    pub fn is_overflowing(&self, max_items: usize) -> (r: bool)
        ensures
            r <==> self.items_spec().len() > max_items,
    {
        self.branches.len() > max_items
    }

    /// The child address at child index `index`.
    pub fn child_id(&self, index: usize) -> (r: usize)
        requires
            0 <= index < self.child_count_spec(),
        ensures
            r == self.child_spec(index as int),
    {
        if index == 0 {
            self.first
        } else {
            self.branches[index - 1].child
        }
    }

    /// The child address at child index `index`, or `None` out of range.
    pub fn child_id_opt(&self, index: usize) -> (r: Option<usize>)
        ensures
            0 <= index < self.child_count_spec() ==> r == Some(self.child_spec(index as int)),
            index >= self.child_count_spec() ==> r is None,
    {
        if index == 0 {
            Some(self.first)
        } else if index - 1 < self.branches.len() {
            Some(self.branches[index - 1].child)
        } else {
            None
        }
    }

    /// Reverse child lookup: the least child index holding the address `id`.
    pub fn child_index(&self, id: usize) -> (r: Option<usize>)
        ensures
            match r {
                Some(i) => {
                    &&& 0 <= i < self.child_count_spec()
                    &&& self.child_spec(i as int) == id
                    &&& forall|j: int| 0 <= j < i ==> self.child_spec(j) != id
                },
                None => forall|j: int| 0 <= j < self.child_count_spec() ==> self.child_spec(j) != id,
            },
    {
        if self.first == id {
            return Some(0);
        }
        let mut i: usize = 0;
        while i < self.branches.len()
            invariant
                i <= self.branches_spec().len(),
                forall|j: int| 0 <= j < i + 1 ==> self.child_spec(j) != id,
            decreases self.branches_spec().len() - i,
        {
            if self.branches[i].child == id {
                return Some(i + 1);
            }
            i = i + 1;
        }
        None
    }

    /// Finds the position of `key` among the separators: `Ok(o)` addresses the
    /// matching separator; otherwise `Err((i, c))` names the child index `i`
    /// and child address `c` to descend into, the child whose key range admits
    /// `key`.
    pub fn offset_of(&self, key: u64) -> (r: Result<Offset, (usize, usize)>)
        requires
            self.wf(),
        ensures
            match r {
                Ok(o) => 0 <= o.idx() < self.items_spec().len() && self.items_spec()[o.idx()].key
                    == key,
                Err(p) => {
                    &&& p.0 <= self.items_spec().len()
                    &&& forall|j: int| 0 <= j < p.0 ==> self.items_spec()[j].key < key
                    &&& forall|j: int|
                        p.0 <= j < self.items_spec().len() ==> key < self.items_spec()[j].key
                    &&& p.1 == self.child_spec(p.0 as int)
                },
            },
    {
        proof {
            lemma_wf_items(self.branches@);
        }
        let mut i: usize = 0;
        while i < self.branches.len()
            invariant
                self.wf(),
                keys_sorted(self.items_spec()),
                i <= self.items_spec().len(),
                forall|j: int| 0 <= j < i ==> self.items_spec()[j].key < key,
            decreases self.branches_spec().len() - i,
        {
            let k = self.branches[i].item.key;
            if k == key {
                return Ok(Offset::at(i));
            }
            if k > key {
                assert forall|j: int|
                    i <= j < self.items_spec().len() implies key < self.items_spec()[j].key by {
                    assert(j == i || self.items_spec()[i as int].key < self.items_spec()[j].key);
                }
                return Err((i, self.child_id(i)));
            }
            i = i + 1;
        }
        Err((i, self.child_id(i)))
    }

    /// Exact-match lookup among the separators: the value stored under `key`,
    /// or the address of the child to descend into when `key` is not a
    /// separator at this level.
    pub fn get(&self, key: u64) -> (r: Result<&u64, usize>)
        requires
            self.wf(),
        ensures
            match r {
                Ok(v) => has_key(self.items_spec(), key) && forall|i: int|
                    0 <= i < self.items_spec().len() && self.items_spec()[i].key == key
                        ==> self.items_spec()[i].value == *v,
                Err(c) => !has_key(self.items_spec(), key) && exists|i: int|
                    {
                        &&& 0 <= i <= self.items_spec().len()
                        &&& forall|j: int| 0 <= j < i ==> self.items_spec()[j].key < key
                        &&& forall|j: int|
                            i <= j < self.items_spec().len() ==> key < self.items_spec()[j].key
                        &&& c == #[trigger] self.child_spec(i)
                    },
            },
    {
        proof {
            lemma_wf_items(self.branches@);
        }
        match self.offset_of(key) {
            Ok(o) => {
                let i = o.unwrap();
                Ok(&self.branches[i].item.value)
            },
            Err((i, c)) => {
                proof {
                    assert(c == self.child_spec(i as int));
                }
                Err(c)
            },
        }
    }

    /// Mutable exact-match lookup among the separators: a reference through
    /// which the caller may rewrite the value stored under `key`, or the
    /// address of the child to descend into.
    pub fn get_mut(&mut self, key: u64) -> (r: Result<&mut u64, usize>)
        requires
            old(self).wf(),
        ensures
            final(self).parent_spec() == old(self).parent_spec(),
            final(self).first_child_spec() == old(self).first_child_spec(),
            final(self).wf(),
            match r {
                Ok(v) => {
                    &&& has_key(old(self).items_spec(), key)
                    &&& final(self).branches_spec().len() == old(self).branches_spec().len()
                    &&& forall|i: int|
                        0 <= i < old(self).items_spec().len() && old(self).items_spec()[i].key
                            == key ==> old(self).items_spec()[i].value == *v
                    &&& forall|i: int|
                        0 <= i < old(self).branches_spec().len() && old(self).branches_spec()[i].item.key == key ==> final(self).branches_spec()[i]
                            == (Branch {
                            item: Item { key, value: *final(v) },
                            child: old(self).branches_spec()[i].child,
                        })
                    &&& forall|i: int|
                        0 <= i < old(self).branches_spec().len() && old(self).branches_spec()[i].item.key != key ==> final(self).branches_spec()[i]
                            == old(self).branches_spec()[i]
                },
                Err(c) => {
                    &&& !has_key(old(self).items_spec(), key)
                    &&& final(self).branches_spec() == old(self).branches_spec()
                    &&& exists|i: int|
                        {
                            &&& 0 <= i <= old(self).items_spec().len()
                            &&& forall|j: int|
                                0 <= j < i ==> old(self).items_spec()[j].key < key
                            &&& forall|j: int|
                                i <= j < old(self).items_spec().len() ==> key < old(self).items_spec()[j].key
                            &&& c == #[trigger] old(self).child_spec(i)
                        }
                },
            },
    {
        proof {
            lemma_wf_items(self.branches@);
        }
        match self.offset_of(key) {
            Ok(o) => {
                let i = o.unwrap();
                let ghost s0 = self.branches@;
                proof {
                    assert(s0[i as int].item.key == key);
                    assert forall|j: int|
                        0 <= j < s0.len() && s0[j].item.key == key implies j == i as int by {
                        if j != i as int {
                            assert(old(self).items_spec()[j].key != old(self).items_spec()[
                                i as int].key);
                        }
                    }
                }
                let b: &mut Branch = &mut self.branches[i];
                Ok(&mut b.item.value)
            },
            Err((i, c)) => {
                proof {
                    assert(c == old(self).child_spec(i as int));
                }
                Err(c)
            },
        }
    }

    /// Positional access: the separator item at `offset`, or `None` when the
    /// offset is the sentinel or out of range.
    pub fn item(&self, offset: Offset) -> (r: Option<&Item>)
        ensures
            match r {
                Some(it) => 0 <= offset.idx() < self.items_spec().len() && *it == self.items_spec()[
                    offset.idx()],
                None => !(0 <= offset.idx() < self.items_spec().len()),
            },
    {
        proof {
            assert(self.items_spec().len() == self.branches@.len());
        }
        match offset.value() {
            Some(i) => {
                if i < self.branches.len() {
                    proof {
                        assert(self.items_spec()[i as int] == self.branches@[i as int].item);
                    }
                    Some(&self.branches[i].item)
                } else {
                    None
                }
            },
            None => None,
        }
    }

    /// Mutable positional access to the separator item at `offset`; the
    /// branch's child address is untouched.
    pub fn item_mut(&mut self, offset: Offset) -> (r: Option<&mut Item>)
        ensures
            final(self).parent_spec() == old(self).parent_spec(),
            final(self).first_child_spec() == old(self).first_child_spec(),
            match r {
                Some(it) => {
                    &&& 0 <= offset.idx() < old(self).items_spec().len()
                    &&& *it == old(self).items_spec()[offset.idx()]
                    &&& final(self).branches_spec() == old(self).branches_spec().update(
                        offset.idx(),
                        Branch {
                            item: *final(it),
                            child: old(self).branches_spec()[offset.idx()].child,
                        },
                    )
                },
                None => !(0 <= offset.idx() < old(self).items_spec().len()) && final(self).branches_spec() == old(self).branches_spec(),
            },
    {
        proof {
            assert(old(self).items_spec().len() == old(self).branches_spec().len());
        }
        match offset.value() {
            Some(i) => {
                if i < self.branches.len() {
                    proof {
                        assert(old(self).items_spec()[i as int] == old(self).branches_spec()[
                            i as int].item);
                    }
                    let b: &mut Branch = &mut self.branches[i];
                    Some(&mut b.item)
                } else {
                    None
                }
            },
            None => None,
        }
    }

    /// In-place value replacement for a key already present as a separator at
    /// this level; a key absent here is rejected, since a brand-new separator
    /// may only arise from a child split driven by the external driver.
    pub fn insert_by_key(&mut self, key: u64, value: u64) -> (r: Result<
        (Offset, u64),
        InsertionError,
    >)
        requires
            old(self).wf(),
        ensures
            final(self).wf(),
            final(self).parent_spec() == old(self).parent_spec(),
            final(self).first_child_spec() == old(self).first_child_spec(),
            has_key(old(self).items_spec(), key) ==> (r matches Ok(p) && {
                &&& 0 <= p.0.idx() < old(self).items_spec().len()
                &&& old(self).items_spec()[p.0.idx()].key == key
                &&& p.1 == old(self).items_spec()[p.0.idx()].value
                &&& final(self).branches_spec() == old(self).branches_spec().update(
                    p.0.idx(),
                    Branch {
                        item: Item { key, value },
                        child: old(self).branches_spec()[p.0.idx()].child,
                    },
                )
            }),
            !has_key(old(self).items_spec(), key) ==> r == Err::<(Offset, u64), _>(
                InsertionError { key, value },
            ) && final(self).branches_spec() == old(self).branches_spec(),
    {
        match self.offset_of(key) {
            Ok(o) => {
                let i = o.unwrap();
                let previous = self.branches[i].item.value;
                let child = self.branches[i].child;
                self.branches[i] = Branch { item: Item { key, value }, child };
                proof {
                    lemma_wf_items(old(self).branches@);
                    assert(self.items_spec() =~= old(self).items_spec().update(
                        i as int,
                        Item { key, value },
                    ));
                    lemma_sorted_update(old(self).items_spec(), i as int, Item { key, value });
                    lemma_wf_items(self.branches@);
                }
                Ok((o, previous))
            },
            Err(_) => Err(InsertionError { key, value }),
        }
    }

    /// Positional insert of a (separator, right child) pair, assuming spare
    /// capacity. Keeps the node well-formed whenever the separator's key fits
    /// strictly between its neighbours.
    pub fn insert(&mut self, offset: Offset, item: Item, child_id: usize)
        requires
            0 <= offset.idx() <= old(self).branches_spec().len(),
            old(self).branches_spec().len() < usize::MAX - 1,
        ensures
            final(self).branches_spec() == old(self).branches_spec().insert(
                offset.idx(),
                Branch { item, child: child_id },
            ),
            final(self).parent_spec() == old(self).parent_spec(),
            final(self).first_child_spec() == old(self).first_child_spec(),
            old(self).wf() && (offset.idx() == 0 || old(self).items_spec()[offset.idx() - 1].key
                < item.key) && (offset.idx() == old(self).items_spec().len()
                || item.key < old(self).items_spec()[offset.idx()].key) ==> final(self).wf(),
    {
        let i = offset.unwrap();
        self.branches.insert(i, Branch { item, child: child_id });
        proof {
            assert(self.items_spec() =~= old(self).items_spec().insert(i as int, item));
            if old(self).wf() && (offset.idx() == 0 || old(self).items_spec()[offset.idx() - 1].key
                < item.key) && (offset.idx() == old(self).items_spec().len()
                || item.key < old(self).items_spec()[offset.idx()].key) {
                lemma_wf_items(old(self).branches@);
                lemma_sorted_insert(old(self).items_spec(), offset.idx(), item);
                lemma_wf_items(self.branches@);
            }
        }
    }

    /// Swaps the separator item at `offset` for `item`, returning the old
    /// one; used when an in-order predecessor or successor is promoted to
    /// replace a deleted key. The branch's child address is untouched.
    pub fn replace(&mut self, offset: Offset, item: Item) -> (r: Item)
        requires
            0 <= offset.idx() < old(self).branches_spec().len(),
        ensures
            r == old(self).items_spec()[offset.idx()],
            final(self).branches_spec() == old(self).branches_spec().update(
                offset.idx(),
                Branch { item, child: old(self).branches_spec()[offset.idx()].child },
            ),
            final(self).parent_spec() == old(self).parent_spec(),
            final(self).first_child_spec() == old(self).first_child_spec(),
            old(self).wf() && (offset.idx() == 0 || old(self).items_spec()[offset.idx() - 1].key
                < item.key) && (offset.idx() == old(self).items_spec().len() - 1
                || item.key < old(self).items_spec()[offset.idx() + 1].key) ==> final(self).wf(),
    {
        let i = offset.unwrap();
        let previous = self.branches[i].item;
        let child = self.branches[i].child;
        self.branches[i] = Branch { item, child };
        proof {
            assert(self.items_spec() =~= old(self).items_spec().update(i as int, item));
            if old(self).wf() && (offset.idx() == 0 || old(self).items_spec()[offset.idx() - 1].key
                < item.key) && (offset.idx() == old(self).items_spec().len() - 1
                || item.key < old(self).items_spec()[offset.idx() + 1].key) {
                lemma_wf_items(old(self).branches@);
                lemma_sorted_update(old(self).items_spec(), offset.idx(), item);
                lemma_wf_items(self.branches@);
            }
        }
        previous
    }

    /// Prepends a (separator, child) pair at the left boundary: the incoming
    /// child becomes the leading child and the separator binds it to the
    /// previous leading child.
    pub fn push_left(&mut self, item: Item, child_id: usize)
        requires
            old(self).branches_spec().len() < usize::MAX - 1,
        ensures
            final(self).first_child_spec() == child_id,
            final(self).branches_spec() == seq![
                Branch { item, child: old(self).first_child_spec() },
            ] + old(self).branches_spec(),
            final(self).parent_spec() == old(self).parent_spec(),
    {
        self.branches.insert(0, Branch { item, child: self.first });
        self.first = child_id;
        proof {
            assert(self.branches@ =~= seq![Branch { item, child: old(self).first_child_spec() }]
                + old(self).branches_spec());
        }
    }

    /// Gives up the leftmost (separator, child) pair — the leading child
    /// leaves and the first branch's child takes its place — unless that
    /// would leave the node below `min_items`.
    pub fn pop_left(&mut self, min_items: usize) -> (r: Result<(Item, usize), WouldUnderflow>)
        ensures
            final(self).parent_spec() == old(self).parent_spec(),
            old(self).branches_spec().len() > min_items ==> (r matches Ok(p) && {
                &&& p.0 == old(self).items_spec()[0]
                &&& p.1 == old(self).first_child_spec()
                &&& final(self).first_child_spec() == old(self).branches_spec()[0].child
                &&& final(self).branches_spec() == old(self).branches_spec().drop_first()
            }),
            old(self).branches_spec().len() <= min_items ==> (r matches Err(_) && *final(self)
                == *old(self)),
            old(self).wf() ==> final(self).wf(),
    {
        if self.branches.len() > min_items {
            let b = self.branches.remove(0);
            let popped_child = self.first;
            self.first = b.child;
            proof {
                assert(self.branches@ =~= old(self).branches_spec().drop_first());
                if old(self).wf() {
                    lemma_wf_items(old(self).branches@);
                    assert(self.items_spec() =~= old(self).items_spec().remove(0));
                    lemma_sorted_remove(old(self).items_spec(), 0);
                    lemma_wf_items(self.branches@);
                }
            }
            Ok((b.item, popped_child))
        } else {
            Err(WouldUnderflow)
        }
    }

    /// Appends a (separator, child) pair at the right boundary; returns the
    /// separator's offset.
    pub fn push_right(&mut self, item: Item, child_id: usize) -> (r: Offset)
        requires
            old(self).branches_spec().len() < usize::MAX - 1,
        ensures
            r.idx() == old(self).branches_spec().len(),
            final(self).branches_spec() == old(self).branches_spec().push(
                Branch { item, child: child_id },
            ),
            final(self).first_child_spec() == old(self).first_child_spec(),
            final(self).parent_spec() == old(self).parent_spec(),
    {
        let o = Offset::at(self.branches.len());
        self.branches.push(Branch { item, child: child_id });
        o
    }

    /// Gives up the rightmost (separator, child) pair and its offset, unless
    /// that would leave the node below `min_items`.
    pub fn pop_right(&mut self, min_items: usize) -> (r: Result<
        (Offset, Item, usize),
        WouldUnderflow,
    >)
        ensures
            final(self).parent_spec() == old(self).parent_spec(),
            final(self).first_child_spec() == old(self).first_child_spec(),
            old(self).branches_spec().len() > min_items ==> (r matches Ok(p) && {
                &&& p.0.idx() == old(self).branches_spec().len() - 1
                &&& p.1 == old(self).items_spec().last()
                &&& p.2 == old(self).branches_spec().last().child
                &&& final(self).branches_spec() == old(self).branches_spec().drop_last()
            }),
            old(self).branches_spec().len() <= min_items ==> (r matches Err(_) && *final(self)
                == *old(self)),
            old(self).wf() ==> final(self).wf(),
    {
        if self.branches.len() > min_items {
            let o = Offset::at(self.branches.len() - 1);
            let b = self.branches.pop().unwrap();
            proof {
                assert(self.branches@ =~= old(self).branches_spec().drop_last());
                assert(old(self).items_spec().last() == old(self).branches_spec().last().item);
                if old(self).wf() {
                    lemma_wf_items(old(self).branches@);
                    assert(self.items_spec() =~= old(self).items_spec().drop_last());
                    assert(old(self).items_spec().drop_last() =~= old(self).items_spec().remove(
                        old(self).items_spec().len() - 1,
                    ));
                    lemma_sorted_remove(old(self).items_spec(), old(self).items_spec().len() - 1);
                    lemma_wf_items(self.branches@);
                }
            }
            Ok((o, b.item, b.child))
        } else {
            Err(WouldUnderflow)
        }
    }

    /// Splits this node in half: keeps the branches left of the median,
    /// promotes the median item out, and returns `(new_length, median,
    /// right_sibling)`. The median's right child becomes the right sibling's
    /// leading child, and the right sibling starts under the same parent.
    pub fn split(&mut self) -> (r: (usize, Item, InternalNode))
        requires
            old(self).branches_spec().len() >= 1,
        ensures
            r.0 == old(self).branches_spec().len() / 2,
            r.1 == crate::item::split_median(old(self).items_spec()),
            final(self).items_spec() == crate::item::split_left(old(self).items_spec()),
            r.2.items_spec() == crate::item::split_right(old(self).items_spec()),
            final(self).branches_spec() == old(self).branches_spec().subrange(
                0,
                old(self).branches_spec().len() as int / 2,
            ),
            r.2.branches_spec() == old(self).branches_spec().subrange(
                old(self).branches_spec().len() as int / 2 + 1,
                old(self).branches_spec().len() as int,
            ),
            final(self).first_child_spec() == old(self).first_child_spec(),
            r.2.first_child_spec() == old(self).branches_spec()[old(self).branches_spec().len() as int / 2].child,
            final(self).parent_spec() == old(self).parent_spec(),
            r.2.parent_spec() == old(self).parent_spec(),
            old(self).wf() ==> final(self).wf() && r.2.wf(),
    {
        let m = self.branches.len() / 2;
        let right_branches = self.branches.split_off(m + 1);
        let median_branch = self.branches.pop().unwrap();
        let right = InternalNode {
            parent: self.parent,
            first: median_branch.child,
            branches: right_branches,
        };
        proof {
            let s0 = old(self).branches_spec();
            assert(self.branches@ =~= s0.subrange(0, s0.len() as int / 2));
            assert(self.items_spec() =~= crate::item::split_left(old(self).items_spec()));
            assert(right.items_spec() =~= crate::item::split_right(old(self).items_spec()));
            if old(self).wf() {
                lemma_wf_items(old(self).branches@);
                lemma_sorted_subrange(old(self).items_spec(), 0, s0.len() as int / 2);
                lemma_sorted_subrange(
                    old(self).items_spec(),
                    s0.len() as int / 2 + 1,
                    s0.len() as int,
                );
                lemma_wf_items(self.branches@);
                lemma_wf_items(right.branches@);
                assert(self.wf());
                assert(right.wf());
            }
        }
        (self.branches.len(), median_branch.item, right)
    }

    /// Demotes the separator between the two adjacent children named by
    /// position, dropping the right one's slot: the left child survives and
    /// is expected to absorb the freed right child via `append` at the level
    /// below. Returns `(new_length, freed_child, surviving_child, separator,
    /// balance_of_self)`, the balance telling the caller whether this node
    /// itself now underflows, so rebalancing propagates upward.
    pub fn merge(
        &mut self,
        left_index: usize,
        right_index: usize,
        min_items: usize,
        max_items: usize,
    ) -> (r: (usize, usize, usize, Item, Balance))
        requires
            right_index == left_index + 1,
            right_index < old(self).child_count_spec(),
        ensures
            r.0 == old(self).branches_spec().len() - 1,
            r.1 == old(self).child_spec(right_index as int),
            r.2 == old(self).child_spec(left_index as int),
            r.3 == old(self).items_spec()[left_index as int],
            r.4 == balance_of(
                old(self).branches_spec().len() - 1,
                min_items as int,
                max_items as int,
            ),
            final(self).branches_spec() == old(self).branches_spec().remove(left_index as int),
            final(self).first_child_spec() == old(self).first_child_spec(),
            final(self).parent_spec() == old(self).parent_spec(),
            old(self).wf() ==> final(self).wf(),
    {
        let surviving = self.child_id(left_index);
        let b = self.branches.remove(left_index);
        proof {
            if old(self).wf() {
                lemma_wf_items(old(self).branches@);
                assert(self.items_spec() =~= old(self).items_spec().remove(left_index as int));
                lemma_sorted_remove(old(self).items_spec(), left_index as int);
                lemma_wf_items(self.branches@);
            }
        }
        let bal = classify(self.branches.len(), min_items, max_items);
        (self.branches.len(), b.child, surviving, b.item, bal)
    }

    /// Concatenates `self`, the separator demoted from the parent, and the
    /// absorbed right sibling: the sibling's leading child becomes the
    /// separator's right child and the branch lists join. Returns the offset
    /// at which the separator landed.
    pub fn append(&mut self, separator: Item, other: InternalNode) -> (r: Offset)
        requires
            old(self).branches_spec().len() + 1 + other.branches_spec().len() < usize::MAX,
        ensures
            r.idx() == old(self).branches_spec().len(),
            final(self).branches_spec() == old(self).branches_spec() + seq![
                Branch { item: separator, child: other.first_child_spec() },
            ] + other.branches_spec(),
            final(self).items_spec() == crate::item::appended(
                old(self).items_spec(),
                separator,
                other.items_spec(),
            ),
            final(self).first_child_spec() == old(self).first_child_spec(),
            final(self).parent_spec() == old(self).parent_spec(),
            old(self).wf() && other.wf() && crate::item::keys_between(
                old(self).items_spec(),
                None,
                Some(separator.key),
            ) && crate::item::keys_between(other.items_spec(), Some(separator.key), None) ==> final(self).wf(),
    {
        let ghost osnap = other;
        let mut other = other;
        let r = Offset::at(self.branches.len());
        self.branches.push(Branch { item: separator, child: other.first });
        self.branches.append(&mut other.branches);
        proof {
            assert(self.branches@ =~= old(self).branches_spec() + seq![
                Branch { item: separator, child: osnap.first_child_spec() },
            ] + osnap.branches_spec());
            assert(self.items_spec() =~= crate::item::appended(
                old(self).items_spec(),
                separator,
                osnap.items_spec(),
            ));
            if old(self).wf() && osnap.wf() && crate::item::keys_between(
                old(self).items_spec(),
                None,
                Some(separator.key),
            ) && crate::item::keys_between(osnap.items_spec(), Some(separator.key), None) {
                lemma_wf_items(old(self).branches@);
                lemma_wf_items(osnap.branches_spec());
                crate::item::lemma_sorted_append(
                    old(self).items_spec(),
                    separator,
                    osnap.items_spec(),
                );
                lemma_wf_items(self.branches@);
            }
        }
        r
    }

    /// A copy of this node's branch sequence, for building traversal
    /// sequences.
    pub(crate) fn branches_vec(&self) -> (r: Vec<Branch>)
        ensures
            r@ == self.branches_spec(),
    {
        let mut out: Vec<Branch> = Vec::new();
        let mut i: usize = 0;
        while i < self.branches.len()
            invariant
                i <= self.branches_spec().len(),
                out@ == self.branches_spec().subrange(0, i as int),
            decreases self.branches_spec().len() - i,
        {
            out.push(self.branches[i]);
            proof {
                assert(out@ =~= self.branches_spec().subrange(0, i + 1));
            }
            i = i + 1;
        }
        proof {
            assert(out@ =~= self.branches_spec());
        }
        out
    }

    /// The optional left and right bounding keys of the child at index `i`;
    /// absent at the open ends.
    pub fn separators(&self, i: usize) -> (r: (Option<u64>, Option<u64>))
        requires
            0 <= i < self.child_count_spec(),
        ensures
            r.0 == self.left_sep_key(i as int),
            r.1 == self.right_sep_key(i as int),
    {
        let left = if i == 0 {
            None
        } else {
            Some(self.branches[i - 1].item.key)
        };
        let right = if i < self.branches.len() {
            Some(self.branches[i].item.key)
        } else {
            None
        };
        (left, right)
    }

    /// Local consistency check: this node hangs under `parent`, its separator
    /// keys ascend strictly, and they all lie strictly between the given
    /// bounds where a bound exists.
    pub fn validate(&self, parent: Option<usize>, min: Option<u64>, max: Option<u64>) -> (r: bool)
        ensures
            r <==> {
                &&& self.parent_spec() == parent
                &&& self.wf()
                &&& crate::item::keys_between(self.items_spec(), min, max)
            },
    {
        let parent_ok = match (self.parent, parent) {
            (None, None) => true,
            (Some(a), Some(b)) => a == b,
            _ => false,
        };
        if !parent_ok {
            return false;
        }
        let mut i: usize = 0;
        while i < self.branches.len()
            invariant
                i <= self.branches_spec().len(),
                forall|p: int, q: int|
                    0 <= p < q < i ==> self.branches_spec()[p].item.key
                        < self.branches_spec()[q].item.key,
                forall|p: int|
                    0 <= p < i ==> {
                        &&& (min matches Some(l) ==> l < #[trigger] self.branches_spec()[
                            p].item.key)
                        &&& (max matches Some(h) ==> self.branches_spec()[p].item.key < h)
                    },
            decreases self.branches_spec().len() - i,
        {
            let ghost ii = i as int;
            let k = self.branches[i].item.key;
            if i > 0 && self.branches[i - 1].item.key >= k {
                proof {
                    assert(self.branches_spec()[ii - 1].item.key >= self.branches_spec()[
                        ii].item.key);
                    assert(!self.wf());
                }
                return false;
            }
            match min {
                Some(l) => {
                    if k <= l {
                        proof {
                            assert(self.items_spec()[ii].key == k);
                            assert(!crate::item::keys_between(self.items_spec(), min, max));
                        }
                        return false;
                    }
                },
                None => {},
            }
            match max {
                Some(h) => {
                    if k >= h {
                        proof {
                            assert(self.items_spec()[ii].key == k);
                            assert(!crate::item::keys_between(self.items_spec(), min, max));
                        }
                        return false;
                    }
                },
                None => {},
            }
            assert forall|p: int, q: int|
                0 <= p < q < i + 1 implies self.branches_spec()[p].item.key
                < self.branches_spec()[q].item.key by {
                if q == ii && p < q - 1 {
                    assert(self.branches_spec()[p].item.key < self.branches_spec()[
                        q - 1].item.key);
                }
            }
            i = i + 1;
        }
        proof {
            assert(self.wf());
            assert forall|p: int|
                0 <= p < self.items_spec().len() implies {
                &&& (min matches Some(l) ==> l < #[trigger] self.items_spec()[p].key)
                &&& (max matches Some(h) ==> self.items_spec()[p].key < h)
            } by {
                assert(self.items_spec()[p] == self.branches_spec()[p].item);
            }
        }
        true
    }
}

} // verus!
