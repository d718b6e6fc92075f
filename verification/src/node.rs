//! The node dispatch union: one uniform operation surface over leaf and
//! internal nodes, plus the traversal sequences over an internal node's
//! children.

use vstd::prelude::*;

verus! {

use crate::balance::Balance;
use crate::balance::WouldUnderflow;
use crate::balance::balance_of;
use crate::internal::Branch;
use crate::internal::InsertionError;
use crate::internal::InternalNode;
use crate::item::Item;
use crate::item::appended;
use crate::item::has_key;
use crate::item::keys_between;
use crate::item::split_left;
use crate::item::split_median;
use crate::item::split_right;
use crate::leaf::LeafNode;
use crate::offset::Offset;

/// What `pop_right` yields: the offset of the popped item, the item itself,
/// and — when popped from an internal node — the right child of the item.
pub type PoppedItem = (Offset, Item, Option<usize>);

/// A B-tree node: either an internal node or a leaf, presenting one uniform
/// operation surface to the external tree-walking driver.
///
/// Operations meaningless for one variant (child lookup or `merge` or
/// `replace` on a leaf, `append` across variants) are programmer errors: they
/// are excluded by precondition rather than signalled at run time.
pub enum Node {
    /// Internal node.
    Internal(InternalNode),
    /// Leaf node.
    Leaf(LeafNode),
}

/// The (left separator, child, right separator) triple around child `i` of an
/// internal node with leading child `first` and branches `bs`.
pub open spec fn triple_at(first: usize, bs: Seq<Branch>, i: int) -> (
    Option<Item>,
    usize,
    Option<Item>,
) {
    (
        if i == 0 {
            None
        } else {
            Some(bs[i - 1].item)
        },
        if i == 0 {
            first
        } else {
            bs[i - 1].child
        },
        if i < bs.len() {
            Some(bs[i].item)
        } else {
            None
        },
    )
}

impl Node {
    /// Whether this node is a leaf.
    pub open spec fn is_leaf(&self) -> bool {
        self matches Node::Leaf(_)
    }

    /// The items stored in this node: leaf data, or an internal node's
    /// separators.
    pub open spec fn items_seq(&self) -> Seq<Item> {
        match self {
            Node::Internal(n) => n.items_spec(),
            Node::Leaf(l) => l@,
        }
    }

    /// The arena address of this node's parent, absent at the root.
    pub open spec fn parent_spec(&self) -> Option<usize> {
        match self {
            Node::Internal(n) => n.parent_spec(),
            Node::Leaf(l) => l.parent_spec(),
        }
    }

    /// Well-formedness: the items are strictly ordered by key.
    pub open spec fn wf(&self) -> bool {
        match self {
            Node::Internal(n) => n.wf(),
            Node::Leaf(l) => l.wf(),
        }
    }

    /// The child addresses of this node, in order; empty for a leaf.
    pub open spec fn children_seq(&self) -> Seq<usize> {
        match self {
            Node::Internal(n) => Seq::new(
                (n.branches_spec().len() + 1) as nat,
                |i: int| n.child_spec(i),
            ),
            Node::Leaf(_) => Seq::empty(),
        }
    }

    /// The (left separator, child, right separator) triples of this node, in
    /// child order; empty for a leaf.
    pub open spec fn triples_seq(&self) -> Seq<(Option<Item>, usize, Option<Item>)> {
        match self {
            Node::Internal(n) => Seq::new(
                (n.branches_spec().len() + 1) as nat,
                |i: int| triple_at(n.first_child_spec(), n.branches_spec(), i),
            ),
            Node::Leaf(_) => Seq::empty(),
        }
    }

    /// Builds the smallest internal node: a median item binding a left and a
    /// right child.
    #[inline]
    pub fn binary(parent: Option<usize>, left_id: usize, median: Item, right_id: usize) -> (r: Node)
        ensures
            !r.is_leaf(),
            r.items_seq() == seq![median],
            r.children_seq() == seq![left_id, right_id],
            r.parent_spec() == parent,
            r.wf(),
    {
        let r = Node::Internal(InternalNode::binary(parent, left_id, median, right_id));
        proof {
            assert(r.children_seq() =~= seq![left_id, right_id]);
        }
        r
    }

    /// Builds a leaf node holding the single given item.
    #[inline]
    pub fn leaf(parent: Option<usize>, item: Item) -> (r: Node)
        ensures
            r.is_leaf(),
            r.items_seq() == seq![item],
            r.parent_spec() == parent,
            r.wf(),
    {
        Node::Leaf(LeafNode::new(parent, item))
    }

    /// Classifies this node's occupancy against the configured bounds.
    #[inline]
    pub fn balance(&self, min_items: usize, max_items: usize) -> (r: Balance)
        ensures
            r == balance_of(self.items_seq().len() as int, min_items as int, max_items as int),
    {
        match self {
            Node::Internal(node) => node.balance(min_items, max_items),
            Node::Leaf(leaf) => leaf.balance(min_items, max_items),
        }
    }

    /// Whether this node holds fewer items than the configured minimum.
    #[inline]
    pub fn is_underflowing(&self, min_items: usize) -> (r: bool)
        ensures
            r <==> self.items_seq().len() < min_items,
    {
        match self {
            Node::Internal(node) => node.is_underflowing(min_items),
            Node::Leaf(leaf) => leaf.is_underflowing(min_items),
        }
    }

    /// Whether this node holds more items than the configured maximum.
    #[inline]
    pub fn is_overflowing(&self, max_items: usize) -> (r: bool)
        ensures
            r <==> self.items_seq().len() > max_items,
    {
        match self {
            Node::Internal(node) => node.is_overflowing(max_items),
            Node::Leaf(leaf) => leaf.is_overflowing(max_items),
        }
    }

    /// The arena address of this node's parent, absent at the root.
    #[inline]
    pub fn parent(&self) -> (r: Option<usize>)
        ensures
            r == self.parent_spec(),
    {
        match self {
            Node::Internal(node) => node.parent(),
            Node::Leaf(leaf) => leaf.parent(),
        }
    }

    /// Re-homes this node under a new parent; nothing else changes.
    #[inline]
    pub fn set_parent(&mut self, p: Option<usize>)
        ensures
            final(self).parent_spec() == p,
            final(self).is_leaf() == old(self).is_leaf(),
            final(self).items_seq() == old(self).items_seq(),
            final(self).children_seq() == old(self).children_seq(),
            final(self).wf() == old(self).wf(),
    {
        match self {
            Node::Internal(node) => node.set_parent(p),
            Node::Leaf(leaf) => leaf.set_parent(p),
        }
        proof {
            assert(final(self).children_seq() =~= old(self).children_seq());
        }
    }

    /// The number of items stored in this node.
    #[inline]
    pub fn item_count(&self) -> (r: usize)
        ensures
            r == self.items_seq().len(),
    {
        match self {
            Node::Internal(node) => node.item_count(),
            Node::Leaf(leaf) => leaf.item_count(),
        }
    }

    /// The number of children: one more than the item count for an internal
    /// node, zero for a leaf.
    #[inline]
    pub fn child_count(&self) -> (r: usize)
        requires
            self.items_seq().len() < usize::MAX,
        ensures
            r == self.children_seq().len(),
    {
        match self {
            Node::Internal(node) => node.child_count(),
            Node::Leaf(_) => 0,
        }
    }

    /// Reverse child lookup: the least child index holding the address `id`;
    /// always `None` on a leaf.
    #[inline]
    pub fn child_index(&self, id: usize) -> (r: Option<usize>)
        ensures
            match r {
                Some(i) => {
                    &&& 0 <= i < self.children_seq().len()
                    &&& self.children_seq()[i as int] == id
                    &&& forall|j: int| 0 <= j < i ==> self.children_seq()[j] != id
                },
                None => forall|j: int| 0 <= j < self.children_seq().len() ==> self.children_seq()[j] != id,
            },
    {
        match self {
            Node::Internal(node) => node.child_index(id),
            Node::Leaf(_) => None,
        }
    }

    /// The child address at child index `index`; only internal nodes can be
    /// indexed.
    #[inline]
    pub fn child_id(&self, index: usize) -> (r: usize)
        requires
            !self.is_leaf(),
            0 <= index < self.children_seq().len(),
        ensures
            r == self.children_seq()[index as int],
    {
        match self {
            Node::Internal(node) => node.child_id(index),
            Node::Leaf(_) => {
                proof {
                    assert(false);
                }
                0
            },
        }
    }

    /// The child address at child index `index`, or `None` out of range or on
    /// a leaf.
    #[inline]
    pub fn child_id_opt(&self, index: usize) -> (r: Option<usize>)
        ensures
            index < self.children_seq().len() ==> r == Some(self.children_seq()[index as int]),
            index >= self.children_seq().len() ==> r is None,
    {
        match self {
            Node::Internal(node) => node.child_id_opt(index),
            Node::Leaf(_) => None,
        }
    }

    /// Exact-match lookup. A leaf answers `Ok` with the value or its absence;
    /// an internal node answers `Ok` on a separator match and otherwise `Err`
    /// with the address of the child to descend into, which is what lets the
    /// external driver search recursively.
    #[inline]
    pub fn get(&self, key: u64) -> (r: Result<Option<&u64>, usize>)
        requires
            self.wf(),
        ensures
            match r {
                Ok(opt) => match opt {
                    Some(v) => has_key(self.items_seq(), key) && forall|i: int|
                        0 <= i < self.items_seq().len() && self.items_seq()[i].key == key
                            ==> self.items_seq()[i].value == *v,
                    None => self.is_leaf() && !has_key(self.items_seq(), key),
                },
                Err(c) => !self.is_leaf() && !has_key(self.items_seq(), key) && exists|i: int|
                    {
                        &&& 0 <= i <= self.items_seq().len()
                        &&& forall|j: int| 0 <= j < i ==> self.items_seq()[j].key < key
                        &&& forall|j: int|
                            i <= j < self.items_seq().len() ==> key < self.items_seq()[j].key
                        &&& c == #[trigger] self.children_seq()[i]
                    },
            },
    {
        match self {
            Node::Leaf(leaf) => Ok(leaf.get(key)),
            Node::Internal(node) => {
                match node.get(key) {
                    Ok(v) => Ok(Some(v)),
                    Err(c) => {
                        proof {
                            let i0 = choose|i: int|
                                {
                                    &&& 0 <= i <= node.items_spec().len()
                                    &&& forall|j: int|
                                        0 <= j < i ==> node.items_spec()[j].key < key
                                    &&& forall|j: int|
                                        i <= j < node.items_spec().len() ==> key
                                            < node.items_spec()[j].key
                                    &&& c == #[trigger] node.child_spec(i)
                                };
                            assert(self.children_seq()[i0] == node.child_spec(i0));
                        }
                        Err(c)
                    },
                }
            },
        }
    }

    /// Mutable exact-match lookup: as [`Node::get`], with a reference through
    /// which the caller may rewrite the found value.
    #[inline]
    pub fn get_mut(&mut self, key: u64) -> (r: Result<Option<&mut u64>, usize>)
        requires
            old(self).wf(),
        ensures
            final(self).is_leaf() == old(self).is_leaf(),
            final(self).parent_spec() == old(self).parent_spec(),
            final(self).wf(),
            final(self).children_seq() == old(self).children_seq(),
            match r {
                Ok(opt) => match opt {
                    Some(v) => {
                        &&& has_key(old(self).items_seq(), key)
                        &&& final(self).items_seq().len() == old(self).items_seq().len()
                        &&& forall|i: int|
                            0 <= i < old(self).items_seq().len() && old(self).items_seq()[i].key
                                == key ==> old(self).items_seq()[i].value == *v
                        &&& forall|i: int|
                            0 <= i < old(self).items_seq().len() && old(self).items_seq()[i].key
                                == key ==> final(self).items_seq()[i] == (Item {
                                key,
                                value: *final(v),
                            })
                        &&& forall|i: int|
                            0 <= i < old(self).items_seq().len() && old(self).items_seq()[i].key
                                != key ==> final(self).items_seq()[i] == old(self).items_seq()[i]
                    },
                    None => old(self).is_leaf() && !has_key(old(self).items_seq(), key) && final(self).items_seq() == old(self).items_seq(),
                },
                Err(c) => {
                    &&& !old(self).is_leaf()
                    &&& !has_key(old(self).items_seq(), key)
                    &&& final(self).items_seq() == old(self).items_seq()
                    &&& exists|i: int|
                        {
                            &&& 0 <= i <= old(self).items_seq().len()
                            &&& forall|j: int| 0 <= j < i ==> old(self).items_seq()[j].key < key
                            &&& forall|j: int|
                                i <= j < old(self).items_seq().len() ==> key < old(self).items_seq()[j].key
                            &&& c == #[trigger] old(self).children_seq()[i]
                        }
                },
            },
    {
        match self {
            Node::Leaf(leaf) => Ok(leaf.get_mut(key)),
            Node::Internal(node) => {
                match node.get_mut(key) {
                    Ok(v) => Ok(Some(v)),
                    Err(c) => {
                        proof {
                            let n0 = old(self)->Internal_0;
                            let i0 = choose|i: int|
                                {
                                    &&& 0 <= i <= n0.items_spec().len()
                                    &&& forall|j: int| 0 <= j < i ==> n0.items_spec()[j].key < key
                                    &&& forall|j: int|
                                        i <= j < n0.items_spec().len() ==> key
                                            < n0.items_spec()[j].key
                                    &&& c == #[trigger] n0.child_spec(i)
                                };
                            assert(old(self).children_seq()[i0] == n0.child_spec(i0));
                        }
                        Err(c)
                    },
                }
            },
        }
    }

    /// Finds the offset of the item matching `key`. When the key matches no
    /// item, returns the raw insertion index and, on an internal node, the
    /// address of the child that may hold the key (`None` on a leaf).
    #[inline]
    pub fn offset_of(&self, key: u64) -> (r: Result<Offset, (usize, Option<usize>)>)
        requires
            self.wf(),
        ensures
            match r {
                Ok(o) => 0 <= o.idx() < self.items_seq().len() && self.items_seq()[o.idx()].key
                    == key,
                Err(p) => {
                    &&& p.0 <= self.items_seq().len()
                    &&& forall|j: int| 0 <= j < p.0 ==> self.items_seq()[j].key < key
                    &&& forall|j: int|
                        p.0 <= j < self.items_seq().len() ==> key < self.items_seq()[j].key
                    &&& self.is_leaf() ==> p.1 is None
                    &&& !self.is_leaf() ==> p.1 == Some(self.children_seq()[p.0 as int])
                },
            },
    {
        match self {
            Node::Internal(node) => {
                match node.offset_of(key) {
                    Ok(o) => Ok(o),
                    Err((index, child_id)) => Err((index, Some(child_id))),
                }
            },
            Node::Leaf(leaf) => {
                match leaf.offset_of(key) {
                    Ok(o) => Ok(o),
                    Err(index) => Err((index, None)),
                }
            },
        }
    }

    /// Positional access: the item at `offset`, or `None` when the offset is
    /// the sentinel or out of range.
    #[inline]
    pub fn item(&self, offset: Offset) -> (r: Option<&Item>)
        ensures
            match r {
                Some(it) => 0 <= offset.idx() < self.items_seq().len() && *it == self.items_seq()[
                    offset.idx()],
                None => !(0 <= offset.idx() < self.items_seq().len()),
            },
    {
        match self {
            Node::Internal(node) => node.item(offset),
            Node::Leaf(leaf) => leaf.item(offset),
        }
    }

    /// Mutable positional access: a reference through which the caller may
    /// rewrite the item at `offset`; child addresses are untouched.
    #[inline]
    pub fn item_mut(&mut self, offset: Offset) -> (r: Option<&mut Item>)
        ensures
            final(self).is_leaf() == old(self).is_leaf(),
            final(self).parent_spec() == old(self).parent_spec(),
            final(self).children_seq() == old(self).children_seq(),
            match r {
                Some(it) => {
                    &&& 0 <= offset.idx() < old(self).items_seq().len()
                    &&& *it == old(self).items_seq()[offset.idx()]
                    &&& final(self).items_seq() == old(self).items_seq().update(
                        offset.idx(),
                        *final(it),
                    )
                },
                None => !(0 <= offset.idx() < old(self).items_seq().len()) && final(self).items_seq()
                    == old(self).items_seq(),
            },
    {
        match self {
            Node::Internal(node) => node.item_mut(offset),
            Node::Leaf(leaf) => leaf.item_mut(offset),
        }
    }

    /// Inserts by key, assuming spare capacity. A leaf inserts in order or
    /// overwrites in place; an internal node only overwrites an existing
    /// separator's value and rejects an absent key, since new separators at
    /// this level arise only from child splits driven externally.
    #[inline]
    pub fn insert_by_key(&mut self, key: u64, value: u64) -> (r: Result<
        (Offset, Option<u64>),
        InsertionError,
    >)
        requires
            old(self).wf(),
            old(self).items_seq().len() < usize::MAX - 1,
        ensures
            final(self).is_leaf() == old(self).is_leaf(),
            final(self).parent_spec() == old(self).parent_spec(),
            final(self).children_seq() == old(self).children_seq(),
            final(self).wf(),
            has_key(old(self).items_seq(), key) ==> (r matches Ok(p) && {
                &&& 0 <= p.0.idx() < old(self).items_seq().len()
                &&& old(self).items_seq()[p.0.idx()].key == key
                &&& p.1 == Some(old(self).items_seq()[p.0.idx()].value)
                &&& final(self).items_seq() == old(self).items_seq().update(
                    p.0.idx(),
                    Item { key, value },
                )
            }),
            !has_key(old(self).items_seq(), key) && old(self).is_leaf() ==> (r matches Ok(p) && {
                &&& 0 <= p.0.idx() <= old(self).items_seq().len()
                &&& forall|j: int| 0 <= j < p.0.idx() ==> old(self).items_seq()[j].key < key
                &&& forall|j: int|
                    p.0.idx() <= j < old(self).items_seq().len() ==> key < old(self).items_seq()[j].key
                &&& p.1 == None::<u64>
                &&& final(self).items_seq() == old(self).items_seq().insert(
                    p.0.idx(),
                    Item { key, value },
                )
            }),
            !has_key(old(self).items_seq(), key) && !old(self).is_leaf() ==> r == Err::<
                (Offset, Option<u64>),
                _,
            >(InsertionError { key, value }) && final(self).items_seq() == old(self).items_seq(),
    {
        match self {
            Node::Internal(node) => {
                match node.insert_by_key(key, value) {
                    Ok((offset, previous)) => {
                        proof {
                            assert(final(self).children_seq() =~= old(self).children_seq());
                        }
                        Ok((offset, Some(previous)))
                    },
                    Err(e) => Err(e),
                }
            },
            Node::Leaf(leaf) => {
                let (offset, previous) = leaf.insert_by_key(key, value);
                Ok((offset, previous))
            },
        }
    }

    /// Splits the node in half: keeps the items left of the median, promotes
    /// the median out, and returns `(new_length, median, right_sibling)` of
    /// the same variant. An internal node hands the children right of the
    /// median over to the sibling.
    #[inline]
    pub fn split(&mut self) -> (r: (usize, Item, Node))
        requires
            old(self).items_seq().len() >= 1,
        ensures
            r.0 == old(self).items_seq().len() / 2,
            r.1 == split_median(old(self).items_seq()),
            final(self).items_seq() == split_left(old(self).items_seq()),
            r.2.items_seq() == split_right(old(self).items_seq()),
            final(self).is_leaf() == old(self).is_leaf(),
            r.2.is_leaf() == old(self).is_leaf(),
            final(self).parent_spec() == old(self).parent_spec(),
            r.2.parent_spec() == old(self).parent_spec(),
            !old(self).is_leaf() ==> final(self).children_seq() == old(self).children_seq().subrange(
                0,
                old(self).items_seq().len() as int / 2 + 1,
            ),
            !old(self).is_leaf() ==> r.2.children_seq() == old(self).children_seq().subrange(
                old(self).items_seq().len() as int / 2 + 1,
                old(self).children_seq().len() as int,
            ),
            old(self).wf() ==> final(self).wf() && r.2.wf(),
    {
        match self {
            Node::Internal(node) => {
                let (len, item, right_node) = node.split();
                let r = (len, item, Node::Internal(right_node));
                proof {
                    let m = old(self).items_seq().len() as int / 2;
                    assert(final(self).children_seq() =~= old(self).children_seq().subrange(
                        0,
                        m + 1,
                    ));
                    assert(r.2.children_seq() =~= old(self).children_seq().subrange(
                        m + 1,
                        old(self).children_seq().len() as int,
                    ));
                }
                r
            },
            Node::Leaf(leaf) => {
                let (len, item, right_leaf) = leaf.split();
                (len, item, Node::Leaf(right_leaf))
            },
        }
    }

    /// Demotes the separator between the two adjacent children named by
    /// position, dropping the right child's slot; only internal nodes can
    /// merge children. Returns `(new_length, freed_child, surviving_child,
    /// separator, balance_of_self)`: the balance reports whether this node
    /// itself now underflows, so the obligation propagates upward without a
    /// second classification call.
    #[inline]
    pub fn merge(
        &mut self,
        left_index: usize,
        right_index: usize,
        min_items: usize,
        max_items: usize,
    ) -> (r: (usize, usize, usize, Item, Balance))
        requires
            !old(self).is_leaf(),
            right_index == left_index + 1,
            right_index < old(self).children_seq().len(),
        ensures
            r.0 == old(self).items_seq().len() - 1,
            r.1 == old(self).children_seq()[right_index as int],
            r.2 == old(self).children_seq()[left_index as int],
            r.3 == old(self).items_seq()[left_index as int],
            r.4 == balance_of(old(self).items_seq().len() - 1, min_items as int, max_items as int),
            final(self).items_seq() == old(self).items_seq().remove(left_index as int),
            final(self).children_seq() == old(self).children_seq().remove(right_index as int),
            final(self).is_leaf() == old(self).is_leaf(),
            final(self).parent_spec() == old(self).parent_spec(),
            old(self).wf() ==> final(self).wf(),
    {
        match self {
            Node::Internal(node) => {
                let r = node.merge(left_index, right_index, min_items, max_items);
                proof {
                    assert(final(self).items_seq() =~= old(self).items_seq().remove(
                        left_index as int,
                    ));
                    assert(final(self).children_seq() =~= old(self).children_seq().remove(
                        right_index as int,
                    ));
                }
                r
            },
            Node::Leaf(_) => {
                proof {
                    assert(false);
                }
                (0, 0, 0, Item { key: 0, value: 0 }, Balance::Balanced)
            },
        }
    }

    /// Concatenates `self`, the separator demoted from the parent, and the
    /// absorbed sibling of the same variant; returns the offset at which the
    /// separator landed. An internal node also takes over the sibling's
    /// children.
    #[inline]
    pub fn append(&mut self, separator: Item, other: Node) -> (r: Offset)
        requires
            old(self).is_leaf() == other.is_leaf(),
            old(self).items_seq().len() + 1 + other.items_seq().len() < usize::MAX,
        ensures
            r.idx() == old(self).items_seq().len(),
            final(self).items_seq() == appended(
                old(self).items_seq(),
                separator,
                other.items_seq(),
            ),
            final(self).children_seq() == old(self).children_seq() + other.children_seq(),
            final(self).is_leaf() == old(self).is_leaf(),
            final(self).parent_spec() == old(self).parent_spec(),
            old(self).wf() && other.wf() && keys_between(
                old(self).items_seq(),
                None,
                Some(separator.key),
            ) && keys_between(other.items_seq(), Some(separator.key), None) ==> final(self).wf(),
    {
        let ghost osnap = other;
        match (self, other) {
            (Node::Internal(node), Node::Internal(other_node)) => {
                let r = node.append(separator, other_node);
                proof {
                    assert(final(self).children_seq() =~= old(self).children_seq()
                        + osnap.children_seq());
                }
                r
            },
            (Node::Leaf(leaf), Node::Leaf(other_leaf)) => {
                let r = leaf.append(separator, other_leaf);
                proof {
                    assert(final(self).children_seq() =~= old(self).children_seq()
                        + osnap.children_seq());
                }
                r
            },
            _ => {
                proof {
                    assert(false);
                }
                Offset::before()
            },
        }
    }

    /// Prepends an item at the left boundary; an internal node also takes the
    /// incoming child as its new leading child, so the child argument must be
    /// present exactly when the node is internal.
    #[inline]
    pub fn push_left(&mut self, item: Item, opt_child_id: Option<usize>)
        requires
            old(self).is_leaf() <==> opt_child_id is None,
            old(self).items_seq().len() < usize::MAX - 1,
        ensures
            final(self).items_seq() == seq![item] + old(self).items_seq(),
            (opt_child_id matches Some(c) ==> final(self).children_seq() == seq![c] + old(self).children_seq()),
            final(self).is_leaf() == old(self).is_leaf(),
            final(self).parent_spec() == old(self).parent_spec(),
    {
        match self {
            Node::Internal(node) => {
                let child_id = match opt_child_id {
                    Some(c) => c,
                    None => {
                        proof {
                            assert(false);
                        }
                        0
                    },
                };
                node.push_left(item, child_id);
                proof {
                    assert(final(self).items_seq() =~= seq![item] + old(self).items_seq());
                    assert(final(self).children_seq() =~= seq![child_id] + old(self).children_seq());
                }
            },
            Node::Leaf(leaf) => {
                leaf.push_left(item);
            },
        }
    }

    /// Gives up the leftmost item — and, on an internal node, the leading
    /// child — unless that would leave the node below `min_items`.
    #[inline]
    pub fn pop_left(&mut self, min_items: usize) -> (r: Result<
        (Item, Option<usize>),
        WouldUnderflow,
    >)
        ensures
            final(self).is_leaf() == old(self).is_leaf(),
            final(self).parent_spec() == old(self).parent_spec(),
            old(self).items_seq().len() > min_items ==> (r matches Ok(p) && {
                &&& p.0 == old(self).items_seq()[0]
                &&& final(self).items_seq() == old(self).items_seq().drop_first()
                &&& old(self).is_leaf() ==> p.1 is None
                &&& !old(self).is_leaf() ==> p.1 == Some(old(self).children_seq()[0]) && final(self).children_seq() == old(self).children_seq().drop_first()
            }),
            old(self).items_seq().len() <= min_items ==> (r matches Err(_) && final(self).items_seq() == old(self).items_seq() && final(self).children_seq() == old(self).children_seq()),
            old(self).wf() ==> final(self).wf(),
    {
        match self {
            Node::Internal(node) => {
                match node.pop_left(min_items) {
                    Ok((item, child_id)) => {
                        proof {
                            assert(final(self).children_seq() =~= old(self).children_seq().drop_first());
                        }
                        Ok((item, Some(child_id)))
                    },
                    Err(e) => {
                        proof {
                            assert(final(self).children_seq() =~= old(self).children_seq());
                        }
                        Err(e)
                    },
                }
            },
            Node::Leaf(leaf) => {
                match leaf.pop_left(min_items) {
                    Ok(item) => Ok((item, None)),
                    Err(e) => Err(e),
                }
            },
        }
    }

    /// Appends an item at the right boundary; an internal node also takes the
    /// incoming child as the item's right child, so the child argument must be
    /// present exactly when the node is internal. Returns the item's offset.
    #[inline]
    pub fn push_right(&mut self, item: Item, opt_child_id: Option<usize>) -> (r: Offset)
        requires
            old(self).is_leaf() <==> opt_child_id is None,
            old(self).items_seq().len() < usize::MAX - 1,
        ensures
            r.idx() == old(self).items_seq().len(),
            final(self).items_seq() == old(self).items_seq().push(item),
            (opt_child_id matches Some(c) ==> final(self).children_seq() == old(self).children_seq().push(c)),
            final(self).is_leaf() == old(self).is_leaf(),
            final(self).parent_spec() == old(self).parent_spec(),
    {
        match self {
            Node::Internal(node) => {
                let child_id = match opt_child_id {
                    Some(c) => c,
                    None => {
                        proof {
                            assert(false);
                        }
                        0
                    },
                };
                let r = node.push_right(item, child_id);
                proof {
                    assert(final(self).items_seq() =~= old(self).items_seq().push(item));
                    assert(final(self).children_seq() =~= old(self).children_seq().push(child_id));
                }
                r
            },
            Node::Leaf(leaf) => leaf.push_right(item),
        }
    }

    /// Gives up the rightmost item, its offset and — on an internal node —
    /// its right child, unless that would leave the node below `min_items`.
    #[inline]
    pub fn pop_right(&mut self, min_items: usize) -> (r: Result<PoppedItem, WouldUnderflow>)
        ensures
            final(self).is_leaf() == old(self).is_leaf(),
            final(self).parent_spec() == old(self).parent_spec(),
            old(self).items_seq().len() > min_items ==> (r matches Ok(p) && {
                &&& p.0.idx() == old(self).items_seq().len() - 1
                &&& p.1 == old(self).items_seq().last()
                &&& final(self).items_seq() == old(self).items_seq().drop_last()
                &&& old(self).is_leaf() ==> p.2 is None
                &&& !old(self).is_leaf() ==> p.2 == Some(old(self).children_seq().last()) && final(self).children_seq() == old(self).children_seq().drop_last()
            }),
            old(self).items_seq().len() <= min_items ==> (r matches Err(_) && final(self).items_seq() == old(self).items_seq() && final(self).children_seq() == old(self).children_seq()),
            old(self).wf() ==> final(self).wf(),
    {
        match self {
            Node::Internal(node) => {
                match node.pop_right(min_items) {
                    Ok((offset, item, child_id)) => {
                        proof {
                            assert(final(self).children_seq() =~= old(self).children_seq().drop_last());
                        }
                        Ok((offset, item, Some(child_id)))
                    },
                    Err(e) => {
                        proof {
                            assert(final(self).children_seq() =~= old(self).children_seq());
                        }
                        Err(e)
                    },
                }
            },
            Node::Leaf(leaf) => {
                match leaf.pop_right(min_items) {
                    Ok((offset, item)) => Ok((offset, item, None)),
                    Err(e) => Err(e),
                }
            },
        }
    }

    /// On a leaf, removes and returns the item at `offset`. On an internal
    /// node nothing is removed: the answer is the address of the left child
    /// of the would-be item — the in-order predecessor subtree — which the
    /// caller descends into until a leaf answers with an actual item. Out of
    /// range, `None`.
    #[inline]
    pub fn leaf_remove(&mut self, offset: Offset) -> (r: Option<Result<Item, usize>>)
        requires
            offset.idx() >= 0 || old(self).items_seq().len() == 0,
        ensures
            final(self).is_leaf() == old(self).is_leaf(),
            final(self).parent_spec() == old(self).parent_spec(),
            final(self).children_seq() == old(self).children_seq(),
            old(self).wf() ==> final(self).wf(),
            !(0 <= offset.idx() < old(self).items_seq().len()) ==> r is None && final(self).items_seq() == old(self).items_seq(),
            0 <= offset.idx() < old(self).items_seq().len() && !old(self).is_leaf() ==> r == Some(
                Err::<Item, usize>(old(self).children_seq()[offset.idx()]),
            ) && final(self).items_seq() == old(self).items_seq(),
            0 <= offset.idx() < old(self).items_seq().len() && old(self).is_leaf() ==> (r matches
                Some(q) && q matches Ok(it) && it == old(self).items_seq()[offset.idx()] && final(self).items_seq() == old(self).items_seq().remove(offset.idx())),
    {
        match self {
            Node::Internal(node) => {
                match offset.value() {
                    Some(i) => {
                        if i < node.item_count() {
                            Some(Err(node.child_id(i)))
                        } else {
                            None
                        }
                    },
                    None => None,
                }
            },
            Node::Leaf(leaf) => {
                match offset.value() {
                    Some(i) => {
                        if i < leaf.item_count() {
                            Some(Ok(leaf.remove(offset)))
                        } else {
                            None
                        }
                    },
                    None => None,
                }
            },
        }
    }

    /// On a leaf, pops and returns the maximum item; on an internal node,
    /// answers the address of its final child so the caller can recurse to
    /// the true rightmost leaf — used to source a replacement when an
    /// internal separator is deleted.
    #[inline]
    pub fn remove_rightmost_leaf(&mut self) -> (r: Result<Item, usize>)
        requires
            old(self).is_leaf() ==> old(self).items_seq().len() >= 1,
            old(self).items_seq().len() < usize::MAX,
        ensures
            final(self).is_leaf() == old(self).is_leaf(),
            final(self).parent_spec() == old(self).parent_spec(),
            final(self).children_seq() == old(self).children_seq(),
            old(self).wf() ==> final(self).wf(),
            !old(self).is_leaf() ==> r == Err::<Item, usize>(old(self).children_seq().last())
                && final(self).items_seq() == old(self).items_seq(),
            old(self).is_leaf() ==> (r matches Ok(it) && it == old(self).items_seq().last()
                && final(self).items_seq() == old(self).items_seq().drop_last()),
    {
        match self {
            Node::Internal(node) => {
                let child_index = node.child_count() - 1;
                let child_id = node.child_id(child_index);
                proof {
                    assert(old(self).children_seq().last() == old(self).children_seq()[old(self).children_seq().len() - 1]);
                }
                Err(child_id)
            },
            Node::Leaf(leaf) => Ok(leaf.remove_last()),
        }
    }

    /// Positional insert of an item, assuming spare capacity; an internal
    /// node also takes the item's right child, so the child argument must be
    /// present exactly when the node is internal. Keeps the node well-formed
    /// whenever the item's key fits strictly between its neighbours.
    #[inline]
    pub fn insert(&mut self, offset: Offset, item: Item, opt_right_child_id: Option<usize>)
        requires
            old(self).is_leaf() <==> opt_right_child_id is None,
            0 <= offset.idx() <= old(self).items_seq().len(),
            old(self).items_seq().len() < usize::MAX - 1,
        ensures
            final(self).items_seq() == old(self).items_seq().insert(offset.idx(), item),
            (opt_right_child_id matches Some(c) ==> final(self).children_seq() == old(self).children_seq().insert(offset.idx() + 1, c)),
            final(self).is_leaf() == old(self).is_leaf(),
            final(self).parent_spec() == old(self).parent_spec(),
            old(self).wf() && (offset.idx() == 0 || old(self).items_seq()[offset.idx() - 1].key
                < item.key) && (offset.idx() == old(self).items_seq().len()
                || item.key < old(self).items_seq()[offset.idx()].key) ==> final(self).wf(),
    {
        match self {
            Node::Internal(node) => {
                let child_id = match opt_right_child_id {
                    Some(c) => c,
                    None => {
                        proof {
                            assert(false);
                        }
                        0
                    },
                };
                node.insert(offset, item, child_id);
                proof {
                    assert(final(self).items_seq() =~= old(self).items_seq().insert(
                        offset.idx(),
                        item,
                    ));
                    assert(final(self).children_seq() =~= old(self).children_seq().insert(
                        offset.idx() + 1,
                        child_id,
                    ));
                }
            },
            Node::Leaf(leaf) => {
                leaf.insert(offset, item);
            },
        }
    }

    /// Swaps the separator item at `offset` for `item`, returning the old
    /// one; only internal nodes support replacement. Child addresses are
    /// untouched.
    #[inline]
    pub fn replace(&mut self, offset: Offset, item: Item) -> (r: Item)
        requires
            !old(self).is_leaf(),
            0 <= offset.idx() < old(self).items_seq().len(),
        ensures
            r == old(self).items_seq()[offset.idx()],
            final(self).items_seq() == old(self).items_seq().update(offset.idx(), item),
            final(self).children_seq() == old(self).children_seq(),
            final(self).is_leaf() == old(self).is_leaf(),
            final(self).parent_spec() == old(self).parent_spec(),
            old(self).wf() && (offset.idx() == 0 || old(self).items_seq()[offset.idx() - 1].key
                < item.key) && (offset.idx() == old(self).items_seq().len() - 1
                || item.key < old(self).items_seq()[offset.idx() + 1].key) ==> final(self).wf(),
    {
        match self {
            Node::Internal(node) => {
                let r = node.replace(offset, item);
                proof {
                    assert(final(self).items_seq() =~= old(self).items_seq().update(
                        offset.idx(),
                        item,
                    ));
                    assert(final(self).children_seq() =~= old(self).children_seq());
                }
                r
            },
            Node::Leaf(_) => {
                proof {
                    assert(false);
                }
                item
            },
        }
    }

    /// The optional left and right bounding keys of the child at index `i`;
    /// absent at the open ends, and both absent on a leaf.
    #[inline]
    pub fn separators(&self, i: usize) -> (r: (Option<u64>, Option<u64>))
        requires
            !self.is_leaf() ==> i < self.children_seq().len(),
        ensures
            self.is_leaf() ==> r == (None::<u64>, None::<u64>),
            !self.is_leaf() ==> {
                &&& r.0 == (if i == 0 {
                    None::<u64>
                } else {
                    Some(self.items_seq()[i - 1].key)
                })
                &&& r.1 == (if i < self.items_seq().len() {
                    Some(self.items_seq()[i as int].key)
                } else {
                    None::<u64>
                })
            },
    {
        match self {
            Node::Leaf(_) => (None, None),
            Node::Internal(node) => node.separators(i),
        }
    }

    /// A fresh, restartable traversal sequence over this node's child
    /// addresses; empty for a leaf.
    #[inline]
    pub fn children(&self) -> (r: Children)
        ensures
            r.remaining() == self.children_seq(),
    {
        match self {
            Node::Leaf(_) => Children::Leaf,
            Node::Internal(node) => {
                let branches = node.branches_vec();
                let mut rest: Vec<usize> = Vec::new();
                let mut i: usize = 0;
                while i < branches.len()
                    invariant
                        i <= branches@.len(),
                        rest@.len() == i,
                        forall|k: int| 0 <= k < i ==> rest@[k] == branches@[k].child,
                    decreases branches@.len() - i,
                {
                    rest.push(branches[i].child);
                    i = i + 1;
                }
                let r = Children::Internal { pending_first: Some(node.child_id(0)), rest, pos: 0 };
                proof {
                    assert(r.remaining() =~= self.children_seq());
                }
                r
            },
        }
    }

    /// A fresh, restartable traversal sequence over this node's child
    /// addresses paired with their optional bounding separator items; empty
    /// for a leaf.
    #[inline]
    pub fn children_with_separators(&self) -> (r: ChildrenWithSeparators)
        ensures
            r.remaining() == self.triples_seq(),
    {
        match self {
            Node::Leaf(_) => ChildrenWithSeparators::Leaf,
            Node::Internal(node) => {
                let r = ChildrenWithSeparators::Internal {
                    first_pending: true,
                    first_child: node.child_id(0),
                    branches: node.branches_vec(),
                    pos: 0,
                };
                proof {
                    assert(r.remaining() =~= self.triples_seq());
                }
                r
            },
        }
    }

    /// Local consistency check: this node hangs under `parent`, its keys
    /// ascend strictly, and they all lie strictly between the given bounds
    /// where a bound exists.
    pub fn validate(&self, parent: Option<usize>, min: Option<u64>, max: Option<u64>) -> (r: bool)
        ensures
            r <==> {
                &&& self.parent_spec() == parent
                &&& self.wf()
                &&& keys_between(self.items_seq(), min, max)
            },
    {
        match self {
            Node::Leaf(leaf) => leaf.validate(parent, min, max),
            Node::Internal(node) => node.validate(parent, min, max),
        }
    }
}

/// A lazy, finite, restartable sequence over an internal node's child
/// addresses, re-derived fresh from the node on each `children()` call.
pub enum Children {
    /// A leaf has no children.
    Leaf,
    /// Cursor state over an internal node's children: the still-pending
    /// leading child, the branch children, and how many of the latter have
    /// been handed out.
    Internal { pending_first: Option<usize>, rest: Vec<usize>, pos: usize },
}

impl Children {
    /// The child addresses not yet handed out, in order.
    pub open spec fn remaining(&self) -> Seq<usize> {
        match self {
            Children::Leaf => Seq::empty(),
            Children::Internal { pending_first, rest, pos } => {
                let tail = if *pos <= rest@.len() {
                    rest@.subrange(*pos as int, rest@.len() as int)
                } else {
                    Seq::empty()
                };
                match pending_first {
                    Some(c) => seq![*c] + tail,
                    None => tail,
                }
            },
        }
    }

    /// Hands out the next child address, left to right.
    pub fn next(&mut self) -> (r: Option<usize>)
        ensures
            old(self).remaining().len() == 0 ==> r is None && final(self).remaining() == old(self).remaining(),
            old(self).remaining().len() > 0 ==> r == Some(old(self).remaining()[0]) && final(self).remaining() == old(self).remaining().drop_first(),
    {
        match self {
            Children::Leaf => None,
            Children::Internal { pending_first, rest, pos } => {
                match *pending_first {
                    Some(child) => {
                        *pending_first = None;
                        proof {
                            assert(final(self).remaining() =~= old(self).remaining().drop_first());
                        }
                        Some(child)
                    },
                    None => {
                        if *pos < rest.len() {
                            let child = rest[*pos];
                            *pos = *pos + 1;
                            proof {
                                assert(final(self).remaining() =~= old(self).remaining().drop_first());
                            }
                            Some(child)
                        } else {
                            None
                        }
                    },
                }
            },
        }
    }
}

/// A lazy, finite, restartable sequence over an internal node's child
/// addresses, each paired with its optional left and right bounding separator
/// items; re-derived fresh from the node on each `children_with_separators()`
/// call.
pub enum ChildrenWithSeparators {
    /// A leaf has no children.
    Leaf,
    /// Cursor state over an internal node: whether the leading child is still
    /// pending, the leading child, the branch sequence, and how many branches
    /// have been handed out.
    Internal { first_pending: bool, first_child: usize, branches: Vec<Branch>, pos: usize },
}

impl ChildrenWithSeparators {
    /// The (left separator, child, right separator) triples not yet handed
    /// out, in child order.
    pub open spec fn remaining(&self) -> Seq<(Option<Item>, usize, Option<Item>)> {
        match self {
            ChildrenWithSeparators::Leaf => Seq::empty(),
            ChildrenWithSeparators::Internal { first_pending, first_child, branches, pos } => {
                if *first_pending {
                    Seq::new(
                        (branches@.len() + 1) as nat,
                        |k: int| triple_at(*first_child, branches@, k),
                    )
                } else if *pos <= branches@.len() {
                    Seq::new(
                        (branches@.len() - *pos) as nat,
                        |k: int| triple_at(*first_child, branches@, *pos + 1 + k),
                    )
                } else {
                    Seq::empty()
                }
            },
        }
    }

    /// Hands out the next (left separator, child, right separator) triple,
    /// left to right.
    pub fn next(&mut self) -> (r: Option<(Option<Item>, usize, Option<Item>)>)
        ensures
            old(self).remaining().len() == 0 ==> r is None && final(self).remaining() == old(self).remaining(),
            old(self).remaining().len() > 0 ==> r == Some(old(self).remaining()[0]) && final(self).remaining() == old(self).remaining().drop_first(),
    {
        match self {
            ChildrenWithSeparators::Leaf => None,
            ChildrenWithSeparators::Internal { first_pending, first_child, branches, pos } => {
                if *first_pending {
                    *first_pending = false;
                    *pos = 0;
                    let c = *first_child;
                    let right = if branches.len() > 0 {
                        Some(branches[0].item)
                    } else {
                        None
                    };
                    proof {
                        assert(final(self).remaining() =~= old(self).remaining().drop_first());
                    }
                    Some((None, c, right))
                } else if *pos < branches.len() {
                    let i = *pos;
                    let left = Some(branches[i].item);
                    let child = branches[i].child;
                    let right = if i + 1 < branches.len() {
                        Some(branches[i + 1].item)
                    } else {
                        None
                    };
                    *pos = i + 1;
                    proof {
                        assert(final(self).remaining() =~= old(self).remaining().drop_first());
                    }
                    Some((left, child, right))
                } else {
                    None
                }
            },
        }
    }
}

/// Separator soundness of the traversal triples: in a well-formed internal
/// node, the triple around child `i` carries exactly the node's child address
/// and its bounding separator items, and the left bound's key is strictly
/// below the right bound's key wherever both bounds exist.
pub proof fn lemma_triples_separators(node: Node, i: int)
    requires
        !node.is_leaf(),
        node.wf(),
        0 <= i < node.children_seq().len(),
    ensures
        node.triples_seq().len() == node.children_seq().len(),
        node.triples_seq()[i].1 == node.children_seq()[i],
        node.triples_seq()[i].0 == (if i == 0 {
            None::<Item>
        } else {
            Some(node.items_seq()[i - 1])
        }),
        node.triples_seq()[i].2 == (if i < node.items_seq().len() {
            Some(node.items_seq()[i])
        } else {
            None::<Item>
        }),
        node.triples_seq()[i].0 matches Some(l) ==> node.triples_seq()[i].2 matches Some(rt)
            ==> l.key < rt.key,
{
    match node {
        Node::Internal(n) => {
            assert(node.triples_seq()[i] == triple_at(n.first_child_spec(), n.branches_spec(), i));
            if i > 0 {
                assert(n.items_spec()[i - 1] == n.branches_spec()[i - 1].item);
            }
            if i < n.branches_spec().len() {
                assert(n.items_spec()[i] == n.branches_spec()[i].item);
            }
        },
        Node::Leaf(_) => {},
    }
}

} // verus!
