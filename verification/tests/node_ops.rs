use btree_node::balance::Balance;
use btree_node::internal::Branch;
use btree_node::internal::InsertionError;
use btree_node::item::Keyed;
use btree_node::item::Item;
use btree_node::node::Node;
use btree_node::offset::Offset;

fn leaf_with(keys: &[(u64, u64)]) -> Node {
    let mut n = Node::leaf(None, Item::new(keys[0].0, keys[0].1));
    for &(k, v) in &keys[1..] {
        n.insert_by_key(k, v).unwrap();
    }
    n
}

fn keys_of(n: &Node) -> Vec<u64> {
    let mut out = Vec::new();
    for i in 0..n.item_count() {
        out.push(n.item(Offset::from(i)).unwrap().key);
    }
    out
}

#[test]
fn leaf_split_scenario() {
    // A leaf configured with max_items = 3 takes 10, 20, 30 and stays
    // balanced; 40 drives it to overflow; the split yields {10, 20} and {40}
    // with median 30 promoted.
    let mut n = leaf_with(&[(10, 1), (20, 2), (30, 3)]);
    assert_eq!(n.balance(1, 3), Balance::Balanced);
    n.insert_by_key(40, 4).unwrap();
    assert_eq!(n.balance(1, 3), Balance::Overflow);
    assert!(n.is_overflowing(3));
    let (len, median, right) = n.split();
    assert_eq!(len, 2);
    assert_eq!(median, Item::new(30, 3));
    assert_eq!(keys_of(&n), vec![10, 20]);
    assert_eq!(keys_of(&right), vec![40]);
    assert_eq!(n.balance(1, 3), Balance::Balanced);
}

#[test]
fn merge_scenario() {
    // An internal node over leaf children [1,2] (address 7) and [4,5]
    // (address 8), separated by key 3. Merging children 0 and 1 demotes the
    // separator, frees address 8, keeps address 7, and leaves the parent
    // empty of items: Underflow(true) under min_items = 1.
    let mut left = Node::leaf(Some(9), Item::new(1, 10));
    left.insert_by_key(2, 20).unwrap();
    let mut right = Node::leaf(Some(9), Item::new(4, 40));
    right.insert_by_key(5, 50).unwrap();
    let mut parent = Node::binary(None, 7, Item::new(3, 30), 8);

    let (new_len, freed, surviving, separator, parent_balance) = parent.merge(0, 1, 1, 3);
    assert_eq!(new_len, 0);
    assert_eq!(freed, 8);
    assert_eq!(surviving, 7);
    assert_eq!(separator, Item::new(3, 30));
    assert_eq!(parent_balance, Balance::Underflow(true));
    assert_eq!(parent.item_count(), 0);
    assert_eq!(parent.child_count(), 1);

    // The surviving child absorbs the separator and the freed sibling.
    let at = left.append(separator, right);
    assert_eq!(at.value(), Some(2));
    assert_eq!(keys_of(&left), vec![1, 2, 3, 4, 5]);
}

#[test]
fn split_append_round_trip() {
    let mut n = leaf_with(&[(1, 10), (2, 20), (3, 30), (4, 40), (5, 50)]);
    let before = keys_of(&n);
    let (_, median, right) = n.split();
    n.append(median, right);
    assert_eq!(keys_of(&n), before);
}

#[test]
fn split_append_round_trip_internal() {
    let mut n = Node::binary(None, 70, Item::new(10, 1), 71);
    n.push_right(Item::new(20, 2), Some(72));
    n.push_right(Item::new(30, 3), Some(73));
    let before = keys_of(&n);
    let (_, median, right) = n.split();
    n.append(median, right);
    assert_eq!(keys_of(&n), before);
    assert_eq!(n.child_count(), 4);
    let mut children = n.children();
    for expected in [70, 71, 72, 73] {
        assert_eq!(children.next(), Some(expected));
    }
    assert_eq!(children.next(), None);
}

#[test]
fn push_pop_right_no_op() {
    let mut n = leaf_with(&[(1, 10), (2, 20)]);
    let count = n.item_count();
    n.push_right(Item::new(9, 90), None);
    let (offset, item, child) = n.pop_right(1).unwrap();
    assert_eq!(item, Item::new(9, 90));
    assert_eq!(offset.value(), Some(2));
    assert_eq!(child, None);
    assert_eq!(n.item_count(), count);
    assert_eq!(keys_of(&n), vec![1, 2]);
}

#[test]
fn push_pop_left_no_op() {
    let mut n = leaf_with(&[(5, 50), (6, 60)]);
    let count = n.item_count();
    n.push_left(Item::new(1, 10), None);
    let (item, child) = n.pop_left(1).unwrap();
    assert_eq!(item, Item::new(1, 10));
    assert_eq!(child, None);
    assert_eq!(n.item_count(), count);
    assert_eq!(keys_of(&n), vec![5, 6]);
}

#[test]
fn pop_signals_would_underflow() {
    let mut n = leaf_with(&[(5, 50), (6, 60)]);
    assert!(n.pop_left(2).is_err());
    assert!(n.pop_right(2).is_err());
    assert_eq!(keys_of(&n), vec![5, 6]);
    assert!(n.pop_right(1).is_ok());
    assert_eq!(keys_of(&n), vec![5]);
}

#[test]
fn capacity_respected_under_protocol() {
    // Each insert is preceded by an overflow check, as the external driver
    // does; the count never exceeds max_items.
    let max_items = 4;
    let mut n = Node::leaf(None, Item::new(0, 0));
    for k in 1..100u64 {
        if n.is_overflowing(max_items) || n.item_count() == max_items {
            break;
        }
        n.insert_by_key(k, k).unwrap();
        assert!(n.item_count() <= max_items);
    }
    assert_eq!(n.item_count(), max_items);
}

#[test]
fn offset_of_leaf() {
    let n = leaf_with(&[(10, 1), (20, 2), (30, 3)]);
    match n.offset_of(20) {
        Ok(o) => {
            assert_eq!(n.item(o).unwrap().key, 20);
            assert_eq!(o.value(), Some(1));
        }
        Err(_) => panic!("key 20 is present"),
    }
    assert_eq!(n.offset_of(5), Err((0, None)));
    assert_eq!(n.offset_of(25), Err((2, None)));
    assert_eq!(n.offset_of(35), Err((3, None)));
}

#[test]
fn offset_of_internal_descends() {
    let mut n = Node::binary(None, 70, Item::new(10, 1), 71);
    n.push_right(Item::new(20, 2), Some(72));
    assert_eq!(n.offset_of(10).unwrap().value(), Some(0));
    assert_eq!(n.offset_of(5), Err((0, Some(70))));
    assert_eq!(n.offset_of(15), Err((1, Some(71))));
    assert_eq!(n.offset_of(25), Err((2, Some(72))));
}

#[test]
fn get_and_get_mut() {
    let mut n = leaf_with(&[(10, 1), (20, 2)]);
    assert_eq!(n.get(10), Ok(Some(&1)));
    assert_eq!(n.get(15), Ok(None));
    if let Ok(Some(v)) = n.get_mut(20) {
        *v = 99;
    } else {
        panic!("key 20 is present");
    }
    assert_eq!(n.get(20), Ok(Some(&99)));

    let internal = Node::binary(None, 70, Item::new(10, 1), 71);
    assert_eq!(internal.get(10), Ok(Some(&1)));
    assert_eq!(internal.get(5), Err(70));
    assert_eq!(internal.get(15), Err(71));
}

#[test]
fn insert_by_key_overwrites_in_place() {
    let mut n = leaf_with(&[(10, 1), (20, 2)]);
    let (o, previous) = n.insert_by_key(20, 5).unwrap();
    assert_eq!(o.value(), Some(1));
    assert_eq!(previous, Some(2));
    assert_eq!(n.item_count(), 2);
    assert_eq!(n.get(20), Ok(Some(&5)));
}

#[test]
fn internal_insert_by_key_rejects_new_separator() {
    let mut n = Node::binary(None, 70, Item::new(10, 1), 71);
    assert_eq!(
        n.insert_by_key(15, 5),
        Err(InsertionError { key: 15, value: 5 })
    );
    let (o, previous) = n.insert_by_key(10, 9).unwrap();
    assert_eq!(o.value(), Some(0));
    assert_eq!(previous, Some(1));
}

#[test]
fn item_and_item_mut() {
    let mut n = leaf_with(&[(10, 1), (20, 2)]);
    assert_eq!(n.item(Offset::from(0)), Some(&Item::new(10, 1)));
    assert_eq!(n.item(Offset::from(2)), None);
    assert_eq!(n.item(Offset::before()), None);
    if let Some(it) = n.item_mut(Offset::from(1)) {
        it.value = 7;
    } else {
        panic!("offset 1 is in range");
    }
    assert_eq!(n.item(Offset::from(1)), Some(&Item::new(20, 7)));
}

#[test]
fn leaf_remove_dispatch() {
    let mut n = leaf_with(&[(10, 1), (20, 2), (30, 3)]);
    assert_eq!(n.leaf_remove(Offset::from(1)), Some(Ok(Item::new(20, 2))));
    assert_eq!(keys_of(&n), vec![10, 30]);
    assert_eq!(n.leaf_remove(Offset::from(5)), None);

    let mut internal = Node::binary(None, 70, Item::new(10, 1), 71);
    // On an internal node nothing is removed: the left child of the would-be
    // item is returned for the caller to descend into.
    assert_eq!(internal.leaf_remove(Offset::from(0)), Some(Err(70)));
    assert_eq!(internal.item_count(), 1);
    assert_eq!(internal.leaf_remove(Offset::from(1)), None);
}

#[test]
fn remove_rightmost_leaf_dispatch() {
    let mut n = leaf_with(&[(10, 1), (20, 2)]);
    assert_eq!(n.remove_rightmost_leaf(), Ok(Item::new(20, 2)));
    assert_eq!(keys_of(&n), vec![10]);

    let mut internal = Node::binary(None, 70, Item::new(10, 1), 71);
    assert_eq!(internal.remove_rightmost_leaf(), Err(71));
}

#[test]
fn positional_insert_and_replace() {
    let mut n = leaf_with(&[(10, 1), (30, 3)]);
    n.insert(Offset::from(1), Item::new(20, 2), None);
    assert_eq!(keys_of(&n), vec![10, 20, 30]);

    let mut internal = Node::binary(None, 70, Item::new(10, 1), 71);
    internal.insert(Offset::from(1), Item::new(20, 2), Some(72));
    assert_eq!(keys_of(&internal), vec![10, 20]);
    assert_eq!(internal.child_id(2), 72);

    let old = internal.replace(Offset::from(1), Item::new(25, 9));
    assert_eq!(old, Item::new(20, 2));
    assert_eq!(keys_of(&internal), vec![10, 25]);
    assert_eq!(internal.child_id(2), 72);
}

#[test]
fn child_lookup() {
    let mut n = Node::binary(None, 70, Item::new(10, 1), 71);
    n.push_right(Item::new(20, 2), Some(72));
    assert_eq!(n.child_count(), 3);
    assert_eq!(n.child_id(0), 70);
    assert_eq!(n.child_id(1), 71);
    assert_eq!(n.child_id(2), 72);
    assert_eq!(n.child_id_opt(3), None);
    assert_eq!(n.child_index(71), Some(1));
    assert_eq!(n.child_index(99), None);

    let leaf = Node::leaf(None, Item::new(1, 1));
    assert_eq!(leaf.child_count(), 0);
    assert_eq!(leaf.child_index(70), None);
    assert_eq!(leaf.child_id_opt(0), None);
}

#[test]
fn internal_boundary_pairs_move_children() {
    let mut n = Node::binary(None, 70, Item::new(10, 1), 71);
    n.push_left(Item::new(5, 5), Some(69));
    assert_eq!(keys_of(&n), vec![5, 10]);
    assert_eq!(n.child_id(0), 69);
    assert_eq!(n.child_id(1), 70);

    let (item, child) = n.pop_left(1).unwrap();
    assert_eq!(item, Item::new(5, 5));
    assert_eq!(child, Some(69));
    assert_eq!(n.child_id(0), 70);

    let (offset, item, child) = n.pop_right(0).unwrap();
    assert_eq!(offset.value(), Some(0));
    assert_eq!(item, Item::new(10, 1));
    assert_eq!(child, Some(71));
    assert_eq!(n.item_count(), 0);
    assert_eq!(n.child_count(), 1);
}

#[test]
fn separators_bound_children() {
    let mut n = Node::binary(None, 70, Item::new(10, 1), 71);
    n.push_right(Item::new(20, 2), Some(72));
    assert_eq!(n.separators(0), (None, Some(10)));
    assert_eq!(n.separators(1), (Some(10), Some(20)));
    assert_eq!(n.separators(2), (Some(20), None));

    let leaf = Node::leaf(None, Item::new(1, 1));
    assert_eq!(leaf.separators(0), (None, None));
}

#[test]
fn children_traversal() {
    let leaf = Node::leaf(None, Item::new(1, 1));
    let mut it = leaf.children();
    assert_eq!(it.next(), None);

    let mut n = Node::binary(None, 70, Item::new(10, 1), 71);
    n.push_right(Item::new(20, 2), Some(72));
    let mut it = n.children();
    assert_eq!(it.next(), Some(70));
    assert_eq!(it.next(), Some(71));
    assert_eq!(it.next(), Some(72));
    assert_eq!(it.next(), None);
    assert_eq!(it.next(), None);
}

#[test]
fn children_with_separators_traversal() {
    let leaf = Node::leaf(None, Item::new(1, 1));
    let mut it = leaf.children_with_separators();
    assert_eq!(it.next(), None);

    let mut n = Node::binary(None, 70, Item::new(10, 1), 71);
    n.push_right(Item::new(20, 2), Some(72));
    let mut it = n.children_with_separators();
    assert_eq!(it.next(), Some((None, 70, Some(Item::new(10, 1)))));
    assert_eq!(
        it.next(),
        Some((Some(Item::new(10, 1)), 71, Some(Item::new(20, 2))))
    );
    assert_eq!(it.next(), Some((Some(Item::new(20, 2)), 72, None)));
    assert_eq!(it.next(), None);

    // Every yielded triple with both bounds has the left strictly below the
    // right, and the bounds agree with `separators`.
    let mut it = n.children_with_separators();
    let mut index = 0;
    while let Some((left, _, right)) = it.next() {
        if let (Some(l), Some(r)) = (&left, &right) {
            assert!(l.key < r.key);
        }
        assert_eq!(n.separators(index).0, left.map(|i| i.key));
        assert_eq!(n.separators(index).1, right.map(|i| i.key));
        index += 1;
    }
    assert_eq!(index, 3);
}

#[test]
fn parent_tracking() {
    let mut n = Node::leaf(Some(3), Item::new(1, 1));
    assert_eq!(n.parent(), Some(3));
    n.set_parent(None);
    assert_eq!(n.parent(), None);
}

#[test]
fn balance_classification() {
    let mut n = Node::leaf(None, Item::new(1, 1));
    assert_eq!(n.balance(1, 3), Balance::Balanced);
    assert!(!n.is_underflowing(1));
    assert!(n.is_underflowing(2));
    n.insert_by_key(2, 2).unwrap();
    n.insert_by_key(3, 3).unwrap();
    n.insert_by_key(4, 4).unwrap();
    assert_eq!(n.balance(1, 3), Balance::Overflow);
    assert_eq!(n.balance(2, 2), Balance::Overflow);

    let mut low = Node::leaf(None, Item::new(1, 1));
    assert_eq!(low.balance(2, 4), Balance::Underflow(false));
    low.leaf_remove(Offset::from(0));
    assert_eq!(low.balance(2, 4), Balance::Underflow(true));
}

#[test]
fn validate_checks_local_invariants() {
    let n = leaf_with(&[(10, 1), (20, 2)]);
    assert!(n.validate(None, None, None));
    assert!(n.validate(None, Some(5), Some(25)));
    assert!(!n.validate(Some(1), None, None));
    assert!(!n.validate(None, Some(10), None));
    assert!(!n.validate(None, None, Some(20)));

    let internal = Node::binary(Some(4), 70, Item::new(10, 1), 71);
    assert!(internal.validate(Some(4), Some(0), Some(11)));
    assert!(!internal.validate(Some(4), Some(10), Some(11)));
    assert!(!internal.validate(None, None, None));
}

#[test]
fn keyed_by_key() {
    let item = Item::new(42, 7);
    assert_eq!(*item.key(), 42);
    let branch = Branch {
        item: Item::new(9, 1),
        child: 3,
    };
    assert_eq!(*branch.key(), 9);
}
