//! Classification of a node's occupancy against the configured bounds.

use vstd::prelude::*;

verus! {

/// Node balance relative to a configured `(min_items, max_items)` pair.
///
/// `Overflow` obliges the caller to split the node before the mutation is
/// considered complete; `Underflow(_)` elsewhere than at the root obliges the
/// parent to borrow or merge. `Underflow(true)` (the node is empty) is
/// legitimate only at the root, where it is the terminal collapsed state.
#[derive(Clone, Copy, PartialEq, Eq, Structural, Debug)]
pub enum Balance {
    /// The node is balanced.
    Balanced,
    /// The node is overflowing.
    Overflow,
    /// The node is underflowing.
    ///
    /// The boolean is `true` if the node is empty.
    Underflow(bool),
}

/// Error returned when an operation on the node would result in an underflow.
#[derive(Clone, Copy, PartialEq, Eq, Structural, Debug)]
pub struct WouldUnderflow;

/// How a node holding `count` items classifies against the bounds: above
/// `max_items` it overflows, below `min_items` it underflows (and reports
/// whether it is empty), and in `[min_items, max_items]` it is balanced.
pub open spec fn balance_of(count: int, min_items: int, max_items: int) -> Balance {
    if count > max_items {
        Balance::Overflow
    } else if count < min_items {
        Balance::Underflow(count == 0)
    } else {
        Balance::Balanced
    }
}

/// Computes the balance classification of a node holding `count` items.
pub fn classify(count: usize, min_items: usize, max_items: usize) -> (r: Balance)
    ensures
        r == balance_of(count as int, min_items as int, max_items as int),
{
    if count > max_items {
        Balance::Overflow
    } else if count < min_items {
        Balance::Underflow(count == 0)
    } else {
        Balance::Balanced
    }
}

} // verus!
