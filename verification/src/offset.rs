//! Addressing within one node's item sequence, including the sentinel
//! position that precedes the first item.

use vstd::prelude::*;

verus! {

use vstd::std_specs::cmp::PartialEqSpec;
use vstd::std_specs::cmp::PartialOrdSpec;

/// Position of an item within a node.
///
/// The domain is `{0, 1, ..., item_count - 1}` plus a distinguished sentinel
/// meaning "before the first item"; the sentinel is used when recursion must
/// descend into a node's leftmost child. The sentinel is represented by
/// `usize::MAX`, so that concrete position can never be addressed.
///
/// In specifications an offset is modelled by [`Offset::idx`]: the sentinel is
/// `-1` and a concrete position `i` is `i`, which makes the sentinel strictly
/// less than every concrete position.
#[derive(Clone, Copy, Eq, Hash, Debug)]
pub struct Offset(usize);

impl Offset {
    /// Mathematical model of this offset: `-1` for the sentinel, the concrete
    /// index otherwise.
    pub closed spec fn idx(self) -> int {
        if self.0 == usize::MAX {
            -1
        } else {
            self.0 as int
        }
    }

    /// The sentinel position, strictly before index 0.
    pub fn before() -> (r: Offset)
        ensures
            r.idx() == -1,
    {
        Offset(usize::MAX)
    }

    /// Builds the offset addressing the concrete position `i`.
    pub fn at(i: usize) -> (r: Offset)
        requires
            i < usize::MAX,
        ensures
            r.idx() == i,
    {
        Offset(i)
    }

    /// Whether this offset is the before-first sentinel.
    pub fn is_before(&self) -> (r: bool)
        ensures
            r <==> self.idx() == -1,
    {
        self.0 == usize::MAX
    }

    /// The concrete index, or `None` for the sentinel.
    pub fn value(&self) -> (r: Option<usize>)
        ensures
            match r {
                Some(v) => v == self.idx(),
                None => self.idx() == -1,
            },
    {
        if self.0 == usize::MAX {
            None
        } else {
            Some(self.0)
        }
    }

    /// The concrete index of an offset known not to be the sentinel.
    pub fn unwrap(self) -> (r: usize)
        requires
            self.idx() >= 0,
        ensures
            r == self.idx(),
    {
        self.0
    }

    /// Moves one position to the right: the sentinel becomes position 0.
    pub fn incr(&mut self)
        requires
            old(self).idx() < usize::MAX - 1,
        ensures
            final(self).idx() == old(self).idx() + 1,
    {
        if self.0 == usize::MAX {
            self.0 = 0
        } else {
            self.0 = self.0 + 1
        }
    }

    /// Moves one position to the left: position 0 becomes the sentinel.
    ///
    /// Decrementing the sentinel itself is excluded: naive wrap-around
    /// arithmetic would silently turn the sentinel into a huge concrete
    /// position, so the operation is only defined on concrete positions.
    pub fn decr(&mut self)
        requires
            old(self).idx() >= 0,
        ensures
            final(self).idx() == old(self).idx() - 1,
    {
        if self.0 == 0 {
            self.0 = usize::MAX
        } else {
            self.0 = self.0 - 1
        }
    }
}

impl PartialEq for Offset {
    fn eq(&self, other: &Offset) -> (r: bool) {
        self.0 == other.0
    }
}

impl vstd::std_specs::cmp::PartialEqSpecImpl for Offset {
    open spec fn obeys_eq_spec() -> bool {
        true
    }

    open spec fn eq_spec(&self, other: &Offset) -> bool {
        self.idx() == other.idx()
    }
}

impl PartialOrd for Offset {
    fn partial_cmp(&self, other: &Offset) -> (r: Option<core::cmp::Ordering>) {
        if self.0 == other.0 {
            Some(core::cmp::Ordering::Equal)
        } else if self.0 == usize::MAX {
            Some(core::cmp::Ordering::Less)
        } else if other.0 == usize::MAX {
            Some(core::cmp::Ordering::Greater)
        } else if self.0 < other.0 {
            Some(core::cmp::Ordering::Less)
        } else {
            Some(core::cmp::Ordering::Greater)
        }
    }
}

impl vstd::std_specs::cmp::PartialOrdSpecImpl for Offset {
    open spec fn obeys_partial_cmp_spec() -> bool {
        true
    }

    open spec fn partial_cmp_spec(&self, other: &Offset) -> Option<core::cmp::Ordering> {
        if self.idx() < other.idx() {
            Some(core::cmp::Ordering::Less)
        } else if self.idx() == other.idx() {
            Some(core::cmp::Ordering::Equal)
        } else {
            Some(core::cmp::Ordering::Greater)
        }
    }
}

impl From<usize> for Offset {
    fn from(i: usize) -> (r: Offset) {
        Offset(i)
    }
}

impl vstd::std_specs::convert::FromSpecImpl<usize> for Offset {
    open spec fn obeys_from_spec() -> bool {
        true
    }

    closed spec fn from_spec(i: usize) -> Offset {
        Offset(i)
    }
}

/// The sentinel is the least offset: it is strictly below every offset built
/// from a concrete index, and equal only to itself.
pub proof fn lemma_before_is_least(k: usize)
    requires
        k < usize::MAX,
    ensures
        Offset::before_spec().partial_cmp_spec(&Offset::from_spec_at(k)) == Some(
            core::cmp::Ordering::Less,
        ),
        Offset::before_spec().eq_spec(&Offset::before_spec()),
{
}

impl Offset {
    /// The model of the sentinel offset, for stating order laws.
    pub closed spec fn before_spec() -> Offset {
        Offset(usize::MAX)
    }

    /// The model of `Offset::from(i)`, for stating order laws.
    pub closed spec fn from_spec_at(i: usize) -> Offset {
        Offset(i)
    }
}

} // verus!
