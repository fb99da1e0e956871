//! Compaction: coalescing seven sibling leaves into one leaf at their
//! parent.

use crate::cell::Cell;
use vstd::prelude::*;
use vstd::std_specs::cmp::PartialEqSpec;

verus! {

/// The value behind an optional reference.
pub open spec fn deref_opt<V>(o: Option<&V>) -> Option<V> {
    match o {
        Some(v) => Some(*v),
        None => None,
    }
}

/// The values behind seven optional references.
pub open spec fn child_values<V>(children: [Option<&V>; 7]) -> Seq<Option<V>> {
    children@.map_values(|o: Option<&V>| deref_opt(o))
}

/// Every one of the seven children holds a value.
pub open spec fn all_present<V>(children: Seq<Option<V>>) -> bool {
    forall|i: int| 0 <= i < 7 ==> (#[trigger] children[i]) is Some
}

/// A user-provided compactor.
///
/// After every insert, each parent on the inserted cell's path whose
/// children are all leaves is offered to the compactor, deepest first. It
/// may leave the parent alone (`None`) or turn it into a leaf holding the
/// returned value.
pub trait Compactor<V>: Sized {
    /// Whether the compactor, in this state, may answer `r` for a parent at
    /// `cell` whose children hold `children` (`None` for an absent child).
    spec fn compacts(&self, cell: Cell, children: Seq<Option<V>>, r: Option<V>) -> bool;

    /// Called on a parent whose present children are all leaves.
    fn compact(&mut self, cell: Cell, children: [Option<&V>; 7]) -> (r: Option<V>)
        ensures
            old(self).compacts(cell, child_values(children), r),
    ;
}

/// A compactor that never compacts.
#[derive(Clone, Copy, Debug, PartialEq, Eq, PartialOrd, Ord)]
pub struct NullCompactor;

impl<V> Compactor<V> for NullCompactor {
    open spec fn compacts(&self, cell: Cell, children: Seq<Option<V>>, r: Option<V>) -> bool {
        r is None
    }

    fn compact(&mut self, _cell: Cell, _children: [Option<&V>; 7]) -> (r: Option<V>) {
        None
    }
}

/// A compactor for sets: a parent whose seven children are all present
/// becomes a leaf.
#[derive(Clone, Copy, Debug, PartialEq, Eq, PartialOrd, Ord)]
pub struct SetCompactor;

impl Compactor<()> for SetCompactor {
    open spec fn compacts(&self, cell: Cell, children: Seq<Option<()>>, r: Option<()>) -> bool {
        r is Some <==> all_present(children)
    }

    fn compact(&mut self, _cell: Cell, children: [Option<&()>; 7]) -> (r: Option<()>) {
        let mut i: usize = 0;
        while i < 7
            invariant
                0 <= i <= 7,
                forall|j: int| 0 <= j < i ==> (#[trigger] child_values(children)[j]) is Some,
            decreases 7 - i,
        {
            if children[i].is_none() {
                assert(child_values(children)[i as int] is None);
                return None;
            }
            i += 1;
        }
        Some(())
    }
}

/// A compactor for maps: a parent whose seven children are all present and
/// equal becomes a leaf holding a clone of their value.
#[derive(Clone, Copy, Debug, PartialEq, Eq, PartialOrd, Ord)]
pub struct EqCompactor;

/// All seven children are present and, by `==`, equal to the first.
pub open spec fn all_equal<V: PartialEq>(children: Seq<Option<V>>) -> bool {
    &&& all_present(children)
    &&& forall|i: int| 0 <= i < 7 ==> (#[trigger] children[i])->0.eq_spec(&children[0]->0)
}

impl<V: PartialEq + Clone> Compactor<V> for EqCompactor {
    open spec fn compacts(&self, cell: Cell, children: Seq<Option<V>>, r: Option<V>) -> bool {
        &&& r matches Some(v) ==> all_present(children) && cloned(children[0]->0, v)
        &&& V::obeys_eq_spec() ==> (r is Some <==> all_equal(children))
    }

    fn compact(&mut self, _cell: Cell, children: [Option<&V>; 7]) -> (r: Option<V>) {
        let first = match children[0] {
            Some(v) => v,
            None => {
                assert(child_values(children)[0] is None);
                return None;
            },
        };
        assert(child_values(children)[0] == Some(*first));
        let mut i: usize = 0;
        while i < 7
            invariant
                0 <= i <= 7,
                child_values(children)[0] == Some(*first),
                forall|j: int| 0 <= j < i ==> (#[trigger] child_values(children)[j]) is Some,
                V::obeys_eq_spec() ==> forall|j: int|
                    0 <= j < i ==> (#[trigger] child_values(children)[j])->0.eq_spec(first),
            decreases 7 - i,
        {
            match children[i] {
                Some(v) => {
                    assert(child_values(children)[i as int] == Some(*v));
                    if !(v == first) {
                        return None;
                    }
                },
                None => {
                    assert(child_values(children)[i as int] is None);
                    return None;
                },
            }
            i += 1;
        }
        Some(first.clone())
    }
}

} // verus!
