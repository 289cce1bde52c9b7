//! The capability of being marked as corrupted.

use vstd::prelude::*;

verus! {

/// An entity that can be marked as corrupted, unmarked again, and asked
/// which of the two it is. The mark restricts nothing by itself: whoever
/// holds the entity decides what a corrupted one may still take part in.
pub trait Corruptable: Sized {
    /// The mark.
    spec fn corrupted(&self) -> bool;

    /// Whether `other` holds what `self` holds, whatever their marks are.
    spec fn same_but_for_mark(&self, other: &Self) -> bool;

    fn is_corrupted(&self) -> (b: bool)
        ensures
            b == self.corrupted(),
    ;

    fn mark_as_corrupted(&mut self) -> (r: &mut Self)
        ensures
            r.corrupted(),
            old(self).same_but_for_mark(r),
            *final(self) == *final(r),
    ;

    fn unmark_as_corrupted(&mut self) -> (r: &mut Self)
        ensures
            !r.corrupted(),
            old(self).same_but_for_mark(r),
            *final(self) == *final(r),
    ;
}

} // verus!
