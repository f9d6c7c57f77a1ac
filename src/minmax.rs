//! Replacing a value by a smaller or a larger one.
use vstd::prelude::*;

verus! {

/// Replaces a value by `v` when `v` is smaller (`setmin`) or larger (`setmax`),
/// and tells whether it did.
pub trait SetMinMax: Sized {
    /// `a < b` in the order of the type.
    spec fn less(a: Self, b: Self) -> bool;

    fn setmin(&mut self, v: Self) -> (r: bool)
        ensures
            r == Self::less(v, *old(self)),
            *final(self) == if r { v } else { *old(self) },
    ;

    fn setmax(&mut self, v: Self) -> (r: bool)
        ensures
            r == Self::less(*old(self), v),
            *final(self) == if r { v } else { *old(self) },
    ;
}

impl SetMinMax for i64 {
    open spec fn less(a: i64, b: i64) -> bool {
        a < b
    }

    fn setmin(&mut self, v: i64) -> (r: bool) {
        if *self > v {
            *self = v;
            true
        } else {
            false
        }
    }

    fn setmax(&mut self, v: i64) -> (r: bool) {
        if *self < v {
            *self = v;
            true
        } else {
            false
        }
    }
}

impl SetMinMax for usize {
    open spec fn less(a: usize, b: usize) -> bool {
        a < b
    }

    fn setmin(&mut self, v: usize) -> (r: bool) {
        if *self > v {
            *self = v;
            true
        } else {
            false
        }
    }

    fn setmax(&mut self, v: usize) -> (r: bool) {
        if *self < v {
            *self = v;
            true
        } else {
            false
        }
    }
}

} // verus!
