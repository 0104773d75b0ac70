//! Values that stand for a mathematical model and can be compared and copied by it.

use vstd::prelude::*;

verus! {

/// A value with a view by which it is compared and duplicated.
///
/// Two values with the same view are interchangeable for every contract of this crate.
pub trait Model: View + Sized {
    /// The representation invariant of the value.
    spec fn valid(&self) -> bool;

    /// Whether both values have the same view.
    fn same(&self, other: &Self) -> (b: bool)
        requires
            self.valid(),
            other.valid(),
        ensures
            b == (self@ == other@),
    ;

    /// A fresh value with the same view.
    fn dup(&self) -> (r: Self)
        requires
            self.valid(),
        ensures
            r.valid(),
            r@ == self@,
    ;
}

impl Model for String {
    open spec fn valid(&self) -> bool {
        true
    }

    fn same(&self, other: &Self) -> (b: bool) {
        *self == *other
    }

    fn dup(&self) -> (r: Self) {
        self.clone()
    }
}

} // verus!
