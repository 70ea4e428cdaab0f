//! The capability an input row must offer to the product enumerator.

use vstd::prelude::*;

verus! {

/// A row: an ordered, finite collection that can be read as a slice and
/// reports its length.  Implementing this for a container lets the product
/// enumerator walk it without copying it.
pub trait AsSlice {
    /// Element type of the slice.
    type Item;

    /// The row's elements as a mathematical sequence.
    spec fn items(&self) -> Seq<Self::Item>;

    /// Returns the slice of `Self`.
    fn as_slice(&self) -> (r: &[Self::Item])
        ensures
            r@ == self.items(),
    ;

    /// Returns the number of elements in the `Self`.
    fn len(&self) -> (n: usize)
        ensures
            n == self.items().len(),
    {
        self.as_slice().len()
    }
}

impl<T> AsSlice for Vec<T> {
    type Item = T;

    open spec fn items(&self) -> Seq<T> {
        self@
    }

    fn as_slice(&self) -> (r: &[T]) {
        self.as_slice()
    }
}

/// The sequences the rows stand for, in order.
pub open spec fn row_views<T, I: AsSlice<Item = T>>(v: Seq<I>) -> Seq<Seq<T>> {
    v.map(|k: int, r: I| r.items())
}

} // verus!
