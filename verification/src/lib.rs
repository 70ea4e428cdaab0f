//! Lazy cartesian product of a run-time-determined number of rows.
//!
//! Given an ordered collection of rows (each an ordered, finite sequence),
//! [`DynProduct`] yields every combination that picks exactly one element
//! from each row, one combination at a time, without materializing the full
//! product.  Combinations come out in odometer order: the last row's index
//! advances fastest, the first row's index slowest, exactly as nested loops
//! with the first row outermost would visit them.
//!
//! The engine is a mixed-radix counter (one digit per row, the row lengths
//! as radices) advanced by [`countup`]; the [`counter`] module states and
//! proves the counting laws behind it: each advance moves the counter to
//! the position of rank one higher, ranks and digit vectors are in
//! bijection, and rank order is lexicographic order on the digits.

pub mod counter;
pub mod product;
pub mod rows;

pub use counter::countup;
pub use product::DynProduct;
pub use rows::AsSlice;
