//! Fixed-length arrays built by running an element procedure once per slot.
//!
//! The `buffer` module holds the partially filled array and its two
//! finalizers; the `counting` and `zipped` modules drive it from an ordinal
//! counter or from a pulled source of items.
use vstd::prelude::*;

pub mod buffer;
pub mod counting;
pub mod zipped;

pub use buffer::PartiallyInitArray;
pub use counting::{build_array, Halt};
pub use zipped::collect_array;

verus! {

/// Marker value that an element procedure's inner block completes with.
pub struct DontBreakFromElementExpressionWithoutLabel;

} // verus!
