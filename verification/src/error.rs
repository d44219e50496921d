//! Errors of indexed access.

use vstd::prelude::*;

verus! {

/// An index that is not below the length of the array.
#[derive(Debug, Clone, Copy, PartialEq, Eq, Structural)]
pub struct OutOfRange {
    /// The index that was asked for.
    pub index: usize,
    /// The length of the array at that time.
    pub len: usize,
}

} // verus!
