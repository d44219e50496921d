//! A growable array stored in power-of-two sized segments.
//!
//! `SegArray` grows by allocating one more segment, twice the size of the
//! last, instead of moving its elements to a larger buffer. An element keeps
//! its place from the append that stored it to the pop or the iteration that
//! takes it out.
//!
//! - `layout`: which segment and slot hold a linear index.
//! - `array`: the array itself.
//! - `into_iter`: consuming iteration.
//! - `pending`: the slots that are still occupied in the middle of an
//!   iteration.
//! - `laws`: what holds over a whole history of calls.
//! - `error`: the error of indexed access.
//!
//! The contracts speak of an array through its view, the sequence of its
//! elements, and ask for `wf()`, which every constructor establishes and every
//! method keeps.

pub mod array;
pub mod error;
pub mod into_iter;
pub mod laws;
pub mod layout;
pub mod pending;
mod storage;

pub use crate::array::SegArray;
pub use crate::error::OutOfRange;
pub use crate::into_iter::SegArrayIntoIter;
pub use crate::layout::{ilog2_ceil, MAX_LEN, MAX_SEGMENTS};
