//! Verified core of an external (disk-based) merge sort for numeric data.
//!
//! The engine sorts a dataset of numbers too large for main memory: the
//! input is cut into memory-bounded sorted runs, the runs are merged two at
//! a time, oldest first, until a single fully sorted run remains, and that
//! run is emitted as text, one value per line.
//!
//! Values travel through this library as order keys: `u64` values whose
//! unsigned order is the total order being sorted (see [`codec`] for the
//! order-preserving transform between IEEE 754 bit patterns and keys).
//! Everything that decides the result of the sort lives here and is
//! verified; reading lines, file handling and decimal formatting sit in a
//! thin unverified shell around this crate.

use vstd::prelude::*;

pub mod chunker;
pub mod codec;
pub mod merge;
pub mod pipeline;
pub mod scheduler;
pub mod sorting;

verus! {

/// The failure taxonomy of the sorting pipeline. Every failure is fatal and
/// escalates to the caller: no operation is retried, because an incorrect
/// sort is worse than a failed run.
#[derive(Clone, Copy, Debug, PartialEq, Eq, Structural)]
pub enum SortError {
    /// A line of the text input is not a valid numeric literal.
    ParseError,
    /// A file operation failed (missing input, unwritable scratch space, ...).
    IoError,
    /// A run's byte length is not a multiple of the record width, so a read
    /// would return fewer bytes than a whole record.
    MalformedRunError,
    /// Two values could not be given a definite order.
    OrderingError,
}

} // verus!
