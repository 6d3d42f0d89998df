//! The ways in which building or querying a distribution can fail.

use vstd::prelude::*;

verus! {

/// Why an operation of this crate did not produce a value.
#[derive(Clone, Copy, Debug, PartialEq, Eq)]
pub enum DiceError {
    /// A distribution was asked for over no outcomes at all.
    EmptyInput,
    /// A table was queried at a value that lies outside of its range.
    OutOfRange,
    /// There are more outcomes than a 32-bit counter can count, or their
    /// range has more values than a `usize` can index.
    Overflow,
}

} // verus!
