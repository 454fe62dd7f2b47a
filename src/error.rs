//! Error values returned by the validated constructors.

use vstd::prelude::*;

verus! {

/// Why a partition coordinate could not be built.
#[derive(Debug, Clone, Copy, PartialEq, Eq, Structural)]
pub enum PartitionCoordError {
    /// `n` must be at least 1; carries `n`.
    InvalidN(i32),
    /// `l` must lie in `[0, n)`; carries `(l, n)`.
    InvalidL(i32, i32),
    /// `m` must lie in `[-l, l]`; carries `(m, l)`.
    InvalidM(i32, i32),
    /// A linear index must be non-negative and in range; carries the index.
    InvalidIndex(i64),
}

/// Why a ternary address could not be built.
#[derive(Debug, Clone, PartialEq, Eq)]
pub enum TernaryAddrError {
    /// A digit outside `{0, 1, 2}`; 255 stands for a character that is no decimal digit.
    InvalidDigit(u8),
    /// The value does not fit the depth; carries `(value, 3^depth - 1, depth)`.
    ValueExceedsCapacity(u64, u64, usize),
    /// A child direction outside `{0, 1, 2}`.
    InvalidDirection(u8),
    /// The text does not start with `T`; carries the text.
    InvalidPrefix(String),
}

} // verus!
