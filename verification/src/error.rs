//! The ways in which solving and table handling fail.

use vstd::prelude::*;

verus! {

/// Why a solver returned no logarithm.
#[derive(Clone, Copy, Debug, PartialEq, Eq, Structural)]
pub enum SolveError {
    /// The table holds no logarithm for the point: it lies outside the range
    /// that the solver covers.
    OutOfRange,
    /// The time or the number of walks allowed to a randomized solver ran out.
    TimedOut,
    /// The operating system gave no random bytes.
    RandomSource,
}

/// Why no table was built or loaded.
#[derive(Clone, Copy, Debug, PartialEq, Eq, Structural)]
pub enum TableError {
    /// The bytes are not the serialization of a table.
    CorruptTable,
    /// The parameters are outside what the solver accepts.
    InvalidParameter,
    /// Two baby steps share their truncated key.
    TruncatedKeyCollision,
    /// The operating system gave no random bytes.
    RandomSource,
}

/// Why no random scalar was generated.
#[derive(Clone, Copy, Debug, PartialEq, Eq, Structural)]
pub enum RandomScalarError {
    /// More than 64 bits were asked for.
    TooManyBits,
    /// The operating system gave no random bytes.
    RandomSource,
}

} // verus!
