//! What can be wrong with the text of a table.

use vstd::prelude::*;

verus! {

/// The condition that a line of a table violates.
#[derive(Clone, Copy, Debug, PartialEq, Eq, Structural)]
pub enum ErrorKind {
    /// The line has fewer fields than the table needs.
    MissingField,
    /// The first field of the line is not a hexadecimal number of at most 32 bits.
    BadCodePoint,
    /// The line names no code point.
    MissingKey,
    /// The line names more code points than a packed key can hold.
    KeyTooLong,
    /// The line has no group of weights.
    MissingWeights,
    /// A group of weights has fewer levels than the table reads.
    MissingLevel,
    /// A secondary or tertiary weight is above its maximum.
    WeightOutOfRange,
    /// A decomposition is listed, or given, without any code point.
    EmptyDecomposition,
    /// A decomposition leads back, through the code points that it lists, to its own code
    /// point.
    CyclicDecomposition,
}

/// A violated condition, with the number of the line on which it was found (from 0).
#[derive(Clone, Copy, Debug, PartialEq, Eq, Structural)]
pub struct TableError {
    pub line: usize,
    pub kind: ErrorKind,
}

} // verus!
