//! The failures that this crate reports.

use vstd::prelude::*;

verus! {

/// The two kinds of failure: a value that could not be built from what was
/// given, and an encoded alignment that could not be read.
#[derive(Debug, Clone, Copy, PartialEq, Eq, Hash, Structural)]
pub enum ErrorClass {
    /// The input to a constructor was rejected.
    Construction,
    /// An edit script was rejected while it was being expanded.
    Decode,
}

/// A failure, reported where the offending value is first seen.
#[derive(Debug, Clone, Copy, PartialEq, Eq, Hash, Structural)]
pub enum Error {
    /// A coordinate does not fit in the integer type of a position.
    CoordinateOutOfRange,
    /// The substitution cost of a linear or affine model is not positive.
    NonPositiveSub,
    /// The indel cost of a linear model is not positive.
    NonPositiveIndel,
    /// The gap-open cost of an affine model is negative.
    NegativeOpen,
    /// The gap-extend cost of an affine model is not positive.
    NonPositiveExtend,
    /// A byte size is not a decimal number followed by a known unit.
    MalformedSize,
    /// A byte size is well formed but does not fit in 64 bits.
    SizeOutOfRange,
    /// A path is empty, so it has no start.
    EmptyPath,
    /// The step that leaves the path element at `index` is not one cell
    /// down, right or diagonally down-right, or leaves the matrix.
    IllegalStep { index: usize },
    /// The run at `index` of an edit script has length zero.
    ZeroLengthRun { index: usize },
    /// Following an edit script leads to a coordinate that does not fit in
    /// the integer type of a position.
    PathOutOfRange,
    /// The cost of an edit script does not fit in the cost type.
    CostOutOfRange,
}

impl Error {
    /// The kind that each failure is of.
    pub open spec fn spec_class(self) -> ErrorClass {
        match self {
            Error::ZeroLengthRun { .. } | Error::PathOutOfRange | Error::CostOutOfRange => {
                ErrorClass::Decode
            },
            _ => ErrorClass::Construction,
        }
    }

    /// The kind of failure.
    pub fn class(&self) -> (c: ErrorClass)
        ensures
            c == self.spec_class(),
    {
        match self {
            Error::ZeroLengthRun { .. } | Error::PathOutOfRange | Error::CostOutOfRange => {
                ErrorClass::Decode
            },
            _ => ErrorClass::Construction,
        }
    }
}

} // verus!
