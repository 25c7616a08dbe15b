//! Errors reported by the library.
use vstd::prelude::*;

verus! {

/// Why an operation of the library was refused.
#[derive(Debug, Clone, Copy, PartialEq, Eq, Structural)]
pub enum SetupError {
    /// An operand type name that no operand type has.
    UnknownOpType,
    /// A destination operand that is not a temporary.
    InvalidDestType,
    /// An operand whose row offset is not among the opening points.
    OpeningPointNotFound,
    /// An operand kind that cannot appear in a global constraint.
    NotAllowedInGlobal,
    /// A combination of operand dimensions with no operation.
    OperationNotConsidered,
    /// A destination whose dimension is neither 1 nor 3.
    UnknownDestinationDimension,
    /// An operand kind that has no argument encoding.
    UnknownType,
    /// A constraint boundary with no row range.
    InvalidBoundary,
    /// A custom-commit column outside stage 0.
    InvalidCustomStage,
    /// A file that does not start with the expected magic bytes.
    BadMagic,
    /// A file that ends before the data it announces.
    Truncated,
    /// A string field that is not valid UTF-8.
    InvalidUtf8,
    /// A section was started while another one was still open.
    SectionAlreadyOpen,
    /// A section was ended while none was open.
    NoSectionOpen,
}

} // verus!
