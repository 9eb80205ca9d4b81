use vstd::prelude::*;

verus! {

/// A fault found while reading one statement of the text: a numeric field
/// that is not a number, a box-size line with the wrong shape, or a record
/// line too short for its fixed columns.
#[derive(Clone, Copy, Debug, PartialEq, Eq, Structural)]
pub enum ParseError {
    /// An integer field did not parse as an integer.
    Integer,
    /// A coordinate field did not parse as a decimal number.
    Float,
    /// The box-size line did not hold exactly three tokens.
    InvalidStatement,
    /// A record line was shorter than its fixed columns require.
    OutOfRange,
}

/// The faults this library reports. Reading the source text is a caller's
/// concern; `IO` exists so that a caller can fold its own read failures into
/// the same type.
#[derive(Clone, Copy, Debug, PartialEq, Eq, Structural)]
pub enum Error {
    /// The caller failed to read the source text.
    IO,
    /// A statement of the text is malformed.
    Parse(ParseError),
    /// The text ended before the declared structure was complete.
    LackOfLine,
    /// Two records with one residue number carry different residue names.
    Consistency,
}

} // verus!
