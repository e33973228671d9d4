use vstd::prelude::*;

verus! {

/// Why a run was abandoned. Every variant is fatal: nothing is retried and no
/// partial result is handed out.
#[derive(Clone, Copy, Debug, PartialEq, Eq, Structural)]
pub enum Error {
    /// An unterminated line outgrew the carry buffer.
    LineTooLong,
    /// A line is not valid UTF-8.
    InvalidEncoding,
    /// A line does not hold exactly one field delimiter.
    MalformedRecord,
    /// The value field is not a decimal literal that the fixed-point type holds.
    InvalidNumber,
    /// A key was seen more often than the counter can tell.
    CountOverflow,
}

} // verus!
