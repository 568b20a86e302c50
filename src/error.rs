use vstd::prelude::*;

verus! {

/// The ways an operation of this library can fail.
#[derive(Debug, Clone, Copy, PartialEq, Eq, Structural)]
pub enum ErrorKind {
    /// The index text is not a non-negative integer that fits in `usize`.
    ParseError,
    /// The parsed index lies outside `[0, length)` of the collection.
    IndexOutOfRange,
    /// A sequence term does not fit in the integer width used to hold it.
    ArithmeticOverflow,
}

} // verus!
