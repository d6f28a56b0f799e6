use vstd::prelude::*;

use crate::serialize::SizeBytes;

verus! {

/// What went wrong with the underlying byte source or sink.
#[derive(Clone, Copy, Debug, PartialEq, Eq, Structural)]
pub enum IoErrorKind {
    /// The source ended before a value was complete.
    UnexpectedEof,
    /// Any other failure of the source or sink.
    Other,
}

/// An error suggesting something went wrong during (de)serialization.
#[derive(Clone, Copy, Debug, PartialEq, Eq, Structural)]
pub enum BinverseError {
    /// The underlying data stream failed.
    IO(IoErrorKind),
    /// A varint took more than ten bytes or had bits beyond 64.
    VarIntOverflow,
    /// The bytes of a string were not valid UTF-8.
    InvalidUTF8,
    /// A container held more elements than its length prefix can count.
    SizeExceeded {
        /// The length prefix chosen for the container.
        limit: SizeBytes,
        /// The number of elements found in the container.
        found: usize,
    },
    /// A tagged value (a boolean, an option's tag) held a byte outside its domain.
    InvalidData,
}

/// A result whose error is a [`BinverseError`].
pub type BinverseResult<T> = Result<T, BinverseError>;

/// The error a read past the end of the input gives.
pub open spec fn eof() -> BinverseError {
    BinverseError::IO(IoErrorKind::UnexpectedEof)
}

} // verus!
