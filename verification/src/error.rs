//! The error taxonomy of the codec.

use vstd::prelude::*;

verus! {

/// Everything that can go wrong while encoding or decoding.
///
/// Errors are returned to the caller unchanged; the codec never retries and
/// never repairs malformed input.
#[derive(Clone, Copy, Debug, PartialEq, Eq, Structural)]
pub enum Error {
    /// A read ran past the visible end of the buffer.
    EndOfStream,
    /// An integer width was requested outside the supported span:
    /// the width, the least and the greatest supported width.
    BitLenNotInRange(u64, u64, u64),
    /// A value to write violates its range constraint:
    /// the value, the lower and the upper bound.
    ValueNotInRange(i64, i64, i64),
    /// A non-extensible size constraint was violated:
    /// the length, the lower and the upper bound.
    SizeNotInRange(u64, u64, u64),
    /// The length field of an unconstrained integer exceeds what fits:
    /// the announced octet count and the greatest accepted count.
    LengthDeterminantExceedsLimit(u64, u64),
    /// A choice or enumeration index cannot be mapped to a variant:
    /// the index and the number of standard variants.
    InvalidChoiceIndex(u64, u64),
    /// A string field failed UTF-8 validation.
    InvalidUtf8,
    /// A restricted character-set string holds a forbidden character.
    InvalidString,
    /// The requested feature is not provided by this codec.
    UnsupportedOperation,
}

} // verus!
