//! What can go wrong, by the operation that reports it.

use vstd::prelude::*;

verus! {

/// Why a value could not be read as the native type that was asked for.
#[derive(Debug, Clone, Copy, PartialEq, Eq)]
pub enum ConversionError {
    /// The value is of a kind that cannot stand for the type.
    TypeMismatch,
    /// The value is a number outside the range of the type.
    RangeOverflow,
}

/// Why a value has no encoding. Nothing is written when one of these is returned.
#[derive(Debug, Clone, Copy, PartialEq, Eq)]
pub enum EncodeError {
    /// A text, byte string, list or map is longer than a 32-bit size can
    /// say, or a structure has more than fifteen fields.
    ValueTooLarge,
    /// The marker of a structure does not state the number of its fields.
    ArityMismatch,
}

/// Why a buffer could not be read. Only [`DecodeError::Incomplete`] is worth
/// a second try, once more bytes have arrived.
#[derive(Debug, Clone, Copy, PartialEq, Eq)]
pub enum DecodeError {
    /// The buffer ends before the value does.
    Incomplete,
    /// The leading byte begins no encoding that is accepted in its place.
    UnknownMarker,
    /// The bytes of a text are not UTF-8.
    InvalidUtf8,
    /// No message is registered under the marker and signature.
    UnknownMessage,
    /// The value is no structure, or not the structure that was asked for.
    UnexpectedHeader,
    /// A structure does not have the number of fields that its marker states.
    ArityMismatch,
    /// A declared field is missing or does not convert to its native type.
    FieldError { field_name: &'static str, cause: ConversionError },
}

} // verus!
