//! The error taxonomy of the codec, and its specification-level mirror.

use crate::value::QueryValue;
use crate::value::SpecValue;
use crate::value::ValueError;
use crate::value::ValueKind;
use vstd::prelude::*;

verus! {

/// An error from the encoder or the decoder. Every way a call can go wrong
/// is reported as one of these; no input makes either function panic.
#[derive(Clone, Debug, PartialEq, Eq)]
pub enum QueryError {
    /// The format string escapes a character outside the directive set.
    UnrecognizedChar(char),
    /// A literal byte of the format string disagrees with the input byte at
    /// `index` (an offset into the input as it stands after the framing byte
    /// is discarded).
    InputMismatch { index: usize, expected: u8, actual: u8, format_string: String },
    /// A literal token of the format string is not a pair of hex digits: the
    /// named character is not a hex digit, or a lone nibble stands before an
    /// escape while decoding.
    MalformedLiteral(char),
    /// A directive asked for an argument when none were left.
    ArgumentUnderflow,
    /// A directive was handed an argument of the wrong kind.
    ArgumentMismatch(ValueError),
    /// A directive asked for more input bytes than were left.
    InputUnderflow,
    /// The format string was exhausted with input bytes still unread.
    TrailingInput { remaining: usize },
}

/// The specification-level mirror of [`QueryError`]. It leaves out the
/// echoed format string, which [`err_matches`] pins separately.
pub enum SpecError {
    UnrecognizedChar(char),
    InputMismatch { index: int, expected: u8, actual: u8 },
    MalformedLiteral(char),
    ArgumentUnderflow,
    ArgumentMismatch { expected: ValueKind, actual: SpecValue },
    InputUnderflow,
    TrailingInput { remaining: int },
}

/// Holds when the returned error `e` is the one the specification calls
/// `s`, for a call whose format string was `fmt`.
pub open spec fn err_matches(e: QueryError, s: SpecError, fmt: Seq<char>) -> bool {
    match e {
        QueryError::UnrecognizedChar(c) => s == SpecError::UnrecognizedChar(c),
        QueryError::InputMismatch { index, expected, actual, format_string } => {
            &&& s matches SpecError::InputMismatch { index: i2, expected: e2, actual: a2 }
            &&& index as int == i2
            &&& expected == e2
            &&& actual == a2
            &&& format_string@ == fmt
        },
        QueryError::MalformedLiteral(c) => s == SpecError::MalformedLiteral(c),
        QueryError::ArgumentUnderflow => s == SpecError::ArgumentUnderflow,
        QueryError::ArgumentMismatch(ve) => match ve {
            ValueError::TypeMismatch { expected, actual } => {
                &&& s matches SpecError::ArgumentMismatch { expected: k2, actual: a2 }
                &&& expected == k2
                &&& actual@ == a2
            },
        },
        QueryError::InputUnderflow => s == SpecError::InputUnderflow,
        QueryError::TrailingInput { remaining } => {
            &&& s matches SpecError::TrailingInput { remaining: r2 }
            &&& remaining as int == r2
        },
    }
}

} // verus!
