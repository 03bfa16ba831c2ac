//! The ways in which an input can fail to decode.

use vstd::prelude::*;

verus! {

/// Why decoding stopped. Any of these abandons the whole input: no partial
/// tree is handed out.
#[derive(Debug, Clone, Copy, PartialEq, Eq, Structural)]
pub enum DecodeError {
    /// A length prefix has no `:` after it, or holds a byte that is no digit.
    MalformedLength,
    /// The input ends where a value should start, or a declared length
    /// reaches past the end of the input.
    TruncatedInput,
    /// An integer body is no signed decimal, or is outside the range of `i128`.
    InvalidInteger,
    /// An integer has no closing `e`.
    UnterminatedInteger,
    /// The input ends inside a list or a dictionary.
    UnterminatedCollection,
    /// A dictionary key is not text.
    NonTextKey,
    /// A value starts with a byte that opens no production.
    UnexpectedByte,
    /// Lists and dictionaries are nested deeper than the depth allowed.
    NestingTooDeep,
}

} // verus!
