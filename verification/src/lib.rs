//! Decoder for the "bee" encoding: length-prefixed byte strings, `i...e`
//! integers, `l...e` lists and `d...e` dictionaries, decoded into a tree of
//! nodes that each keep the exact bytes they were read from.
//!
//! * `model`: the mathematical tree that contracts speak of.
//! * `lexical`: delimiter search and decimal numbers.
//! * `grammar`: the grammar as a function from bytes to a tree or an error.
//! * `laws`: what holds of every input that decodes.
//! * `value`: the nodes, their typed views and the operations that build them.
//! * `decode`: the decoder, `BeeValue::from_bytes`, proved to follow the grammar.
//! * `text`: the one call that is taken on trust, `String::from_utf8`.
//! * `error`: the errors.

pub mod decode;
pub mod error;
pub mod grammar;
pub mod laws;
pub mod lexical;
pub mod model;
pub mod text;
pub mod value;

pub use crate::error::DecodeError;
pub use crate::value::{Bee, BeeValue};
