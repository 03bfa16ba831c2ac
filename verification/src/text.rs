//! Telling text from raw bytes.

use vstd::prelude::*;
use vstd::utf8::{encode_utf8, valid_utf8};

verus! {

/// `String::from_utf8`, with its error dropped.
///
/// Taken on trust from the standard library: the call succeeds exactly on
/// valid UTF-8, and the string it then returns is made of the bytes given,
/// so that these are its UTF-8 encoding.
#[verifier::external_body]
pub(crate) fn text_of(bytes: Vec<u8>) -> (r: Option<String>)
    ensures
        r is Some <==> valid_utf8(bytes@),
        r matches Some(text) ==> encode_utf8(text@) == bytes@,
{
    String::from_utf8(bytes).ok()
}

} // verus!
