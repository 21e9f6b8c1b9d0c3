//! Bytes as text.

use vstd::prelude::*;
use vstd::utf8::{decode_utf8, valid_utf8};

verus! {

/// The text that `b` encodes in UTF-8, where `b` is valid UTF-8.
pub open spec fn utf8(b: Seq<u8>) -> Option<Seq<char>> {
    if valid_utf8(b) {
        Some(decode_utf8(b))
    } else {
        None
    }
}

/// The view of an optional string.
pub open spec fn opt_text(s: Option<String>) -> Option<Seq<char>> {
    match s {
        Some(t) => Some(t@),
        None => None,
    }
}

/// `std::str::from_utf8`: the text that the bytes encode, or nothing where they are not valid
/// UTF-8.
#[verifier::external_body]
pub(crate) fn from_utf8(b: &[u8]) -> (r: Option<&str>)
    ensures
        r is Some <==> valid_utf8(b@),
        r matches Some(s) ==> s@ == decode_utf8(b@),
{
    std::str::from_utf8(b).ok()
}

/// The text that `String::from_utf8_lossy` makes of the given bytes.
pub uninterp spec fn utf8_lossy(b: Seq<u8>) -> Seq<char>;

/// `String::from_utf8_lossy`: valid UTF-8 is decoded; other bytes give replacement characters in
/// places that the contract does not describe.
#[verifier::external_body]
fn from_utf8_lossy(b: &[u8]) -> (r: String)
    ensures
        r@ == utf8_lossy(b@),
        valid_utf8(b@) ==> r@ == decode_utf8(b@),
{
    String::from_utf8_lossy(b).into_owned()
}

/// The text that the bytes encode; where they are not valid UTF-8, a text that shows which of them
/// are not.
pub open spec fn lossy_text(b: Seq<u8>) -> Seq<char> {
    if valid_utf8(b) {
        decode_utf8(b)
    } else {
        utf8_lossy(b)
    }
}

/// The text that the bytes encode, with replacement characters for what is not valid UTF-8.
pub fn lossy_string(b: &[u8]) -> (r: String)
    ensures
        r@ == lossy_text(b@),
{
    from_utf8_lossy(b)
}

/// The text that the bytes encode, as an owned string.
pub fn utf8_string(b: &[u8]) -> (r: Option<String>)
    ensures
        opt_text(r) == utf8(b@),
{
    match from_utf8(b) {
        Some(s) => Some(s.to_owned()),
        None => None,
    }
}

/// Bytes that are valid UTF-8 are the text that they encode, and other bytes are no text.
pub proof fn law_valid_text_is_not_lost(b: Seq<u8>)
    ensures
        valid_utf8(b) ==> lossy_text(b) == decode_utf8(b) && utf8(b) == Some(decode_utf8(b)),
        !valid_utf8(b) ==> utf8(b) is None,
{
}

} // verus!
