//! Primitives the parser relies on from the standard library: UTF-8 decoding
//! of accumulated field bytes, and the Unicode whitespace test used to decide
//! whether a record is blank.

use vstd::prelude::*;
use vstd::utf8::{decode_utf8, valid_utf8};

verus! {

/// What `char::is_whitespace` returns for `c`: whether the character has the
/// Unicode `White_Space` property, a function of the character alone.
pub uninterp spec fn is_white(c: char) -> bool;

/// Relies on `char::is_whitespace`: its result depends on the character alone.
#[verifier::external_body]
pub(crate) fn char_is_white(c: char) -> (r: bool)
    ensures
        r == is_white(c),
{
    c.is_whitespace()
}

/// Relies on `String::from_utf8`: it succeeds exactly on valid UTF-8 input and
/// then returns the string holding those bytes, whose characters are the UTF-8
/// decoding of the bytes (vstd's `decode_utf8`).
#[verifier::external_body]
pub(crate) fn bytes_to_string(v: &Vec<u8>) -> (r: Option<String>)
    ensures
        r is Some <==> valid_utf8(v@),
        r matches Some(s) ==> s@ == decode_utf8(v@),
{
    String::from_utf8(v.clone()).ok()
}

} // verus!
