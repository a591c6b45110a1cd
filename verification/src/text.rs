//! UTF-8 boundary between stored byte strings and `String` values.

use vstd::prelude::*;
use vstd::utf8::{decode_utf8, valid_utf8};

verus! {

/// Relies on `String::from_utf8`: it returns `Ok` exactly when the bytes
/// are valid UTF-8, and the resulting string decodes those bytes.
#[verifier::external_body]
pub fn bytes_to_string(v: Vec<u8>) -> (r: Option<String>)
    ensures
        r matches Some(s) ==> valid_utf8(v@) && s@ == decode_utf8(v@),
        r is None ==> !valid_utf8(v@),
{
    String::from_utf8(v).ok()
}

/// Relies on `str::from_utf8`: it returns `Ok` exactly when the bytes
/// are valid UTF-8.
#[verifier::external_body]
pub fn utf8_valid(v: &[u8]) -> (r: bool)
    ensures
        r == valid_utf8(v@),
{
    core::str::from_utf8(v).is_ok()
}

} // verus!
