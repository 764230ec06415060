//! Conversion from bytes to text.

use vstd::prelude::*;
use vstd::utf8::*;

verus! {

/// Calls `String::from_utf8` of the standard library, which is not verified
/// here. The contract claims what its documentation says: the conversion
/// succeeds exactly on well-formed UTF-8, and the string then holds the
/// characters that the bytes encode.
#[verifier::external_body]
pub(crate) fn string_from_utf8(bytes: Vec<u8>) -> (text: Option<String>)
    ensures
        text is Some <==> valid_utf8(bytes@),
        text is Some ==> text->0@ == decode_utf8(bytes@),
{
    String::from_utf8(bytes).ok()
}

/// `Hash::hash` of the standard library's `String`. Nothing is claimed of
/// what it does to the hasher.
pub assume_specification<H: std::hash::Hasher>[ <String as std::hash::Hash>::hash ](
    text: &String,
    state: &mut H,
);

} // verus!
