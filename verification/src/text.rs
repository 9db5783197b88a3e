//! Text helpers: turning decoded byte strings into `String`s and building
//! ASCII output strings character by character.

use vstd::prelude::*;

verus! {

/// Relies on `String::from_utf8` (std): it succeeds exactly on valid UTF-8
/// and returns the string holding those bytes, here stated with vstd's
/// UTF-8 model (`valid_utf8` / `decode_utf8`).
#[verifier::external_body]
pub fn string_from_utf8(b: &Vec<u8>) -> (r: Option<String>)
    ensures
        r is Some <==> vstd::utf8::valid_utf8(b@),
        r matches Some(s) ==> s@ == vstd::utf8::decode_utf8(b@),
{
    String::from_utf8(b.clone()).ok()
}

/// Relies on `String::push` (std): appends the given character to the end
/// of the string.
#[verifier::external_body]
pub fn push_char(s: &mut String, c: char)
    ensures
        final(s)@ == old(s)@ + seq![c],
{
    s.push(c);
}

} // verus!
