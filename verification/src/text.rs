//! Conversions between `String`/`&str` and `Vec<char>`, the character-buffer
//! form the verified code works on.

use vstd::prelude::*;

verus! {

/// Relies on `str::chars`: iterating a string slice yields exactly the
/// characters of its view, in order.
#[verifier::external_body]
pub(crate) fn str_to_chars(s: &str) -> (v: Vec<char>)
    ensures
        v@ == s@,
{
    s.chars().collect()
}

/// Relies on `String`'s `FromIterator<char>` implementation: collecting
/// characters builds the string of exactly those characters, in order.
#[verifier::external_body]
pub(crate) fn chars_to_string(v: &Vec<char>) -> (s: String)
    ensures
        s@ == v@,
{
    v.iter().collect()
}

} // verus!
