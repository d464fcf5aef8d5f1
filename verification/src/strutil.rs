//! Conversions between strings and character vectors.
//!
//! The rest of the crate reasons about text as `Seq<char>`; these two
//! helpers move between the executable `String`/`&str` types and
//! `Vec<char>` without changing the character sequence.

use vstd::prelude::*;

verus! {

/// Relies on std's `str::chars`: it yields exactly the characters of
/// the slice, in order (the view of a `&str` is that character
/// sequence).
#[verifier::external_body]
pub fn chars_of(s: &str) -> (r: Vec<char>)
    ensures
        r@ == s@,
{
    s.chars().collect()
}

/// Relies on std's `FromIterator` for `String` over `char`: the built
/// string consists of exactly the characters of the vector, in order.
#[verifier::external_body]
pub fn string_from_chars(cs: &Vec<char>) -> (r: String)
    ensures
        r@ == cs@,
{
    cs.iter().collect()
}

} // verus!
