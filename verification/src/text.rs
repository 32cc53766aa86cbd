//! Small bridges between `String` and `Vec<char>`, and string-slice equality.
//! The character-level text processing of the engine works on `Vec<char>`;
//! these helpers move between that form and the strings the callers hold.

use vstd::prelude::*;

verus! {

/// Relies on `str::chars`: it yields the characters of the slice, in order,
/// which are exactly the view of the slice.
#[verifier::external_body]
pub(crate) fn str_chars(s: &str) -> (r: Vec<char>)
    ensures
        r@ == s@,
{
    s.chars().collect()
}

/// Relies on `String`'s `FromIterator` over `char`: the collected string
/// holds exactly the characters of the vector, in order.
#[verifier::external_body]
pub(crate) fn chars_to_string(v: &Vec<char>) -> (r: String)
    ensures
        r@ == v@,
{
    v.iter().collect()
}

/// Character-for-character equality of two string slices, through owned
/// strings so that the comparison carries its specification.
pub fn str_eq(a: &str, b: &str) -> (r: bool)
    ensures
        r == (a@ == b@),
{
    let x: String = a.to_owned();
    let y: String = b.to_owned();
    x == y
}

} // verus!
