//! Character-level helpers shared by the transforms and the scorer.
use vstd::prelude::*;

verus! {

/// Whether `c` is an ASCII lowercase letter.
pub open spec fn is_lower(c: char) -> bool {
    97 <= c as u32 <= 122
}

/// Whether `c` is an ASCII uppercase letter.
pub open spec fn is_upper(c: char) -> bool {
    65 <= c as u32 <= 90
}

/// Whether `c` is an ASCII letter of either case.
pub open spec fn is_letter(c: char) -> bool {
    is_lower(c) || is_upper(c)
}

/// The alphabet index (0 for `a`/`A` up to 25) of an ASCII letter.
pub open spec fn letter_index(c: char) -> int {
    if is_lower(c) {
        c as u32 - 97
    } else {
        c as u32 - 65
    }
}

/// The characters of `s`, in order.
pub fn chars_of(s: &str) -> (r: Vec<char>)
    ensures
        r@ == s@,
{
    let mut r: Vec<char> = Vec::new();
    for c in it: s.chars()
        invariant
            r@ == it.seq().take(it.index() as int),
            it.seq() == s@,
    {
        r.push(c);
    }
    r
}

/// Relies on `String`'s `FromIterator<&char>`: the string holds the
/// characters in order.
#[verifier::external_body]
pub fn string_of(v: &Vec<char>) -> (r: String)
    ensures
        r@ == v@,
{
    v.iter().collect()
}

} // verus!
