//! Strings and characters: what the library takes on trust about the
//! functions of the standard library that it calls on them, and a helper
//! built on what is known of them.

use vstd::prelude::*;

verus! {

/// `str`'s `==`, taken on trust: two string slices are equal exactly when
/// they hold the same characters in the same order.
pub assume_specification[ <str as PartialEq>::eq ](a: &str, b: &str) -> (r: bool)
    ensures
        r == (a@ == b@),
;

/// `String::push`, taken on trust: it appends the given character to the
/// end of the string and changes nothing else.
pub assume_specification[ String::push ](s: &mut String, c: char)
    ensures
        final(s)@ == old(s)@.push(c),
;

/// Whether a character is white space in the sense of `char::is_whitespace`:
/// whether Unicode gives it the property `White_Space`.
pub uninterp spec fn is_white_space(c: char) -> bool;

/// `char::is_whitespace`, taken on trust: its answer depends on the
/// character alone, and it is yes for the blank, the line feed and the
/// no-break space, which its documentation names as examples.
pub assume_specification[ char::is_whitespace ](c: char) -> (r: bool)
    ensures
        r == is_white_space(c),
        c == ' ' || c == '\n' || c == '\u{A0}' ==> r,
;

/// The characters of a string, one element each.
pub fn chars_of(s: &str) -> (v: Vec<char>)
    ensures
        v@ == s@,
{
    let mut v: Vec<char> = Vec::new();
    for c in it: s.chars()
        invariant
            it.seq() == s@,
            v@ == s@.take(it.index() as int),
    {
        v.push(c);
    }
    assert(v@ =~= s@);
    v
}

} // verus!
