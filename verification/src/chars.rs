//! Character classes that the cleaning stages rely on.

use vstd::prelude::*;

verus! {

/// Whether a character beyond ASCII carries the Unicode property
/// `White_Space`, as the standard library's tables decide it.
pub uninterp spec fn unicode_white_space(c: char) -> bool;

/// Whether a character beyond ASCII belongs to one of the Unicode general
/// categories for numbers (`Nd`, `Nl`, `No`), as the standard library's
/// tables decide it.
pub uninterp spec fn unicode_numeric(c: char) -> bool;

/// Whitespace in the sense of trimming: within ASCII the space and the
/// controls from tab to carriage return, beyond ASCII whatever carries
/// `White_Space`.
pub open spec fn is_white_space(c: char) -> bool {
    if c <= '\x7f' {
        c == ' ' || ('\t' <= c && c <= '\r')
    } else {
        unicode_white_space(c)
    }
}

/// A numeric character: within ASCII the ten digits, beyond ASCII whatever
/// Unicode classes as a number.
pub open spec fn is_number(c: char) -> bool {
    if c <= '\x7f' {
        '0' <= c && c <= '9'
    } else {
        unicode_numeric(c)
    }
}

/// ASCII case folding of one character: `A` to `Z` move to `a` to `z`,
/// every other character stays.
pub open spec fn ascii_lower(c: char) -> char {
    if 'A' <= c && c <= 'Z' {
        ((c as u8) + 32) as char
    } else {
        c
    }
}

/// `char::is_whitespace`. Trusted: for an ASCII character the answer is
/// spelled out, for any other it is whatever the standard library's
/// `White_Space` table says, which this crate only names.
pub assume_specification[ char::is_whitespace ](c: char) -> (b: bool)
    ensures
        c <= '\x7f' ==> b == (c == ' ' || ('\t' <= c && c <= '\r')),
        c > '\x7f' ==> b == unicode_white_space(c),
;

/// `char::is_numeric`. Trusted: for an ASCII character the answer is the
/// digit test, for any other it is whatever the standard library's number
/// tables say, which this crate only names.
pub assume_specification[ char::is_numeric ](c: char) -> (b: bool)
    ensures
        c <= '\x7f' ==> b == ('0' <= c && c <= '9'),
        c > '\x7f' ==> b == unicode_numeric(c),
;

/// `String::push`. Trusted: the character is appended and nothing else
/// changes.
pub assume_specification[ String::push ](s: &mut String, ch: char)
    ensures
        final(s)@ == old(s)@.push(ch),
;

/// Folds one character to ASCII lower case.
pub fn to_ascii_lower(c: char) -> (r: char)
    ensures
        r == ascii_lower(c),
{
    if 'A' <= c && c <= 'Z' {
        ((c as u8) + 32) as char
    } else {
        c
    }
}

/// Folding never moves a character into or out of the whitespace or the
/// numeric class, and folding twice is folding once.
pub proof fn lemma_ascii_lower_classes(c: char)
    ensures
        is_white_space(ascii_lower(c)) == is_white_space(c),
        is_number(ascii_lower(c)) == is_number(c),
        ascii_lower(ascii_lower(c)) == ascii_lower(c),
        ascii_lower(c) == '\t' <==> c == '\t',
{
}

} // verus!
