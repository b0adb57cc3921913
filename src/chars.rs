//! Character classes that the scanner decides on.
use vstd::prelude::*;

verus! {

/// `(` or `)`.
pub open spec fn is_paren(c: char) -> bool {
    c == '(' || c == ')'
}

/// An ASCII decimal digit.
pub open spec fn is_digit(c: char) -> bool {
    '0' <= c && c <= '9'
}

/// An ASCII letter.
pub open spec fn is_ascii_letter(c: char) -> bool {
    ('a' <= c && c <= 'z') || ('A' <= c && c <= 'Z')
}

/// Unicode's White_Space property: tab, line feed, vertical tab, form feed,
/// carriage return and space, and beyond ASCII next line, no-break space,
/// ogham space mark, the spaces from en quad to hair space, the line and
/// paragraph separators, narrow no-break space, medium mathematical space and
/// ideographic space.
pub open spec fn is_white_space(c: char) -> bool {
    let u = c as u32;
    ||| 0x09 <= u && u <= 0x0d
    ||| u == 0x20
    ||| u == 0x85
    ||| u == 0xa0
    ||| u == 0x1680
    ||| 0x2000 <= u && u <= 0x200a
    ||| u == 0x2028
    ||| u == 0x2029
    ||| u == 0x202f
    ||| u == 0x205f
    ||| u == 0x3000
}

/// Whether a character outside ASCII has Unicode's Alphabetic property, as the
/// standard library's tables say.
pub uninterp spec fn alphabetic_beyond_ascii(c: char) -> bool;

/// Unicode's Alphabetic property. Within ASCII it holds of the letters alone;
/// beyond ASCII the standard library's tables decide.
pub open spec fn is_alphabetic(c: char) -> bool {
    if (c as u32) < 0x80 {
        is_ascii_letter(c)
    } else {
        alphabetic_beyond_ascii(c)
    }
}

/// Tests for an ASCII decimal digit.
pub fn is_digit_char(c: char) -> (r: bool)
    ensures
        r == is_digit(c),
{
    '0' <= c && c <= '9'
}

/// Relies on `char::is_whitespace`: true exactly of the characters with the
/// White_Space property.
#[verifier::external_body]
pub(crate) fn is_white_space_char(c: char) -> (r: bool)
    ensures
        r == is_white_space(c),
{
    c.is_whitespace()
}

/// Relies on `char::is_alphabetic`: true exactly of the characters with the
/// Alphabetic property, which within ASCII are the letters.
#[verifier::external_body]
pub(crate) fn is_alphabetic_char(c: char) -> (r: bool)
    ensures
        (c as u32) < 0x80 ==> (r == is_ascii_letter(c)),
        (c as u32) >= 0x80 ==> (r == alphabetic_beyond_ascii(c)),
{
    c.is_alphabetic()
}

/// Relies on `String::push`: appends one character at the end.
#[verifier::external_body]
pub(crate) fn push_char(s: &mut String, c: char)
    ensures
        final(s)@ == old(s)@.push(c),
{
    s.push(c)
}

} // verus!
