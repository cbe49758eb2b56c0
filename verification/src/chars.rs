//! Unicode character classes, as `char`'s methods decide them.
use vstd::prelude::*;

verus! {

/// Whether `c` has the Unicode `Alphabetic` property.
pub uninterp spec fn char_is_alphabetic(c: char) -> bool;

/// Whether `c` is in one of the Unicode general categories for numbers
/// (`Nd`, `Nl`, `No`).
pub uninterp spec fn char_is_numeric(c: char) -> bool;

/// Whether `c` is alphabetic or numeric (this is how `char::is_alphanumeric`
/// is documented).
pub open spec fn char_is_alphanumeric(c: char) -> bool {
    char_is_alphabetic(c) || char_is_numeric(c)
}

/// Whether `c` is an ASCII character.
pub open spec fn is_ascii(c: char) -> bool {
    (c as int) < 128
}

/// The ASCII characters with the Unicode `White_Space` property: tab, line
/// feed, vertical tab, form feed, carriage return and space.
pub open spec fn is_ascii_space(c: char) -> bool {
    c == ' ' || c == '\t' || c == '\n' || c == '\x0B' || c == '\x0C' || c == '\r'
}

/// The characters with the Unicode `White_Space` property (PropList.txt):
/// the ASCII ones of `is_ascii_space`, next line, no-break space, ogham
/// space mark, the spaces from en quad to hair space, line and paragraph
/// separators, narrow no-break space, medium mathematical space and
/// ideographic space.
pub open spec fn whitespace(c: char) -> bool {
    ||| is_ascii_space(c)
    ||| c == '\u{85}'
    ||| c == '\u{A0}'
    ||| c == '\u{1680}'
    ||| ('\u{2000}' <= c && c <= '\u{200A}')
    ||| c == '\u{2028}'
    ||| c == '\u{2029}'
    ||| c == '\u{202F}'
    ||| c == '\u{205F}'
    ||| c == '\u{3000}'
}

/// Alphabetic as `char::is_alphabetic` decides it: among ASCII characters
/// exactly the letters.
pub open spec fn alphabetic(c: char) -> bool {
    if is_ascii(c) {
        is_ascii_letter(c)
    } else {
        char_is_alphabetic(c)
    }
}

/// Numeric as `char::is_numeric` decides it: among ASCII characters exactly
/// the digits.
pub open spec fn numeric(c: char) -> bool {
    if is_ascii(c) {
        is_ascii_digit(c)
    } else {
        char_is_numeric(c)
    }
}

/// Alphabetic or numeric.
pub open spec fn alphanumeric(c: char) -> bool {
    alphabetic(c) || numeric(c)
}

pub open spec fn is_ascii_letter(c: char) -> bool {
    ('a' <= c && c <= 'z') || ('A' <= c && c <= 'Z')
}

pub open spec fn is_ascii_digit(c: char) -> bool {
    '0' <= c && c <= '9'
}

/// Whether `c` has the Unicode `White_Space` property, as
/// `char::is_whitespace` decides it (the whole list is in `whitespace`).
pub fn is_whitespace(c: char) -> (r: bool)
    ensures
        r == whitespace(c),
{
    c == ' ' || c == '\t' || c == '\n' || c == '\x0B' || c == '\x0C' || c == '\r' || c == '\u{85}'
        || c == '\u{A0}' || c == '\u{1680}' || ('\u{2000}' <= c && c <= '\u{200A}') || c == '\u{2028}'
        || c == '\u{2029}' || c == '\u{202F}' || c == '\u{205F}' || c == '\u{3000}'
}

/// Calls `char::is_alphabetic` (the Unicode `Alphabetic` property). Its
/// result is named by `char_is_alphabetic`; among ASCII characters it holds
/// exactly of the letters.
#[verifier::external_body]
pub(crate) fn is_alphabetic(c: char) -> (r: bool)
    ensures
        r == char_is_alphabetic(c),
        r == alphabetic(c),
{
    c.is_alphabetic()
}

/// Calls `char::is_numeric` (general categories `Nd`, `Nl`, `No`). Its
/// result is named by `char_is_numeric`; among ASCII characters it holds
/// exactly of the digits.
#[verifier::external_body]
pub(crate) fn is_numeric(c: char) -> (r: bool)
    ensures
        r == char_is_numeric(c),
        r == numeric(c),
{
    c.is_numeric()
}

/// Calls `char::is_alphanumeric`, which is documented as "alphabetic or
/// numeric"; among ASCII characters it holds exactly of letters and digits.
#[verifier::external_body]
pub(crate) fn is_alphanumeric(c: char) -> (r: bool)
    ensures
        r == char_is_alphanumeric(c),
        r == alphanumeric(c),
{
    c.is_alphanumeric()
}

/// Calls `String::push`, which appends `c` to `s`.
#[verifier::external_body]
pub(crate) fn push_char(s: &mut String, c: char)
    ensures
        final(s)@ == old(s)@.push(c),
{
    s.push(c);
}

} // verus!
