//! Character classes and case mapping.
//!
//! On ASCII every class is spelled out. Beyond ASCII a class is whatever the
//! Unicode tables of `std` or of the `regex` crate say.
use vstd::prelude::*;

verus! {

/// Whether `char::is_whitespace` holds of a character beyond ASCII.
pub uninterp spec fn std_whitespace(c: char) -> bool;

/// Whether `char::is_alphabetic` holds of a character beyond ASCII.
pub uninterp spec fn std_alphabetic(c: char) -> bool;

/// Whether `char::is_alphanumeric` holds of a character beyond ASCII.
pub uninterp spec fn std_alphanumeric(c: char) -> bool;

/// What `str::to_lowercase` makes of a text that is not all ASCII.
pub uninterp spec fn std_lowercase(s: Seq<char>) -> Seq<char>;

/// Whether the class `\d` of the `regex` crate holds of a character beyond ASCII.
pub uninterp spec fn regex_digit(c: char) -> bool;

/// Whether the class `\w` of the `regex` crate holds of a character beyond ASCII.
pub uninterp spec fn regex_word(c: char) -> bool;

pub open spec fn ascii(c: char) -> bool {
    (c as u32) < 128
}

pub open spec fn ascii_digit(c: char) -> bool {
    '0' <= c && c <= '9'
}

pub open spec fn ascii_letter(c: char) -> bool {
    ('a' <= c && c <= 'z') || ('A' <= c && c <= 'Z')
}

/// White space, as `char::is_whitespace` has it.
pub open spec fn whitespace(c: char) -> bool {
    if ascii(c) {
        c == ' ' || (9 <= c as u32 && c as u32 <= 13)
    } else {
        std_whitespace(c)
    }
}

/// A letter, as `char::is_alphabetic` has it.
pub open spec fn alphabetic(c: char) -> bool {
    if ascii(c) {
        ascii_letter(c)
    } else {
        std_alphabetic(c)
    }
}

/// A letter or a number, as `char::is_alphanumeric` has it.
pub open spec fn alphanumeric(c: char) -> bool {
    if ascii(c) {
        ascii_letter(c) || ascii_digit(c)
    } else {
        std_alphanumeric(c)
    }
}

/// A decimal digit of any script, as `\d` has it. No white space is one.
pub open spec fn digit(c: char) -> bool {
    if ascii(c) {
        ascii_digit(c)
    } else {
        regex_digit(c) && !std_whitespace(c)
    }
}

/// A word character, as `\w` has it.
pub open spec fn word(c: char) -> bool {
    if ascii(c) {
        ascii_letter(c) || ascii_digit(c) || c == '_'
    } else {
        regex_word(c)
    }
}

/// The lower case of an ASCII letter; any other character is itself.
pub open spec fn ascii_lower(c: char) -> char {
    if 'A' <= c && c <= 'Z' {
        ((c as u32 + 32) as u32) as char
    } else {
        c
    }
}

pub open spec fn all_ascii(s: Seq<char>) -> bool {
    forall|i: int| 0 <= i < s.len() ==> ascii(#[trigger] s[i])
}

/// The lower case of a text, as `str::to_lowercase` has it.
pub open spec fn lowercase(s: Seq<char>) -> Seq<char> {
    if all_ascii(s) {
        s.map_values(|c: char| ascii_lower(c))
    } else {
        std_lowercase(s)
    }
}

/// `char::is_whitespace`: on ASCII the space and the five control characters
/// from tab to carriage return, beyond ASCII the Unicode property `White_Space`.
pub assume_specification[ char::is_whitespace ](c: char) -> (r: bool)
    ensures
        r == (if (c as u32) < 128 {
            c == ' ' || (9 <= c as u32 && c as u32 <= 13)
        } else {
            std_whitespace(c)
        }),
;

/// `char::is_alphabetic`: on ASCII the letters, beyond ASCII the Unicode
/// property `Alphabetic`.
pub assume_specification[ char::is_alphabetic ](c: char) -> (r: bool)
    ensures
        r == (if (c as u32) < 128 {
            ascii_letter(c)
        } else {
            std_alphabetic(c)
        }),
;

/// `char::is_alphanumeric`: on ASCII the letters and digits, beyond ASCII the
/// Unicode letters and numbers.
pub assume_specification[ char::is_alphanumeric ](c: char) -> (r: bool)
    ensures
        r == (if (c as u32) < 128 {
            ascii_letter(c) || ascii_digit(c)
        } else {
            std_alphanumeric(c)
        }),
;

/// `str::to_lowercase`: an ASCII text has its capitals replaced one by one, any
/// other text is mapped by the Unicode tables.
pub assume_specification[ str::to_lowercase ](s: &str) -> (r: String)
    ensures
        r@ == (if all_ascii(s@) {
            s@.map_values(|c: char| ascii_lower(c))
        } else {
            std_lowercase(s@)
        }),
;

/// `Regex::is_match` of the `regex` crate with the pattern `^\d$` on a text of
/// one character: `\d` is the ASCII digits and, beyond ASCII, the Unicode
/// decimal digits, none of which is white space.
#[verifier::external_body]
fn matches_digit_class(c: char) -> (r: bool)
    ensures
        r == (if (c as u32) < 128 {
            ascii_digit(c)
        } else {
            regex_digit(c) && !std_whitespace(c)
        }),
{
    regex::Regex::new(r"^\d$").unwrap().is_match(c.encode_utf8(&mut [0u8; 4]))
}

/// `Regex::is_match` of the `regex` crate with the pattern `^\w$` on a text of
/// one character: `\w` is the ASCII letters, digits and underscore and, beyond
/// ASCII, the Unicode word characters.
#[verifier::external_body]
fn matches_word_class(c: char) -> (r: bool)
    ensures
        r == (if (c as u32) < 128 {
            ascii_letter(c) || ascii_digit(c) || c == '_'
        } else {
            regex_word(c)
        }),
{
    regex::Regex::new(r"^\w$").unwrap().is_match(c.encode_utf8(&mut [0u8; 4]))
}

/// Whether a character is an ASCII digit.
pub fn is_ascii_digit(c: char) -> (r: bool)
    ensures
        r == ascii_digit(c),
{
    '0' <= c && c <= '9'
}

/// Whether a character is an ASCII letter.
pub fn is_ascii_letter(c: char) -> (r: bool)
    ensures
        r == ascii_letter(c),
{
    ('a' <= c && c <= 'z') || ('A' <= c && c <= 'Z')
}

/// Whether a character is a decimal digit of any script.
pub fn is_digit(c: char) -> (r: bool)
    ensures
        r == digit(c),
{
    if (c as u32) < 128 {
        is_ascii_digit(c)
    } else {
        matches_digit_class(c)
    }
}

/// Whether a character is a word character.
pub fn is_word(c: char) -> (r: bool)
    ensures
        r == word(c),
{
    if (c as u32) < 128 {
        is_ascii_letter(c) || is_ascii_digit(c) || c == '_'
    } else {
        matches_word_class(c)
    }
}

} // verus!
