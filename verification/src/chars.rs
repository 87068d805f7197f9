//! Character classes used by word motion and search.

use vstd::prelude::*;

verus! {

/// What `char::is_alphanumeric` answers: Unicode's Alphabetic or Numeric.
pub uninterp spec fn alphanumeric(c: char) -> bool;

/// What `str::to_lowercase` returns for a string.
pub uninterp spec fn lowercase(s: Seq<char>) -> Seq<char>;

pub open spec fn is_ascii_alphanumeric(c: char) -> bool {
    ('0' <= c <= '9') || ('a' <= c <= 'z') || ('A' <= c <= 'Z')
}

/// `char::is_alphanumeric`. For an ASCII character the result is whether it
/// is an ASCII letter or digit, as the documentation of `is_alphabetic` and
/// `is_numeric` shows; beyond ASCII only the name is stated.
#[verifier::external_body]
pub(crate) fn is_alphanumeric(c: char) -> (yes: bool)
    ensures
        yes == alphanumeric(c),
        (c as u32) < 0x80 ==> (yes <==> is_ascii_alphanumeric(c)),
{
    c.is_alphanumeric()
}

/// `str::to_lowercase`: a function of the string alone (it depends on no
/// locale). On ASCII text it lowers `A`–`Z` and keeps every other character,
/// as Unicode's lowercase mapping of ASCII does.
#[verifier::external_body]
pub(crate) fn to_lowercase(s: &str) -> (lower: String)
    ensures
        lower@ == lowercase(s@),
        (forall|i: int| 0 <= i < s@.len() ==> (#[trigger] s@[i] as u32) < 0x80) ==> lower@ == s@.map_values(
            |c: char| crate::files::ascii_lower(c),
        ),
{
    s.to_lowercase()
}

/// What `char::to_lowercase` yields for a character.
pub uninterp spec fn char_lowercase(c: char) -> Seq<char>;

/// `char::to_lowercase`, its characters collected. It yields one or more
/// characters, and for an ASCII character that character in ASCII lower
/// case, as the documentation of `to_lowercase` and
/// `to_ascii_lowercase` shows; beyond ASCII only the name is stated.
#[verifier::external_body]
pub(crate) fn lower_char(c: char) -> (lower: Vec<char>)
    ensures
        lower@ == char_lowercase(c),
        lower@.len() >= 1,
        (c as u32) < 0x80 ==> lower@ == seq![crate::files::ascii_lower(c)],
{
    c.to_lowercase().collect()
}

/// Unicode's White_Space property, the one `char::is_whitespace` tests.
pub open spec fn spec_is_whitespace(c: char) -> bool {
    let v = c as u32;
    (0x09 <= v <= 0x0d) || v == 0x20 || v == 0x85 || v == 0xa0 || v == 0x1680 || (0x2000 <= v
        <= 0x200a) || v == 0x2028 || v == 0x2029 || v == 0x202f || v == 0x205f || v == 0x3000
}

pub fn is_whitespace(c: char) -> (yes: bool)
    ensures
        yes == spec_is_whitespace(c),
{
    let v = c as u32;
    (0x09 <= v && v <= 0x0d) || v == 0x20 || v == 0x85 || v == 0xa0 || v == 0x1680 || (0x2000 <= v
        && v <= 0x200a) || v == 0x2028 || v == 0x2029 || v == 0x202f || v == 0x205f || v == 0x3000
}

/// Letters, digits and the underscore make up words.
pub open spec fn spec_is_word_char(c: char) -> bool {
    alphanumeric(c) || c == '_'
}

pub fn is_word_char(c: char) -> (yes: bool)
    ensures
        yes == spec_is_word_char(c),
{
    is_alphanumeric(c) || c == '_'
}

/// The class a character belongs to for word motion: 0 for whitespace, 1 for
/// word characters, 2 for anything else (punctuation and symbols).
pub open spec fn char_class(c: char) -> u8 {
    if spec_is_whitespace(c) {
        0
    } else if spec_is_word_char(c) {
        1
    } else {
        2
    }
}

pub fn class_of(c: char) -> (class: u8)
    ensures
        class == char_class(c),
{
    if is_whitespace(c) {
        0
    } else if is_word_char(c) {
        1
    } else {
        2
    }
}

} // verus!
