//! Unicode character properties and case mappings. White space is stated
//! exactly; the case mappings and the letter/number classes come from the
//! standard library's Unicode tables and are named here, not restated.

use vstd::prelude::*;

verus! {

/// The Unicode `White_Space` property, which `char::is_whitespace` tests.
pub open spec fn is_unicode_ws(c: char) -> bool {
    let u = c as u32;
    (0x09 <= u <= 0x0D) || u == 0x20 || u == 0x85 || u == 0xA0 || u == 0x1680
        || (0x2000 <= u <= 0x200A) || u == 0x2028 || u == 0x2029 || u == 0x202F
        || u == 0x205F || u == 0x3000
}

/// Whether `c` has the Unicode `White_Space` property.
pub fn is_whitespace_char(c: char) -> (r: bool)
    ensures
        r == is_unicode_ws(c),
{
    let u = c as u32;
    (0x09 <= u && u <= 0x0D) || u == 0x20 || u == 0x85 || u == 0xA0 || u == 0x1680
        || (0x2000 <= u && u <= 0x200A) || u == 0x2028 || u == 0x2029 || u == 0x202F
        || u == 0x205F || u == 0x3000
}

/// What `str::to_uppercase` returns for a string.
pub uninterp spec fn str_upper(s: Seq<char>) -> Seq<char>;

/// What `str::to_lowercase` returns for a string (final sigma included).
pub uninterp spec fn str_lower(s: Seq<char>) -> Seq<char>;

/// The characters that `char::to_uppercase` yields.
pub uninterp spec fn char_upper(c: char) -> Seq<char>;

/// The characters that `char::to_lowercase` yields.
pub uninterp spec fn char_lower(c: char) -> Seq<char>;

/// `char::is_alphabetic`: the Unicode `Alphabetic` property.
pub uninterp spec fn char_alphabetic(c: char) -> bool;

/// `char::is_alphanumeric`: `Alphabetic` or a Unicode number.
pub uninterp spec fn char_alphanumeric(c: char) -> bool;

/// `char::is_uppercase`: the Unicode `Uppercase` property.
pub uninterp spec fn char_uppercase(c: char) -> bool;

/// `char::is_lowercase`: the Unicode `Lowercase` property.
pub uninterp spec fn char_lowercase(c: char) -> bool;

/// The full uppercase mapping of a string. Calls `str::to_uppercase`.
#[verifier::external_body]
pub(crate) fn to_upper_str(s: &str) -> (r: String)
    ensures
        r@ == str_upper(s@),
{
    s.to_uppercase()
}

/// The full lowercase mapping of a string. Calls `str::to_lowercase`.
#[verifier::external_body]
pub(crate) fn to_lower_str(s: &str) -> (r: String)
    ensures
        r@ == str_lower(s@),
{
    s.to_lowercase()
}

/// The uppercase mapping of one character (one to three characters). Calls
/// `char::to_uppercase`.
#[verifier::external_body]
pub(crate) fn upper_of(c: char) -> (r: Vec<char>)
    ensures
        r@ == char_upper(c),
{
    c.to_uppercase().collect()
}

/// The lowercase mapping of one character. Calls `char::to_lowercase`.
#[verifier::external_body]
pub(crate) fn lower_of(c: char) -> (r: Vec<char>)
    ensures
        r@ == char_lower(c),
{
    c.to_lowercase().collect()
}

/// Calls `char::is_alphabetic`.
#[verifier::external_body]
pub(crate) fn is_alphabetic_char(c: char) -> (r: bool)
    ensures
        r == char_alphabetic(c),
{
    c.is_alphabetic()
}

/// Calls `char::is_alphanumeric`.
#[verifier::external_body]
pub(crate) fn is_alphanumeric_char(c: char) -> (r: bool)
    ensures
        r == char_alphanumeric(c),
{
    c.is_alphanumeric()
}

/// Calls `char::is_uppercase`.
#[verifier::external_body]
pub(crate) fn is_uppercase_char(c: char) -> (r: bool)
    ensures
        r == char_uppercase(c),
{
    c.is_uppercase()
}

/// Calls `char::is_lowercase`.
#[verifier::external_body]
pub(crate) fn is_lowercase_char(c: char) -> (r: bool)
    ensures
        r == char_lowercase(c),
{
    c.is_lowercase()
}

} // verus!
