//! Character classification and folding, as the lexer needs it.
//!
//! The Unicode character classes come from `std`'s `char` methods; their
//! tables are named by uninterpreted spec functions and assumed only through
//! the trusted wrappers below.  ASCII upper-casing is small enough to state
//! exactly.

use vstd::prelude::*;

verus! {

/// What `char::is_whitespace` returns for a character.
pub uninterp spec fn is_whitespace_c(c: char) -> bool;

/// What `char::is_numeric` returns for a character.
pub uninterp spec fn is_numeric_c(c: char) -> bool;

/// What `char::is_alphabetic` returns for a character.
pub uninterp spec fn is_alphabetic_c(c: char) -> bool;

/// `char::is_alphanumeric` is documented as `is_alphabetic() || is_numeric()`.
pub open spec fn is_alnum_c(c: char) -> bool {
    is_alphabetic_c(c) || is_numeric_c(c)
}

/// An ASCII lower-case letter, `'a'..='z'`.
pub open spec fn is_ascii_lower(c: char) -> bool {
    97 <= c as u32 && c as u32 <= 122
}

/// ASCII upper-casing: `'a'..='z'` map to `'A'..='Z'` (code point minus 32);
/// every other character is unchanged.
pub open spec fn upper_char(c: char) -> char {
    if is_ascii_lower(c) {
        ((c as u32 - 32) as u32) as char
    } else {
        c
    }
}

/// Relies on `char::is_whitespace`: the White_Space property, a function of
/// the character alone.
#[verifier::external_body]
pub(crate) fn char_is_whitespace(c: char) -> (r: bool)
    ensures
        r == is_whitespace_c(c),
{
    c.is_whitespace()
}

/// Relies on `char::is_numeric`: the number general categories, a function of
/// the character alone.
#[verifier::external_body]
pub(crate) fn char_is_numeric(c: char) -> (r: bool)
    ensures
        r == is_numeric_c(c),
{
    c.is_numeric()
}

/// Relies on `char::is_alphabetic`: the Alphabetic property, a function of
/// the character alone.
#[verifier::external_body]
pub(crate) fn char_is_alphabetic(c: char) -> (r: bool)
    ensures
        r == is_alphabetic_c(c),
{
    c.is_alphabetic()
}

/// Relies on `char::is_alphanumeric`, documented as returning
/// `is_alphabetic() || is_numeric()`.
#[verifier::external_body]
pub(crate) fn char_is_alphanumeric(c: char) -> (r: bool)
    ensures
        r == is_alnum_c(c),
{
    c.is_alphanumeric()
}

/// Relies on `char::to_ascii_uppercase`: maps `'a'..='z'` to `'A'..='Z'` and
/// leaves every other character unchanged.
#[verifier::external_body]
pub(crate) fn char_to_upper(c: char) -> (r: char)
    ensures
        r == upper_char(c),
{
    c.to_ascii_uppercase()
}

/// Relies on `String`'s `FromIterator<char>`: collects exactly the characters
/// of the slice, in order.
#[verifier::external_body]
pub(crate) fn chars_to_string(s: &[char]) -> (r: String)
    ensures
        r@ == s@,
{
    s.iter().collect()
}

/// Upper-casing never yields an ASCII lower-case letter.
pub proof fn lemma_upper_not_lower(c: char)
    ensures
        !is_ascii_lower(upper_char(c)),
{
    if is_ascii_lower(c) {
        let u = (c as u32 - 32) as u32;
        assert(65 <= u && u <= 90);
        assert((u as char) as u32 == u);
    }
}

} // verus!
