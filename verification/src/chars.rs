//! Character predicates used by the classifier and the dataset parser.
//!
//! Unicode-table predicates (`is_alphabetic`, `is_whitespace`) are taken from
//! std behind named specifications; the simple code-point tests are defined
//! and proved here directly.

use vstd::prelude::*;

verus! {

/// Whether `c` has the Unicode `Alphabetic` property, as decided by
/// `char::is_alphabetic`. The result depends on the character alone.
pub uninterp spec fn alphabetic(c: char) -> bool;

/// Whether `c` has the Unicode `White_Space` property, as decided by
/// `char::is_whitespace`. The result depends on the character alone.
pub uninterp spec fn whitespace(c: char) -> bool;

/// Relies on `char::is_alphabetic`: a pure table lookup of the Unicode
/// `Alphabetic` property of `c`.
#[verifier::external_body]
pub(crate) fn char_is_alphabetic(c: char) -> (r: bool)
    ensures
        r == alphabetic(c),
{
    c.is_alphabetic()
}

/// Relies on `char::is_whitespace`: a pure table lookup of the Unicode
/// `White_Space` property of `c`.
#[verifier::external_body]
pub(crate) fn char_is_whitespace(c: char) -> (r: bool)
    ensures
        r == whitespace(c),
{
    c.is_whitespace()
}

/// The classifier's Latin test: the code point lies in the inclusive range
/// U+0030..U+007A. This is a plain range test, not a Unicode property.
pub open spec fn latin_range(c: char) -> bool {
    0x30 <= c as int <= 0x7A
}

/// Executable form of [`latin_range`].
pub fn char_in_latin_range(c: char) -> (r: bool)
    ensures
        r == latin_range(c),
{
    let u = c as u32;
    0x30 <= u && u <= 0x7A
}

/// An ASCII decimal digit.
pub open spec fn decimal_digit(c: char) -> bool {
    0x30 <= c as int <= 0x39
}

/// The numeric value of an ASCII decimal digit.
pub open spec fn digit_value(c: char) -> int {
    c as int - 0x30
}

/// Executable form of [`decimal_digit`].
pub fn char_is_decimal_digit(c: char) -> (r: bool)
    ensures
        r == decimal_digit(c),
{
    let u = c as u32;
    0x30 <= u && u <= 0x39
}

} // verus!
