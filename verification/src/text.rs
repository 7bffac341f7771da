//! Trusted specifications of the two `std` text operations that vstd does
//! not specify.

use vstd::prelude::*;

verus! {

/// What `char::is_alphanumeric` returns for a character beyond ASCII. Its
/// answer comes from the Unicode tables of the standard library, so it is
/// named rather than written out.
pub uninterp spec fn spec_is_alphanumeric(c: char) -> bool;

/// The ASCII letters and digits.
pub open spec fn is_ascii_alphanumeric(c: char) -> bool {
    ('a' <= c && c <= 'z') || ('A' <= c && c <= 'Z') || ('0' <= c && c <= '9')
}

/// Whether `char::is_alphanumeric` holds of `c`: for an ASCII character,
/// exactly when it is a letter or a digit; beyond ASCII, as the Unicode
/// tables say.
pub open spec fn char_is_alphanumeric(c: char) -> bool {
    if c <= '\u{7f}' {
        is_ascii_alphanumeric(c)
    } else {
        spec_is_alphanumeric(c)
    }
}

/// Calls `char::is_alphanumeric`. The contract states its answer on ASCII
/// characters (a letter or a digit, as the standard library's code tests
/// for them) and ties its answer beyond ASCII to the character through
/// `spec_is_alphanumeric`; nothing about the Unicode tables is stated.
#[verifier::external_body]
pub(crate) fn is_alphanumeric(c: char) -> (r: bool)
    ensures
        c <= '\u{7f}' ==> r == is_ascii_alphanumeric(c),
        c > '\u{7f}' ==> r == spec_is_alphanumeric(c),
{
    c.is_alphanumeric()
}

/// Calls `String::push`, which, as its documentation says, appends the
/// character to the end of the string.
#[verifier::external_body]
pub(crate) fn push_char(s: &mut String, c: char)
    ensures
        final(s)@ == old(s)@.push(c),
{
    s.push(c)
}

} // verus!
