//! Unicode character classes used by the expression tokenizers.
use vstd::prelude::*;

verus! {

/// `char::is_alphabetic`: the Unicode `Alphabetic` property.
pub uninterp spec fn unicode_alphabetic(c: char) -> bool;

/// `char::is_numeric`: the Unicode general categories `Nd`, `Nl` and `No`.
pub uninterp spec fn unicode_numeric(c: char) -> bool;

/// ASCII letters.
pub open spec fn is_ascii_alpha(c: char) -> bool {
    ('a' <= c && c <= 'z') || ('A' <= c && c <= 'Z')
}

/// Calls `char::is_alphabetic`. Claimed: the answer is the `Alphabetic` property of `c`, which
/// among ASCII characters holds exactly of the letters.
#[verifier::external_body]
pub(crate) fn is_alphabetic(c: char) -> (r: bool)
    ensures
        r == unicode_alphabetic(c),
        (c as u32) < 128 ==> (r <==> is_ascii_alpha(c)),
{
    c.is_alphabetic()
}

/// Calls `char::is_alphanumeric`, documented as `is_alphabetic() || is_numeric()`. Claimed:
/// exactly that, where among ASCII characters the numeric ones are the digits.
#[verifier::external_body]
pub(crate) fn is_alphanumeric(c: char) -> (r: bool)
    ensures
        r == (unicode_alphabetic(c) || unicode_numeric(c)),
        (c as u32) < 128 ==> (r <==> (is_ascii_alpha(c) || ('0' <= c && c <= '9'))),
{
    c.is_alphanumeric()
}

/// `char::is_alphanumeric` as a predicate.
pub open spec fn alnum(c: char) -> bool {
    unicode_alphabetic(c) || unicode_numeric(c)
}

} // verus!
