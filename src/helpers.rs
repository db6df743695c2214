use vstd::prelude::*;

verus! {

/// A decimal digit `0`..`9`.
pub open spec fn digit_char(c: char) -> bool {
    '0' <= c && c <= '9'
}

/// An ASCII letter or the underscore: a character that may start an identifier.
pub open spec fn alpha_char(c: char) -> bool {
    ('a' <= c && c <= 'z') || ('A' <= c && c <= 'Z') || c == '_'
}

/// A character that may continue an identifier.
pub open spec fn alphanumeric_char(c: char) -> bool {
    alpha_char(c) || digit_char(c)
}

pub fn is_digit(c: char) -> (r: bool)
    ensures
        r == digit_char(c),
{
    c >= '0' && c <= '9'
}

pub fn is_alpha(c: char) -> (r: bool)
    ensures
        r == alpha_char(c),
{
    c >= 'a' && c <= 'z' || c >= 'A' && c <= 'Z' || c == '_'
}

pub fn is_alphanumeric(c: char) -> (r: bool)
    ensures
        r == alphanumeric_char(c),
{
    is_alpha(c) || is_digit(c)
}

} // verus!
