//! Byte classification. Only the ASCII range is classified: a byte above
//! `0x7f` satisfies none of the predicates.

use vstd::prelude::*;

verus! {

/// ASCII letters `A`-`Z` and `a`-`z`.
pub open spec fn spec_is_alpha(ch: u8) -> bool {
    (('a' as u8) <= ch && ch <= ('z' as u8)) || (('A' as u8) <= ch && ch <= ('Z' as u8))
}

/// ASCII letters and the digits `0`-`9`.
pub open spec fn spec_is_alnum(ch: u8) -> bool {
    (('0' as u8) <= ch && ch <= ('9' as u8)) || spec_is_alpha(ch)
}

/// Space, tab and carriage return: the whitespace that stays on a line.
pub open spec fn spec_is_whitespace_no_newline(ch: u8) -> bool {
    ch == (' ' as u8) || ch == ('\t' as u8) || ch == ('\r' as u8)
}

/// Space, tab, carriage return and line feed.
pub open spec fn spec_is_whitespace_with_newline(ch: u8) -> bool {
    spec_is_whitespace_no_newline(ch) || ch == ('\n' as u8)
}

#[verifier::when_used_as_spec(spec_is_alpha)]
pub fn is_alpha(ch: u8) -> (r: bool)
    ensures
        r == spec_is_alpha(ch),
{
    if ch >= ('a' as u8) && ch <= ('z' as u8) {
        return true;
    }
    if ch >= ('A' as u8) && ch <= ('Z' as u8) {
        return true;
    }
    false
}

#[verifier::when_used_as_spec(spec_is_alnum)]
pub fn is_alnum(ch: u8) -> (r: bool)
    ensures
        r == spec_is_alnum(ch),
{
    if ch >= ('0' as u8) && ch <= ('9' as u8) {
        return true;
    }
    if is_alpha(ch) {
        return true;
    }
    false
}

#[verifier::when_used_as_spec(spec_is_whitespace_no_newline)]
pub fn is_whitespace_no_newline(ch: u8) -> (r: bool)
    ensures
        r == spec_is_whitespace_no_newline(ch),
{
    ch == (' ' as u8) || ch == ('\t' as u8) || ch == ('\r' as u8)
}

#[verifier::when_used_as_spec(spec_is_whitespace_with_newline)]
pub fn is_whitespace_with_newline(ch: u8) -> (r: bool)
    ensures
        r == spec_is_whitespace_with_newline(ch),
{
    is_whitespace_no_newline(ch) || ch == ('\n' as u8)
}

/// No byte outside the ASCII range is a letter, a digit or whitespace.
pub proof fn lemma_non_ascii_unclassified(ch: u8)
    requires
        ch > 0x7f,
    ensures
        !spec_is_alpha(ch),
        !spec_is_alnum(ch),
        !spec_is_whitespace_no_newline(ch),
        !spec_is_whitespace_with_newline(ch),
{
}

/// The classes are nested: letters are alphanumeric, and same-line
/// whitespace is whitespace. No alphanumeric byte is whitespace.
pub proof fn lemma_class_inclusions(ch: u8)
    ensures
        spec_is_alpha(ch) ==> spec_is_alnum(ch),
        spec_is_whitespace_no_newline(ch) ==> spec_is_whitespace_with_newline(ch),
        spec_is_alnum(ch) ==> !spec_is_whitespace_with_newline(ch),
{
}

} // verus!
