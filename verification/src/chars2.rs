//! An external iterator over the characters of a string slice that can hand
//! out, at any time, the part of the slice it has not yet walked.

use vstd::prelude::*;
use std::str::Chars;
use vstd::std_specs::iter::IteratorSpec;
use vstd::utf8::encode_utf8;

verus! {

/// The characters of a string slice, one at a time. `self@` is what is left
/// to walk.
pub struct Chars2<'a> {
    string: &'a str,
}

impl<'a> Clone for Chars2<'a> {
    /// A second iterator that stands where this one stands.
    fn clone(&self) -> (copy: Self)
        ensures
            copy@ == self@,
    {
        Chars2 { string: self.string }
    }
}

impl<'a> View for Chars2<'a> {
    type V = Seq<char>;

    closed spec fn view(&self) -> Seq<char> {
        self.string@
    }
}

/// `Chars::as_str`: the part of the string that the iterator has yet to
/// walk, which holds the characters that it will still give.
#[verifier::external_body]
fn rest_of<'a>(chars: &Chars<'a>) -> (rest: &'a str)
    ensures
        rest@ == chars.remaining(),
{
    chars.as_str()
}

impl<'a> Chars2<'a> {
    /// The part of the slice that is left to walk.
    pub fn remaining(&self) -> (rest: &'a str)
        ensures
            rest@ == self@,
    {
        self.string
    }

    /// Gives the first character that is left and steps over it, or gives
    /// `None` where nothing is left.
    pub fn next(&mut self) -> (c: Option<char>)
        ensures
            old(self)@.len() == 0 ==> c is None && final(self)@ == old(self)@,
            old(self)@.len() > 0 ==> c == Some(old(self)@[0]) && final(self)@
                == old(self)@.drop_first(),
    {
        let mut chars = self.string.chars();
        let c = chars.next();
        self.string = rest_of(&chars);
        c
    }

    /// The number of bytes that hold what is left, in UTF-8.
    pub open spec fn byte_len(&self) -> nat {
        encode_utf8(self@).len()
    }

    /// Bounds on the number of characters that are left, from the number of
    /// bytes that hold them: a character takes one to four bytes.
    pub fn size_hint(&self) -> (hint: (usize, Option<usize>))
        ensures
            self.byte_len() <= usize::MAX,
            hint.1 == Some(self.byte_len() as usize),
            hint.0 == (if self.byte_len() + 3 > usize::MAX {
                usize::MAX as int
            } else {
                (self.byte_len() + 3) as int
            }) / 4,
            hint.0 <= self@.len() <= self.byte_len(),
    {
        let bytes: usize = self.string.as_bytes().len();
        proof {
            lemma_utf8_len(self@);
        }
        (bytes.saturating_add(3) / 4, Some(bytes))
    }
}

/// In UTF-8 a character takes one to four bytes.
pub proof fn lemma_utf8_len(chars: Seq<char>)
    ensures
        chars.len() <= encode_utf8(chars).len() <= 4 * chars.len(),
    decreases chars.len(),
{
    if chars.len() > 0 {
        lemma_utf8_len(chars.drop_first());
    }
}

/// Strings that can be walked by a `Chars2`.
pub trait TChars2<'a> {
    /// The characters of the string.
    spec fn characters(&self) -> Seq<char>;

    /// An iterator over the whole string.
    fn chars2(&self) -> (iter: Chars2<'a>)
        ensures
            iter@ == self.characters(),
    ;
}

impl<'a> TChars2<'a> for &'a str {
    open spec fn characters(&self) -> Seq<char> {
        (*self)@
    }

    fn chars2(&self) -> (iter: Chars2<'a>) {
        Chars2 { string: *self }
    }
}

} // verus!
