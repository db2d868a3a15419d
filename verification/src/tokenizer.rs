//! The scanners: whitespace, identifiers and expressions.
//!
//! Each scanner reads its token whole or leaves the cursor where it was, so
//! that the parser can decide on the next byte alone.

use vstd::prelude::*;
use crate::classify::{
    is_alnum,
    is_alpha,
    is_whitespace_no_newline,
    is_whitespace_with_newline,
    spec_is_alnum,
    spec_is_whitespace_no_newline,
    spec_is_whitespace_with_newline,
};
use crate::cursor::{lemma_run_taken, SliceReader};
use crate::document::{Expression, Span};
use crate::error::ParseError;
use crate::grammar::{
    after_blanks,
    after_spaces,
    spec_expr,
    spec_ident,
    spec_string,
    DOLLAR,
    QUOTE,
};

verus! {

/// Skips whitespace that stays on the line.
pub fn skip_whitespace<'a>(rd: &mut SliceReader<'a>)
    ensures
        final(rd).text() == old(rd).text(),
        final(rd).pos() == after_spaces(old(rd).text(), old(rd).pos() as int),
        old(rd).pos() <= final(rd).pos() <= old(rd).text().len(),
        final(rd)@ == old(rd)@.skip(final(rd).pos() - old(rd).pos()),
{
    proof {
        use_type_invariant(&*rd);
    }
    let run = rd.pop_front_while(is_whitespace_no_newline);
    proof {
        use_type_invariant(&*rd);
        lemma_run_taken(*old(rd), *rd, run@, |b: u8| spec_is_whitespace_no_newline(b));
    }
}

/// Skips whitespace, line feeds included.
pub fn skip_whitespace_and_newline<'a>(rd: &mut SliceReader<'a>)
    ensures
        final(rd).text() == old(rd).text(),
        final(rd).pos() == after_blanks(old(rd).text(), old(rd).pos() as int),
        old(rd).pos() <= final(rd).pos() <= old(rd).text().len(),
        final(rd)@ == old(rd)@.skip(final(rd).pos() - old(rd).pos()),
{
    proof {
        use_type_invariant(&*rd);
    }
    let run = rd.pop_front_while(is_whitespace_with_newline);
    proof {
        use_type_invariant(&*rd);
        lemma_run_taken(*old(rd), *rd, run@, |b: u8| spec_is_whitespace_with_newline(b));
    }
}

/// Reads an identifier: a letter and the letters and digits that follow it.
/// Where no letter stands at the cursor, nothing is read.
pub fn parse_ident<'a>(rd: &mut SliceReader<'a>) -> (id: Option<Span<'a>>)
    ensures
        final(rd).text() == old(rd).text(),
        match spec_ident(old(rd).text(), old(rd).pos() as int) {
            Some((span, end)) => id matches Some(s) && s@ == span && final(rd).pos() == end,
            None => id is None && final(rd).pos() == old(rd).pos(),
        },
        old(rd).pos() <= final(rd).pos() <= old(rd).text().len(),
        final(rd)@ == old(rd)@.skip(final(rd).pos() - old(rd).pos()),
        id is Some ==> old(rd).pos() < final(rd).pos(),
{
    proof {
        use_type_invariant(&*rd);
    }
    match rd.head() {
        Some(ch) => {
            if is_alpha(ch) {
                let start: usize = rd.position();
                let bytes = rd.pop_front_while(is_alnum);
                proof {
                    use_type_invariant(&*rd);
                    lemma_run_taken(*old(rd), *rd, bytes@, |b: u8| spec_is_alnum(b));
                }
                Some(Span { bytes, start })
            } else {
                None
            }
        },
        None => None,
    }
}

/// Reads the string literal whose opening quote stands at the cursor: the
/// quote, the bytes up to the next quote, and that quote. The span holds the
/// bytes between the two. Where no quote follows, the cursor ends at the end
/// of the text.
pub(crate) fn parse_string<'a>(rd: &mut SliceReader<'a>) -> (r: Result<Span<'a>, ParseError>)
    requires
        old(rd)@.len() > 0,
        old(rd)@[0] == QUOTE,
    ensures
        final(rd).text() == old(rd).text(),
        match spec_string(old(rd).text(), old(rd).pos() as int) {
            Ok((span, end)) => r matches Ok(s) && s@ == span && final(rd).pos() == end,
            Err(e) => r == Err::<Span<'a>, ParseError>(e) && final(rd).pos()
                == old(rd).text().len(),
        },
        old(rd).pos() < final(rd).pos() <= old(rd).text().len(),
        final(rd)@ == old(rd)@.skip(final(rd).pos() - old(rd).pos()),
{
    let open: usize = rd.position();
    let _ = rd.pop_front(1);
    let ghost inside = *rd;
    let start: usize = rd.position();
    let not_quote = |c: u8| -> (keep: bool)
        ensures
            keep == (c != QUOTE),
        { c != QUOTE };
    proof {
        use_type_invariant(&*rd);
    }
    let bytes = rd.pop_front_while(not_quote);
    proof {
        use_type_invariant(&*rd);
        lemma_run_taken(inside, *rd, bytes@, |b: u8| b != QUOTE);
    }
    match rd.head() {
        Some(_) => {
            let _ = rd.pop_front(1);
            Ok(Span { bytes, start })
        },
        None => Err(ParseError::UnterminatedString(open)),
    }
}

/// Reads an expression. A quote opens a string literal, which has to be
/// closed. `$` opens an evaluated expression, which is refused, with nothing
/// read. Any other byte starts no expression, and nothing is read.
pub fn parse_expr<'a>(rd: &mut SliceReader<'a>) -> (r: Result<Option<Expression<'a>>, ParseError>)
    ensures
        final(rd).text() == old(rd).text(),
        match spec_expr(old(rd).text(), old(rd).pos() as int) {
            Ok(Some((value, end))) => r matches Ok(Some(e)) && e@ == value && final(rd).pos()
                == end,
            Ok(None) => r matches Ok(None) && final(rd).pos() == old(rd).pos(),
            Err(e) => r == Err::<Option<Expression<'a>>, ParseError>(e) && final(rd).pos() == (
            if e is UnterminatedString {
                old(rd).text().len()
            } else {
                old(rd).pos()
            }),
        },
        old(rd).pos() <= final(rd).pos() <= old(rd).text().len(),
        final(rd)@ == old(rd)@.skip(final(rd).pos() - old(rd).pos()),
        r matches Ok(Some(_)) ==> old(rd).pos() < final(rd).pos(),
{
    match rd.head() {
        Some(ch) => {
            if ch == QUOTE {
                match parse_string(rd) {
                    Ok(span) => Ok(Some(Expression::Literal(span))),
                    Err(e) => Err(e),
                }
            } else if ch == DOLLAR {
                Err(ParseError::UnsupportedExpression(rd.position()))
            } else {
                Ok(None)
            }
        },
        None => Ok(None),
    }
}

} // verus!
