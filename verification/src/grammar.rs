//! The grammar, as functions from a text and an offset to what is read at
//! that offset and the offset just after it.
//!
//! ```text
//! element     := blanks tag attribute* text? child_block?
//! tag         := identifier
//! attribute   := spaces identifier spaces "=" spaces expression
//! text        := string
//! child_block := blanks "{" (element)* blanks "}"
//! expression  := string | "$" ...
//! string      := '"' (any byte but '"')* '"'
//! identifier  := letter (letter | digit)*
//! spaces      := (" " | "\t" | "\r")*
//! blanks      := (" " | "\t" | "\r" | "\n")*
//! ```
//!
//! The attributes and the text of an element start on the line of its tag. A
//! child block may follow on a later line. Blocks nest at most `MAX_DEPTH`
//! deep. The syntax after `$` is not defined: such an expression is an error.

use vstd::prelude::*;
use crate::classify::{
    spec_is_alnum,
    spec_is_alpha,
    spec_is_whitespace_no_newline,
    spec_is_whitespace_with_newline,
};
use crate::cursor::{lemma_run_end, run_end};
use crate::document::{AttributeView, DocumentView, ElementView, ExpressionView, SpanView};
use crate::error::ParseError;

verus! {

/// `"`, which opens and closes a string literal.
pub const QUOTE: u8 = 0x22;

/// `$`, which opens an evaluated expression.
pub const DOLLAR: u8 = 0x24;

/// `=`, which stands between the name and the value of an attribute.
pub const EQUALS: u8 = 0x3d;

/// `{`, which opens a child block.
pub const OPEN_BRACE: u8 = 0x7b;

/// `}`, which closes a child block.
pub const CLOSE_BRACE: u8 = 0x7d;

/// How deep child blocks may nest below the element that `parse` returns.
pub const MAX_DEPTH: usize = 128;

/// The offset of the first byte at or after `pos` that is no same-line
/// whitespace.
pub open spec fn after_spaces(buf: Seq<u8>, pos: int) -> int {
    run_end(buf, pos, |b: u8| spec_is_whitespace_no_newline(b))
}

/// The offset of the first byte at or after `pos` that is no whitespace.
pub open spec fn after_blanks(buf: Seq<u8>, pos: int) -> int {
    run_end(buf, pos, |b: u8| spec_is_whitespace_with_newline(b))
}

/// The offset at which the run of letters and digits from `pos` ends.
pub open spec fn ident_end(buf: Seq<u8>, pos: int) -> int {
    run_end(buf, pos, |b: u8| spec_is_alnum(b))
}

/// The offset of the first quote at or after `pos`, or the length of the
/// text where there is none.
pub open spec fn string_end(buf: Seq<u8>, pos: int) -> int {
    run_end(buf, pos, |b: u8| b != QUOTE)
}

/// The bytes of `buf` from `from` up to `to`, as a span.
pub open spec fn span_at(buf: Seq<u8>, from: int, to: int) -> SpanView {
    SpanView { start: from, bytes: buf.subrange(from, to) }
}

/// What is wrong where a token has to start at `pos` and none does.
pub open spec fn missing_token(buf: Seq<u8>, pos: int) -> ParseError {
    if 0 <= pos < buf.len() {
        ParseError::UnexpectedCharacter(buf[pos], pos as usize)
    } else {
        ParseError::EndOfInput
    }
}

/// The identifier that starts at `pos`, if a letter stands there.
pub open spec fn spec_ident(buf: Seq<u8>, pos: int) -> Option<(SpanView, int)> {
    if 0 <= pos < buf.len() && spec_is_alpha(buf[pos]) {
        let end = ident_end(buf, pos);
        Some((span_at(buf, pos, end), end))
    } else {
        None
    }
}

/// The string literal whose opening quote stands at `pos`: the span between
/// the quotes and the offset after the closing quote.
pub open spec fn spec_string(buf: Seq<u8>, pos: int) -> Result<(SpanView, int), ParseError> {
    let close = string_end(buf, pos + 1);
    if close < buf.len() {
        Ok((span_at(buf, pos + 1, close), close + 1))
    } else {
        Err(ParseError::UnterminatedString(pos as usize))
    }
}

/// The expression that starts at `pos`, if a quote or `$` stands there.
pub open spec fn spec_expr(buf: Seq<u8>, pos: int) -> Result<
    Option<(ExpressionView, int)>,
    ParseError,
> {
    if 0 <= pos < buf.len() && buf[pos] == QUOTE {
        match spec_string(buf, pos) {
            Ok((span, next)) => Ok(Some((ExpressionView::Literal(span), next))),
            Err(e) => Err(e),
        }
    } else if 0 <= pos < buf.len() && buf[pos] == DOLLAR {
        Err(ParseError::UnsupportedExpression(pos as usize))
    } else {
        Ok(None)
    }
}

/// The attributes from `pos` on, in the order of the text. The list ends,
/// after same-line whitespace, where no identifier starts.
pub open spec fn spec_attributes(buf: Seq<u8>, pos: int) -> Result<
    (Seq<AttributeView>, int),
    ParseError,
>
    decreases buf.len() - pos,
    via spec_attributes_decreases
{
    let name_at = after_spaces(buf, pos);
    match spec_ident(buf, name_at) {
        None => Ok((Seq::empty(), name_at)),
        Some((name, name_end)) => {
            let equals_at = after_spaces(buf, name_end);
            if 0 <= equals_at < buf.len() && buf[equals_at] == EQUALS {
                let value_at = after_spaces(buf, equals_at + 1);
                match spec_expr(buf, value_at) {
                    Err(e) => Err(e),
                    Ok(None) => Err(missing_token(buf, value_at)),
                    Ok(Some((value, value_end))) => match spec_attributes(buf, value_end) {
                        Err(e) => Err(e),
                        Ok((rest, next)) => Ok(
                            (seq![AttributeView { name, value }] + rest, next),
                        ),
                    },
                }
            } else {
                Err(missing_token(buf, equals_at))
            }
        },
    }
}

/// The text of an element: the string literal at `pos`, if a quote stands
/// there.
pub open spec fn spec_text(buf: Seq<u8>, pos: int) -> Result<(Option<SpanView>, int), ParseError> {
    if 0 <= pos < buf.len() && buf[pos] == QUOTE {
        match spec_string(buf, pos) {
            Ok((span, next)) => Ok((Some(span), next)),
            Err(e) => Err(e),
        }
    } else {
        Ok((None, pos))
    }
}

/// The element that starts at or after `pos`, with child blocks nested at
/// most `depth` deep, and the offset after it. Whitespace after an element
/// without a child block belongs to the element.
pub open spec fn spec_element(buf: Seq<u8>, pos: int, depth: nat) -> Result<
    (ElementView, int),
    ParseError,
>
    decreases depth, buf.len() - pos, 0int,
    via spec_element_decreases
{
    let tag_at = after_blanks(buf, pos);
    match spec_ident(buf, tag_at) {
        None => Err(missing_token(buf, tag_at)),
        Some((tag, tag_end)) => match spec_attributes(buf, tag_end) {
            Err(e) => Err(e),
            Ok((attributes, text_at)) => match spec_text(buf, text_at) {
                Err(e) => Err(e),
                Ok((text, text_end)) => {
                    let block_at = after_blanks(buf, text_end);
                    if 0 <= block_at < buf.len() && buf[block_at] == OPEN_BRACE {
                        if depth == 0 {
                            Err(ParseError::UnexpectedCharacter(OPEN_BRACE, block_at as usize))
                        } else {
                            match spec_children(buf, block_at + 1, (depth - 1) as nat) {
                                Err(e) => Err(e),
                                Ok((children, next)) => Ok(
                                    (ElementView { tag, attributes, children, text }, next),
                                ),
                            }
                        }
                    } else {
                        Ok(
                            (
                                ElementView { tag, attributes, children: Seq::empty(), text },
                                block_at,
                            ),
                        )
                    }
                },
            },
        },
    }
}

/// The elements of a child block from `pos` on, up to the brace that closes
/// the block, and the offset after that brace.
///
/// An element ends after the offset at which it starts
/// (`lemma_element_advances`); the test for it here is what makes the
/// definition well-founded, and never fails.
pub open spec fn spec_children(buf: Seq<u8>, pos: int, depth: nat) -> Result<
    (Seq<DocumentView>, int),
    ParseError,
>
    decreases depth, buf.len() - pos, 1int,
    via spec_children_decreases
{
    let child_at = after_blanks(buf, pos);
    if 0 <= child_at < buf.len() && buf[child_at] == CLOSE_BRACE {
        Ok((Seq::empty(), child_at + 1))
    } else if 0 <= child_at < buf.len() {
        match spec_element(buf, child_at, depth) {
            Err(e) => Err(e),
            Ok((child, child_end)) => if child_at < child_end <= buf.len() {
                match spec_children(buf, child_end, depth) {
                    Err(e) => Err(e),
                    Ok((rest, next)) => Ok((seq![DocumentView::Element(child)] + rest, next)),
                }
            } else {
                Err(ParseError::EndOfInput)
            },
        }
    } else {
        Err(ParseError::EndOfInput)
    }
}

/// What parsing a whole buffer gives: its first element.
pub open spec fn spec_parse(buf: Seq<u8>) -> Result<ElementView, ParseError> {
    match spec_element(buf, 0, MAX_DEPTH as nat) {
        Ok((element, _)) => Ok(element),
        Err(e) => Err(e),
    }
}

/// Attributes end at or after the offset at which they start, inside the
/// text.
pub proof fn lemma_attributes_bounds(buf: Seq<u8>, pos: int)
    requires
        0 <= pos <= buf.len(),
    ensures
        spec_attributes(buf, pos) matches Ok((_, end)) ==> pos <= end <= buf.len(),
    decreases buf.len() - pos,
{
    let name_at = after_spaces(buf, pos);
    lemma_run_end(buf, pos, |b: u8| spec_is_whitespace_no_newline(b));
    if let Some((name, name_end)) = spec_ident(buf, name_at) {
        lemma_run_end(buf, name_at, |b: u8| spec_is_alnum(b));
        let equals_at = after_spaces(buf, name_end);
        lemma_run_end(buf, name_end, |b: u8| spec_is_whitespace_no_newline(b));
        if 0 <= equals_at < buf.len() && buf[equals_at] == EQUALS {
            let value_at = after_spaces(buf, equals_at + 1);
            lemma_run_end(buf, equals_at + 1, |b: u8| spec_is_whitespace_no_newline(b));
            lemma_run_end(buf, value_at + 1, |b: u8| b != QUOTE);
            if let Ok(Some((value, value_end))) = spec_expr(buf, value_at) {
                lemma_attributes_bounds(buf, value_end);
            }
        }
    }
}

/// An element ends after the offset at which its tag starts, inside the
/// text: it holds at least the first letter of its tag.
pub proof fn lemma_element_advances(buf: Seq<u8>, pos: int, depth: nat)
    requires
        0 <= pos <= buf.len(),
    ensures
        spec_element(buf, pos, depth) matches Ok((_, end)) ==> pos <= after_blanks(buf, pos) < end
            <= buf.len(),
    decreases depth, buf.len() - pos, 0int,
{
    let tag_at = after_blanks(buf, pos);
    lemma_run_end(buf, pos, |b: u8| spec_is_whitespace_with_newline(b));
    if let Some((tag, tag_end)) = spec_ident(buf, tag_at) {
        lemma_run_end(buf, tag_at, |b: u8| spec_is_alnum(b));
        lemma_attributes_bounds(buf, tag_end);
        if let Ok((attributes, text_at)) = spec_attributes(buf, tag_end) {
            lemma_run_end(buf, text_at + 1, |b: u8| b != QUOTE);
            if let Ok((text, text_end)) = spec_text(buf, text_at) {
                let block_at = after_blanks(buf, text_end);
                lemma_run_end(buf, text_end, |b: u8| spec_is_whitespace_with_newline(b));
                if 0 <= block_at < buf.len() && buf[block_at] == OPEN_BRACE && depth > 0 {
                    lemma_children_advance(buf, block_at + 1, (depth - 1) as nat);
                }
            }
        }
    }
}

/// A child block ends after the offset at which it starts, inside the text:
/// it holds at least the brace that closes it.
pub proof fn lemma_children_advance(buf: Seq<u8>, pos: int, depth: nat)
    requires
        0 <= pos <= buf.len(),
    ensures
        spec_children(buf, pos, depth) matches Ok((_, end)) ==> pos < end <= buf.len(),
    decreases depth, buf.len() - pos, 1int,
{
    let child_at = after_blanks(buf, pos);
    lemma_run_end(buf, pos, |b: u8| spec_is_whitespace_with_newline(b));
    if 0 <= child_at < buf.len() && buf[child_at] != CLOSE_BRACE {
        lemma_element_advances(buf, child_at, depth);
        if let Ok((child, child_end)) = spec_element(buf, child_at, depth) {
            if child_at < child_end <= buf.len() {
                lemma_children_advance(buf, child_end, depth);
            }
        }
    }
}

/// The children from `pos` on are the first child and the children after
/// it: the test in `spec_children` that a child ends after its start never
/// fails.
pub proof fn lemma_children_unfold(buf: Seq<u8>, pos: int, depth: nat)
    ensures
        spec_children(buf, pos, depth) == ({
            let child_at = after_blanks(buf, pos);
            if 0 <= child_at < buf.len() && buf[child_at] == CLOSE_BRACE {
                Ok((Seq::empty(), child_at + 1))
            } else if 0 <= child_at < buf.len() {
                match spec_element(buf, child_at, depth) {
                    Err(e) => Err(e),
                    Ok((child, child_end)) => match spec_children(buf, child_end, depth) {
                        Err(e) => Err(e),
                        Ok((rest, next)) => Ok((seq![DocumentView::Element(child)] + rest, next)),
                    },
                }
            } else {
                Err(ParseError::EndOfInput)
            }
        }),
{
    let child_at = after_blanks(buf, pos);
    if 0 <= child_at < buf.len() {
        lemma_element_advances(buf, child_at, depth);
    }
}

#[via_fn]
proof fn spec_attributes_decreases(buf: Seq<u8>, pos: int) {
    let name_at = after_spaces(buf, pos);
    lemma_run_end(buf, pos, |b: u8| spec_is_whitespace_no_newline(b));
    if let Some((name, name_end)) = spec_ident(buf, name_at) {
        lemma_run_end(buf, name_at, |b: u8| spec_is_alnum(b));
        let equals_at = after_spaces(buf, name_end);
        lemma_run_end(buf, name_end, |b: u8| spec_is_whitespace_no_newline(b));
        if 0 <= equals_at < buf.len() && buf[equals_at] == EQUALS {
            let value_at = after_spaces(buf, equals_at + 1);
            lemma_run_end(buf, equals_at + 1, |b: u8| spec_is_whitespace_no_newline(b));
            lemma_run_end(buf, value_at + 1, |b: u8| b != QUOTE);
        }
    }
}

#[via_fn]
proof fn spec_element_decreases(buf: Seq<u8>, pos: int, depth: nat) {
}

#[via_fn]
proof fn spec_children_decreases(buf: Seq<u8>, pos: int, depth: nat) {
    lemma_run_end(buf, pos, |b: u8| spec_is_whitespace_with_newline(b));
}

} // verus!
