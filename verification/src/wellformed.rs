//! What holds of every tree that the grammar yields.

use vstd::prelude::*;
use crate::classify::{
    spec_is_alnum,
    spec_is_alpha,
    spec_is_whitespace_no_newline,
    spec_is_whitespace_with_newline,
};
use crate::cursor::{lemma_run_end, lemma_run_end_unique};
use crate::document::{AttributeView, DocumentView, ElementView, ExpressionView, SpanView};
use crate::error::ParseError;
use crate::grammar::{
    after_blanks,
    after_spaces,
    lemma_attributes_bounds,
    lemma_children_advance,
    lemma_element_advances,
    spec_attributes,
    spec_children,
    spec_element,
    spec_expr,
    spec_ident,
    spec_parse,
    spec_text,
    span_at,
    CLOSE_BRACE,
    DOLLAR,
    EQUALS,
    MAX_DEPTH,
    OPEN_BRACE,
    QUOTE,
};

verus! {

/// A letter followed by letters and digits.
pub open spec fn is_identifier(bytes: Seq<u8>) -> bool {
    &&& bytes.len() > 0
    &&& spec_is_alpha(bytes[0])
    &&& forall|i: int| 0 <= i < bytes.len() ==> spec_is_alnum(#[trigger] bytes[i])
}

/// No byte is a quote.
pub open spec fn is_quote_free(bytes: Seq<u8>) -> bool {
    forall|i: int| 0 <= i < bytes.len() ==> #[trigger] bytes[i] != QUOTE
}

/// The span holds the bytes that stand in `buf` at the span's offset.
pub open spec fn span_in(span: SpanView, buf: Seq<u8>) -> bool {
    &&& 0 <= span.start
    &&& span.start + span.bytes.len() <= buf.len()
    &&& span.bytes == buf.subrange(span.start, span.start + span.bytes.len())
}

/// The name is an identifier and the value a string literal, both taken
/// from `buf`.
pub open spec fn attribute_in(attribute: AttributeView, buf: Seq<u8>) -> bool {
    &&& span_in(attribute.name, buf)
    &&& is_identifier(attribute.name.bytes)
    &&& attribute.value matches ExpressionView::Literal(value)
    &&& span_in(value, buf)
    &&& is_quote_free(value.bytes)
}

/// Every span of the element and of the elements below it is taken from
/// `buf`, every tag and every attribute name is an identifier, no string
/// holds a quote, and child blocks nest at most `depth` deep.
pub open spec fn element_in(element: ElementView, buf: Seq<u8>, depth: nat) -> bool
    decreases element,
{
    &&& span_in(element.tag, buf)
    &&& is_identifier(element.tag.bytes)
    &&& forall|i: int|
        0 <= i < element.attributes.len() ==> attribute_in(#[trigger] element.attributes[i], buf)
    &&& element.text matches Some(text) ==> span_in(text, buf) && is_quote_free(text.bytes)
    &&& element.children.len() > 0 ==> depth > 0
    &&& forall|i: int|
        0 <= i < element.children.len() ==> document_in(
            #[trigger] element.children[i],
            buf,
            (depth - 1) as nat,
        )
}

/// `element_in`, of a node.
pub open spec fn document_in(document: DocumentView, buf: Seq<u8>, depth: nat) -> bool
    decreases document,
{
    match document {
        DocumentView::Element(element) => element_in(element, buf, depth),
    }
}

/// An identifier that the grammar reads is taken from the text and is a
/// letter followed by letters and digits.
pub proof fn lemma_ident_well_formed(buf: Seq<u8>, pos: int)
    ensures
        spec_ident(buf, pos) matches Some((span, end)) ==> span_in(span, buf) && is_identifier(
            span.bytes,
        ) && span.start == pos && end == pos + span.bytes.len(),
{
    lemma_run_end(buf, pos, |b: u8| spec_is_alnum(b));
}

/// The attributes that the grammar reads are taken from the text; their
/// names are identifiers and their values string literals.
pub proof fn lemma_attributes_well_formed(buf: Seq<u8>, pos: int)
    ensures
        spec_attributes(buf, pos) matches Ok((attributes, _)) ==> forall|i: int|
            0 <= i < attributes.len() ==> attribute_in(#[trigger] attributes[i], buf),
    decreases buf.len() - pos,
{
    let name_at = after_spaces(buf, pos);
    lemma_run_end(buf, pos, |b: u8| spec_is_whitespace_no_newline(b));
    if let Some((name, name_end)) = spec_ident(buf, name_at) {
        lemma_ident_well_formed(buf, name_at);
        let equals_at = after_spaces(buf, name_end);
        lemma_run_end(buf, name_end, |b: u8| spec_is_whitespace_no_newline(b));
        if 0 <= equals_at < buf.len() && buf[equals_at] == EQUALS {
            let value_at = after_spaces(buf, equals_at + 1);
            lemma_run_end(buf, equals_at + 1, |b: u8| spec_is_whitespace_no_newline(b));
            lemma_run_end(buf, value_at + 1, |b: u8| b != QUOTE);
            if let Ok(Some((value, value_end))) = spec_expr(buf, value_at) {
                lemma_attributes_well_formed(buf, value_end);
                if let Ok((rest, _)) = spec_attributes(buf, value_end) {
                    let first = AttributeView { name, value };
                    let all = seq![first] + rest;
                    assert(attribute_in(first, buf));
                    assert forall|i: int| 0 <= i < all.len() implies attribute_in(
                        #[trigger] all[i],
                        buf,
                    ) by {
                        if i > 0 {
                            assert(all[i] == rest[i - 1]);
                        }
                    }
                }
            }
        }
    }
}

/// The element that the grammar reads is well-formed: see `element_in`.
pub proof fn lemma_element_well_formed(buf: Seq<u8>, pos: int, depth: nat)
    ensures
        spec_element(buf, pos, depth) matches Ok((element, _)) ==> element_in(element, buf, depth),
    decreases depth, buf.len() - pos, 0int,
{
    let tag_at = after_blanks(buf, pos);
    lemma_run_end(buf, pos, |b: u8| spec_is_whitespace_with_newline(b));
    if let Some((tag, tag_end)) = spec_ident(buf, tag_at) {
        lemma_ident_well_formed(buf, tag_at);
        lemma_attributes_bounds(buf, tag_end);
        lemma_attributes_well_formed(buf, tag_end);
        if let Ok((attributes, text_at)) = spec_attributes(buf, tag_end) {
            lemma_run_end(buf, text_at + 1, |b: u8| b != QUOTE);
            if let Ok((text, text_end)) = spec_text(buf, text_at) {
                let block_at = after_blanks(buf, text_end);
                lemma_run_end(buf, text_end, |b: u8| spec_is_whitespace_with_newline(b));
                if 0 <= block_at < buf.len() && buf[block_at] == OPEN_BRACE && depth > 0 {
                    lemma_children_well_formed(buf, block_at + 1, (depth - 1) as nat);
                }
            }
        }
    }
}

/// The elements of a child block that the grammar reads are well-formed.
pub proof fn lemma_children_well_formed(buf: Seq<u8>, pos: int, depth: nat)
    ensures
        spec_children(buf, pos, depth) matches Ok((children, _)) ==> forall|i: int|
            0 <= i < children.len() ==> document_in(#[trigger] children[i], buf, depth),
    decreases depth, buf.len() - pos, 1int,
{
    let child_at = after_blanks(buf, pos);
    lemma_run_end(buf, pos, |b: u8| spec_is_whitespace_with_newline(b));
    if 0 <= child_at < buf.len() && buf[child_at] != CLOSE_BRACE {
        lemma_element_well_formed(buf, child_at, depth);
        if let Ok((child, child_end)) = spec_element(buf, child_at, depth) {
            if child_at < child_end <= buf.len() {
                lemma_children_well_formed(buf, child_end, depth);
                if let Ok((rest, _)) = spec_children(buf, child_end, depth) {
                    let first = DocumentView::Element(child);
                    let all = seq![first] + rest;
                    assert forall|i: int| 0 <= i < all.len() implies document_in(
                        #[trigger] all[i],
                        buf,
                        depth,
                    ) by {
                        if i > 0 {
                            assert(all[i] == rest[i - 1]);
                        }
                    }
                }
            }
        }
    }
}

/// The offset at which the tag of a node starts.
pub open spec fn tag_start(document: DocumentView) -> int {
    match document {
        DocumentView::Element(element) => element.tag.start,
    }
}

/// The attributes that the grammar reads stand in the order of the text:
/// each name starts after the name before it, between the offset at which
/// the attributes start and the offset at which they end.
pub proof fn lemma_attributes_in_order(buf: Seq<u8>, pos: int)
    requires
        0 <= pos <= buf.len(),
    ensures
        spec_attributes(buf, pos) matches Ok((attributes, end)) ==> {
            &&& forall|i: int|
                0 <= i < attributes.len() ==> pos <= (#[trigger] attributes[i]).name.start < end
            &&& forall|i: int, j: int|
                0 <= i < j < attributes.len() ==> (#[trigger] attributes[i]).name.start < (
                #[trigger] attributes[j]).name.start
        },
    decreases buf.len() - pos,
{
    let name_at = after_spaces(buf, pos);
    lemma_run_end(buf, pos, |b: u8| spec_is_whitespace_no_newline(b));
    if let Some((name, name_end)) = spec_ident(buf, name_at) {
        lemma_run_end(buf, name_at, |b: u8| spec_is_alnum(b));
        let equals_at = after_spaces(buf, name_end);
        lemma_run_end(buf, name_end, |b: u8| spec_is_whitespace_no_newline(b));
        if 0 <= equals_at < buf.len() && buf[equals_at] == EQUALS {
            let value_at = after_spaces(buf, equals_at + 1);
            lemma_run_end(buf, equals_at + 1, |b: u8| spec_is_whitespace_no_newline(b));
            lemma_run_end(buf, value_at + 1, |b: u8| b != QUOTE);
            if let Ok(Some((value, value_end))) = spec_expr(buf, value_at) {
                lemma_attributes_in_order(buf, value_end);
                lemma_attributes_bounds(buf, value_end);
                if let Ok((rest, end)) = spec_attributes(buf, value_end) {
                    let first = AttributeView { name, value };
                    let all = seq![first] + rest;
                    assert forall|i: int| 0 <= i < all.len() implies pos <= (
                    #[trigger] all[i]).name.start < end by {
                        if i > 0 {
                            assert(all[i] == rest[i - 1]);
                        }
                    }
                    assert forall|i: int, j: int| 0 <= i < j < all.len() implies (
                    #[trigger] all[i]).name.start < (#[trigger] all[j]).name.start by {
                        assert(all[j] == rest[j - 1]);
                        if i > 0 {
                            assert(all[i] == rest[i - 1]);
                        }
                    }
                }
            }
        }
    }
}

/// The elements of a child block that the grammar reads stand in the order
/// of the text: each tag starts after the tag before it, between the offset
/// at which the elements start and the offset at which the block ends.
pub proof fn lemma_children_in_order(buf: Seq<u8>, pos: int, depth: nat)
    requires
        0 <= pos <= buf.len(),
    ensures
        spec_children(buf, pos, depth) matches Ok((children, end)) ==> {
            &&& forall|i: int|
                0 <= i < children.len() ==> pos <= tag_start(#[trigger] children[i]) < end
            &&& forall|i: int, j: int|
                0 <= i < j < children.len() ==> tag_start(#[trigger] children[i]) < tag_start(
                    #[trigger] children[j],
                )
        },
    decreases buf.len() - pos,
{
    let child_at = after_blanks(buf, pos);
    lemma_run_end(buf, pos, |b: u8| spec_is_whitespace_with_newline(b));
    if 0 <= child_at < buf.len() && buf[child_at] != CLOSE_BRACE {
        lemma_element_advances(buf, child_at, depth);
        if let Ok((child, child_end)) = spec_element(buf, child_at, depth) {
            lemma_run_end(buf, child_at, |b: u8| spec_is_whitespace_with_newline(b));
            lemma_children_in_order(buf, child_end, depth);
            lemma_children_advance(buf, child_end, depth);
            if let Ok((rest, end)) = spec_children(buf, child_end, depth) {
                let first = DocumentView::Element(child);
                let all = seq![first] + rest;
                assert forall|i: int| 0 <= i < all.len() implies pos <= tag_start(
                    #[trigger] all[i],
                ) < end by {
                    if i > 0 {
                        assert(all[i] == rest[i - 1]);
                    }
                }
                assert forall|i: int, j: int| 0 <= i < j < all.len() implies tag_start(
                    #[trigger] all[i],
                ) < tag_start(#[trigger] all[j]) by {
                    assert(all[j] == rest[j - 1]);
                    if i > 0 {
                        assert(all[i] == rest[i - 1]);
                    }
                }
            }
        }
    }
}

/// The error points into `buf`: the byte it names stands at its offset, an
/// unterminated string starts with a quote at the offset and no quote
/// follows, and an unsupported expression starts with `$` at the offset.
pub open spec fn error_in(error: ParseError, buf: Seq<u8>) -> bool {
    match error {
        ParseError::EndOfInput => true,
        ParseError::UnexpectedCharacter(byte, offset) => offset < buf.len() && buf[offset as int]
            == byte,
        ParseError::UnterminatedString(offset) => {
            &&& offset < buf.len()
            &&& buf[offset as int] == QUOTE
            &&& forall|i: int| offset < i < buf.len() ==> #[trigger] buf[i] != QUOTE
        },
        ParseError::UnsupportedExpression(offset) => offset < buf.len() && buf[offset as int]
            == DOLLAR,
    }
}

/// An error of the attributes points into the text.
pub proof fn lemma_attributes_error(buf: Seq<u8>, pos: int)
    requires
        0 <= pos <= buf.len() <= usize::MAX,
    ensures
        spec_attributes(buf, pos) matches Err(e) ==> error_in(e, buf),
    decreases buf.len() - pos,
{
    let name_at = after_spaces(buf, pos);
    lemma_run_end(buf, pos, |b: u8| spec_is_whitespace_no_newline(b));
    if let Some((name, name_end)) = spec_ident(buf, name_at) {
        lemma_run_end(buf, name_at, |b: u8| spec_is_alnum(b));
        let equals_at = after_spaces(buf, name_end);
        lemma_run_end(buf, name_end, |b: u8| spec_is_whitespace_no_newline(b));
        if 0 <= equals_at < buf.len() && buf[equals_at] == EQUALS {
            let value_at = after_spaces(buf, equals_at + 1);
            lemma_run_end(buf, equals_at + 1, |b: u8| spec_is_whitespace_no_newline(b));
            lemma_run_end(buf, value_at + 1, |b: u8| b != QUOTE);
            if let Ok(Some((value, value_end))) = spec_expr(buf, value_at) {
                lemma_attributes_error(buf, value_end);
            }
        }
    }
}

/// An error of an element points into the text.
pub proof fn lemma_element_error(buf: Seq<u8>, pos: int, depth: nat)
    requires
        0 <= pos <= buf.len() <= usize::MAX,
    ensures
        spec_element(buf, pos, depth) matches Err(e) ==> error_in(e, buf),
    decreases depth, buf.len() - pos, 0int,
{
    let tag_at = after_blanks(buf, pos);
    lemma_run_end(buf, pos, |b: u8| spec_is_whitespace_with_newline(b));
    if let Some((tag, tag_end)) = spec_ident(buf, tag_at) {
        lemma_run_end(buf, tag_at, |b: u8| spec_is_alnum(b));
        lemma_attributes_bounds(buf, tag_end);
        lemma_attributes_error(buf, tag_end);
        if let Ok((attributes, text_at)) = spec_attributes(buf, tag_end) {
            lemma_run_end(buf, text_at + 1, |b: u8| b != QUOTE);
            if let Ok((text, text_end)) = spec_text(buf, text_at) {
                let block_at = after_blanks(buf, text_end);
                lemma_run_end(buf, text_end, |b: u8| spec_is_whitespace_with_newline(b));
                if 0 <= block_at < buf.len() && buf[block_at] == OPEN_BRACE && depth > 0 {
                    lemma_children_error(buf, block_at + 1, (depth - 1) as nat);
                }
            }
        }
    }
}

/// An error of a child block points into the text.
pub proof fn lemma_children_error(buf: Seq<u8>, pos: int, depth: nat)
    requires
        0 <= pos <= buf.len() <= usize::MAX,
    ensures
        spec_children(buf, pos, depth) matches Err(e) ==> error_in(e, buf),
    decreases depth, buf.len() - pos, 1int,
{
    let child_at = after_blanks(buf, pos);
    lemma_run_end(buf, pos, |b: u8| spec_is_whitespace_with_newline(b));
    if 0 <= child_at < buf.len() && buf[child_at] != CLOSE_BRACE {
        lemma_element_error(buf, child_at, depth);
        lemma_element_advances(buf, child_at, depth);
        if let Ok((child, child_end)) = spec_element(buf, child_at, depth) {
            lemma_children_error(buf, child_end, depth);
        }
    }
}

/// The tree of a buffer is well-formed: its spans are taken from the buffer,
/// its names are identifiers, and it is at most `MAX_DEPTH` blocks deep.
pub proof fn lemma_parse_well_formed(buf: Seq<u8>)
    ensures
        spec_parse(buf) matches Ok(element) ==> element_in(element, buf, MAX_DEPTH as nat),
{
    lemma_element_well_formed(buf, 0, MAX_DEPTH as nat);
}

/// Whitespace before an element does not change it.
pub proof fn lemma_leading_blanks(buf: Seq<u8>, pos: int, depth: nat)
    ensures
        spec_element(buf, after_blanks(buf, pos), depth) == spec_element(buf, pos, depth),
{
    let p = |b: u8| spec_is_whitespace_with_newline(b);
    lemma_run_end(buf, pos, p);
    assert(after_blanks(buf, after_blanks(buf, pos)) == after_blanks(buf, pos));
}

/// A text of whitespace alone holds no element: the input ends where the tag
/// is due.
pub proof fn lemma_blank_input(buf: Seq<u8>)
    requires
        forall|i: int| 0 <= i < buf.len() ==> spec_is_whitespace_with_newline(#[trigger] buf[i]),
    ensures
        spec_parse(buf) == Err::<ElementView, ParseError>(ParseError::EndOfInput),
{
    lemma_run_end_unique(buf, 0, |b: u8| spec_is_whitespace_with_newline(b), buf.len() as int);
}

/// Where the first byte after the whitespace is no letter, that byte is
/// reported with its offset.
pub proof fn lemma_bad_start(buf: Seq<u8>, at: int)
    requires
        0 <= at < buf.len(),
        forall|i: int| 0 <= i < at ==> spec_is_whitespace_with_newline(#[trigger] buf[i]),
        !spec_is_whitespace_with_newline(buf[at]),
        !spec_is_alpha(buf[at]),
    ensures
        spec_parse(buf) == Err::<ElementView, ParseError>(
            ParseError::UnexpectedCharacter(buf[at], at as usize),
        ),
{
    lemma_run_end_unique(buf, 0, |b: u8| spec_is_whitespace_with_newline(b), at);
}

/// Parsing succeeds only where the first byte after the whitespace is a
/// letter.
pub proof fn lemma_success_starts_with_letter(buf: Seq<u8>)
    ensures
        spec_parse(buf) is Ok ==> {
            let at = after_blanks(buf, 0);
            0 <= at < buf.len() && spec_is_alpha(buf[at])
        },
{
}

/// A text that holds one identifier and, around it, whitespace alone is an
/// element without attributes, text or children. Its tag is the identifier,
/// without the whitespace.
pub proof fn lemma_single_tag(buf: Seq<u8>, from: int, to: int)
    requires
        0 <= from < to <= buf.len(),
        forall|i: int| 0 <= i < from ==> spec_is_whitespace_with_newline(#[trigger] buf[i]),
        is_identifier(buf.subrange(from, to)),
        forall|i: int| to <= i < buf.len() ==> spec_is_whitespace_with_newline(#[trigger] buf[i]),
    ensures
        spec_parse(buf) == Ok::<ElementView, ParseError>(
            ElementView {
                tag: span_at(buf, from, to),
                attributes: Seq::empty(),
                children: Seq::empty(),
                text: None,
            },
        ),
{
    let tag = buf.subrange(from, to);
    assert(buf[from] == tag[0]);
    assert forall|i: int| from <= i < to implies spec_is_alnum(#[trigger] buf[i]) by {
        assert(buf[i] == tag[i - from]);
    }
    lemma_run_end_unique(buf, 0, |b: u8| spec_is_whitespace_with_newline(b), from);
    lemma_run_end_unique(buf, from, |b: u8| spec_is_alnum(b), to);
    let line_end = after_spaces(buf, to);
    lemma_run_end(buf, to, |b: u8| spec_is_whitespace_no_newline(b));
    lemma_run_end_unique(
        buf,
        line_end,
        |b: u8| spec_is_whitespace_with_newline(b),
        buf.len() as int,
    );
}

} // verus!
