//! The recursive-descent parser: from a cursor to an element tree.

use vstd::prelude::*;
use crate::cursor::{lemma_advanced, SliceReader};
use crate::document::{
    attribute_views,
    document_views,
    lemma_element_view,
    Attribute,
    AttributeView,
    Document,
    DocumentView,
    Element,
    Span,
};
use crate::error::ParseError;
use crate::grammar::{
    lemma_element_advances,
    missing_token,
    spec_attributes,
    spec_children,
    spec_element,
    spec_parse,
    spec_text,
    CLOSE_BRACE,
    EQUALS,
    MAX_DEPTH,
    OPEN_BRACE,
    QUOTE,
};
use crate::tokenizer::{
    parse_expr,
    parse_ident,
    parse_string,
    skip_whitespace,
    skip_whitespace_and_newline,
};
use crate::wellformed::{
    element_in,
    error_in,
    lemma_element_error,
    lemma_element_well_formed,
};

verus! {

/// The error for a cursor at which a token has to start and none does.
fn missing_token_at<'a>(rd: &SliceReader<'a>) -> (e: ParseError)
    ensures
        e == missing_token(rd.text(), rd.pos() as int),
{
    match rd.head() {
        Some(ch) => ParseError::UnexpectedCharacter(ch, rd.position()),
        None => ParseError::EndOfInput,
    }
}

/// Reads the attributes of an element, up to where no further name starts
/// on the line.
fn parse_attributes<'a>(rd: &mut SliceReader<'a>) -> (r: Result<Vec<Attribute<'a>>, ParseError>)
    ensures
        final(rd).text() == old(rd).text(),
        final(rd).pos() >= old(rd).pos(),
        match spec_attributes(old(rd).text(), old(rd).pos() as int) {
            Ok((attributes, end)) => r matches Ok(v) && attribute_views(v@) == attributes
                && final(rd).pos() == end,
            Err(e) => r == Err::<Vec<Attribute<'a>>, ParseError>(e),
        },
{
    let ghost text = rd.text();
    let ghost pos = rd.pos() as int;
    let mut attributes: Vec<Attribute<'a>> = Vec::new();
    proof {
        if let Ok((rest, _)) = spec_attributes(text, pos) {
            assert(attribute_views(attributes@) + rest =~= rest);
        }
    }
    loop
        invariant
            text == old(rd).text(),
            pos == old(rd).pos(),
            rd.text() == text,
            pos <= rd.pos(),
            match spec_attributes(text, rd.pos() as int) {
                Ok((rest, end)) => spec_attributes(text, pos) == Ok::<_, ParseError>(
                    (attribute_views(attributes@) + rest, end),
                ),
                Err(e) => spec_attributes(text, pos) == Err::<(Seq<AttributeView>, int), _>(e),
            },
        decreases text.len() - rd.pos(),
    {
        skip_whitespace(rd);
        let name = match parse_ident(rd) {
            Some(name) => name,
            None => {
                assert(attribute_views(attributes@) + Seq::empty() =~= attribute_views(
                    attributes@,
                ));
                return Ok(attributes);
            },
        };
        skip_whitespace(rd);
        let equals = match rd.head() {
            Some(ch) => ch == EQUALS,
            None => false,
        };
        if !equals {
            return Err(missing_token_at(rd));
        }
        let _ = rd.pop_front(1);
        skip_whitespace(rd);
        let value = match parse_expr(rd) {
            Ok(Some(value)) => value,
            Ok(None) => {
                return Err(missing_token_at(rd));
            },
            Err(e) => {
                return Err(e);
            },
        };
        let attribute = Attribute { name, value };
        proof {
            if let Ok((rest, _)) = spec_attributes(text, rd.pos() as int) {
                assert(attribute_views(attributes@.push(attribute)) + rest =~= attribute_views(
                    attributes@,
                ) + (seq![attribute@] + rest));
            }
        }
        attributes.push(attribute);
    }
}

/// Reads the text of an element, if a string literal stands at the cursor.
fn parse_text<'a>(rd: &mut SliceReader<'a>) -> (r: Result<Option<Span<'a>>, ParseError>)
    ensures
        final(rd).text() == old(rd).text(),
        final(rd).pos() >= old(rd).pos(),
        match spec_text(old(rd).text(), old(rd).pos() as int) {
            Ok((text, end)) => r matches Ok(t) && final(rd).pos() == end && match text {
                Some(span) => t matches Some(s) && s@ == span,
                None => t is None,
            },
            Err(e) => r == Err::<Option<Span<'a>>, ParseError>(e),
        },
{
    let quoted = match rd.head() {
        Some(ch) => ch == QUOTE,
        None => false,
    };
    if quoted {
        match parse_string(rd) {
            Ok(span) => Ok(Some(span)),
            Err(e) => Err(e),
        }
    } else {
        Ok(None)
    }
}

/// Reads the elements of a child block whose opening brace has been read,
/// and the brace that closes it.
fn parse_children<'a>(rd: &mut SliceReader<'a>, depth: usize) -> (r: Result<
    Vec<Document<'a>>,
    ParseError,
>)
    ensures
        final(rd).text() == old(rd).text(),
        final(rd).pos() >= old(rd).pos(),
        match spec_children(old(rd).text(), old(rd).pos() as int, depth as nat) {
            Ok((children, end)) => r matches Ok(v) && document_views(v@) == children
                && final(rd).pos() == end,
            Err(e) => r == Err::<Vec<Document<'a>>, ParseError>(e),
        },
    decreases depth, 1int,
{
    let ghost text = rd.text();
    let ghost pos = rd.pos() as int;
    let mut children: Vec<Document<'a>> = Vec::new();
    proof {
        if let Ok((rest, _)) = spec_children(text, pos, depth as nat) {
            assert(document_views(children@) + rest =~= rest);
        }
    }
    loop
        invariant
            text == old(rd).text(),
            pos == old(rd).pos(),
            rd.text() == text,
            pos <= rd.pos(),
            match spec_children(text, rd.pos() as int, depth as nat) {
                Ok((rest, end)) => spec_children(text, pos, depth as nat) == Ok::<_, ParseError>(
                    (document_views(children@) + rest, end),
                ),
                Err(e) => spec_children(text, pos, depth as nat) == Err::<
                    (Seq<DocumentView>, int),
                    _,
                >(e),
            },
        decreases text.len() - rd.pos(),
    {
        skip_whitespace_and_newline(rd);
        match rd.head() {
            None => {
                return Err(ParseError::EndOfInput);
            },
            Some(ch) => {
                if ch == CLOSE_BRACE {
                    let _ = rd.pop_front(1);
                    assert(document_views(children@) + Seq::empty() =~= document_views(
                        children@,
                    ));
                    return Ok(children);
                }
            },
        }
        proof {
            lemma_element_advances(text, rd.pos() as int, depth as nat);
        }
        let child = match parse_element_at(rd, depth) {
            Ok(child) => Document::Element(child),
            Err(e) => {
                return Err(e);
            },
        };
        proof {
            if let Ok((rest, _)) = spec_children(text, rd.pos() as int, depth as nat) {
                assert(document_views(children@.push(child)) + rest =~= document_views(children@)
                    + (seq![child@] + rest));
            }
        }
        children.push(child);
    }
}

/// Reads an element whose child blocks nest at most `depth` deep.
fn parse_element_at<'a>(rd: &mut SliceReader<'a>, depth: usize) -> (r: Result<
    Element<'a>,
    ParseError,
>)
    ensures
        final(rd).text() == old(rd).text(),
        final(rd).pos() >= old(rd).pos(),
        match spec_element(old(rd).text(), old(rd).pos() as int, depth as nat) {
            Ok((element, end)) => r matches Ok(e) && e@ == element && final(rd).pos() == end,
            Err(e) => r == Err::<Element<'a>, ParseError>(e),
        },
    decreases depth, 0int,
{
    skip_whitespace_and_newline(rd);
    let tag = match parse_ident(rd) {
        Some(tag) => tag,
        None => {
            return Err(missing_token_at(rd));
        },
    };
    let attributes = match parse_attributes(rd) {
        Ok(attributes) => attributes,
        Err(e) => {
            return Err(e);
        },
    };
    let text = match parse_text(rd) {
        Ok(text) => text,
        Err(e) => {
            return Err(e);
        },
    };
    skip_whitespace_and_newline(rd);
    let block = match rd.head() {
        Some(ch) => ch == OPEN_BRACE,
        None => false,
    };
    let children = if block {
        if depth == 0 {
            return Err(ParseError::UnexpectedCharacter(OPEN_BRACE, rd.position()));
        }
        let _ = rd.pop_front(1);
        match parse_children(rd, depth - 1) {
            Ok(children) => children,
            Err(e) => {
                return Err(e);
            },
        }
    } else {
        Vec::new()
    };
    let element = Element { tag, attributes, children, text };
    proof {
        lemma_element_view(element);
        assert(document_views(Seq::<Document>::empty()) =~= Seq::<DocumentView>::empty());
    }
    Ok(element)
}

/// Reads the element at the cursor: whitespace, a tag, the attributes and
/// the text on the line of the tag, and a child block.
///
/// Fails with `EndOfInput` where only whitespace is left, and with
/// `UnexpectedCharacter` where the first byte after the whitespace is no
/// letter. The cursor keeps its text and does not move back.
pub fn parse_element<'a>(rd: &mut SliceReader<'a>) -> (r: Result<Element<'a>, ParseError>)
    ensures
        final(rd).text() == old(rd).text(),
        final(rd).pos() >= old(rd).pos(),
        match spec_element(old(rd).text(), old(rd).pos() as int, MAX_DEPTH as nat) {
            Ok((element, end)) => r matches Ok(e) && e@ == element && final(rd).pos() == end,
            Err(e) => r == Err::<Element<'a>, ParseError>(e),
        },
        r matches Ok(e) ==> element_in(e@, old(rd).text(), MAX_DEPTH as nat),
        r matches Err(e) ==> error_in(e, old(rd).text()),
        final(rd)@ == old(rd)@.skip(final(rd).pos() - old(rd).pos()),
{
    proof {
        use_type_invariant(&*rd);
        rd.lemma_view();
        lemma_element_well_formed(rd.text(), rd.pos() as int, MAX_DEPTH as nat);
        lemma_element_error(rd.text(), rd.pos() as int, MAX_DEPTH as nat);
    }
    let r = parse_element_at(rd, MAX_DEPTH);
    proof {
        use_type_invariant(&*rd);
        lemma_advanced(*old(rd), *rd);
    }
    r
}

/// Parses the first element of `buffer`. The tree borrows its spans from
/// `buffer`; what follows the element is not read.
pub fn parse<'a>(buffer: &'a [u8]) -> (r: Result<Element<'a>, ParseError>)
    ensures
        match spec_parse(buffer@) {
            Ok(element) => r matches Ok(e) && e@ == element,
            Err(e) => r == Err::<Element<'a>, ParseError>(e),
        },
        r matches Ok(e) ==> element_in(e@, buffer@, MAX_DEPTH as nat),
        r matches Err(e) ==> error_in(e, buffer@),
{
    let mut rd = SliceReader::new(buffer);
    parse_element(&mut rd)
}

/// Parsing the same bytes twice gives the same: two results of `parse` on
/// buffers that hold equal bytes are both trees with one view, or both the
/// same error.
pub proof fn lemma_parse_deterministic<'a, 'b>(
    first: &'a [u8],
    second: &'b [u8],
    r1: Result<Element<'a>, ParseError>,
    r2: Result<Element<'b>, ParseError>,
)
    requires
        first@ == second@,
        call_ensures(parse, (first,), r1),
        call_ensures(parse, (second,), r2),
    ensures
        match (r1, r2) {
            (Ok(e1), Ok(e2)) => e1@ == e2@,
            (Err(e1), Err(e2)) => e1 == e2,
            _ => false,
        },
{
}

} // verus!
