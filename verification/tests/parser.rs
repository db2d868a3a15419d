use baml::cursor::SliceReader;
use baml::document::{Attribute, Document, Element, Expression, Span};
use baml::error::ParseError;
use baml::grammar::MAX_DEPTH;
use baml::parser::{parse, parse_element};

fn span(text: &str, start: usize) -> Span<'_> {
    Span { bytes: text.as_bytes(), start }
}

fn leaf(tag: &str, start: usize) -> Element<'_> {
    Element { tag: span(tag, start), attributes: vec![], children: vec![], text: None }
}

#[test]
fn test_single_tag() {
    let str = " html".as_bytes();
    let mut rd = SliceReader::new(str);

    assert_eq!(parse_element(&mut rd), Ok(leaf("html", 1)));
}

#[test]
fn single_tag_without_whitespace() {
    let parsed = parse(b"html").unwrap();
    assert_eq!(parsed.tag.bytes, b"html");
    assert_eq!(parsed.tag.start, 0);
    assert!(parsed.attributes.is_empty());
    assert!(parsed.children.is_empty());
    assert_eq!(parsed.text, None);
}

#[test]
fn single_tag_after_whitespace() {
    let parsed = parse(b"  html").unwrap();
    assert_eq!(parsed, leaf("html", 2));
}

#[test]
fn single_tag_before_whitespace() {
    let parsed = parse(b"html  ").unwrap();
    assert_eq!(parsed, leaf("html", 0));
    assert_eq!(parsed.tag.bytes.len(), 4);
}

#[test]
fn whitespace_after_last_element_is_read() {
    let mut rd = SliceReader::new(b"html \n\t x");
    assert_eq!(parse_element(&mut rd), Ok(leaf("html", 0)));
    assert_eq!(rd.position(), 8);
    assert_eq!(rd.data(), b"x");
}

#[test]
fn digit_at_start_is_unexpected() {
    assert_eq!(parse(b"1abc"), Err(ParseError::UnexpectedCharacter(b'1', 0)));
}

#[test]
fn punctuation_at_start_is_unexpected() {
    assert_eq!(parse(b"!x"), Err(ParseError::UnexpectedCharacter(b'!', 0)));
}

#[test]
fn unexpected_character_carries_its_offset() {
    assert_eq!(parse(b" \n\t-"), Err(ParseError::UnexpectedCharacter(b'-', 3)));
}

#[test]
fn non_ascii_at_start_is_unexpected() {
    assert_eq!(parse("é".as_bytes()), Err(ParseError::UnexpectedCharacter(0xc3, 0)));
}

#[test]
fn empty_input_is_end_of_input() {
    assert_eq!(parse(b""), Err(ParseError::EndOfInput));
}

#[test]
fn blank_input_is_end_of_input() {
    assert_eq!(parse(b"   \n "), Err(ParseError::EndOfInput));
}

#[test]
fn one_attribute() {
    let parsed = parse(b"tag attr=\"value\"").unwrap();
    assert_eq!(parsed.tag.bytes, b"tag");
    assert_eq!(parsed.attributes.len(), 1);
    assert_eq!(parsed.attributes[0].name.bytes, b"attr");
    assert_eq!(parsed.attributes[0].name.start, 4);
    assert_eq!(parsed.attributes[0].value, Expression::Literal(span("value", 10)));
    assert!(parsed.children.is_empty());
    assert_eq!(parsed.text, None);
}

#[test]
fn attributes_keep_their_order() {
    let parsed = parse(b"a x=\"1\"\ty = \"\" z9=\"a b\"").unwrap();
    assert_eq!(
        parsed.attributes,
        vec![
            Attribute { name: span("x", 2), value: Expression::Literal(span("1", 5)) },
            Attribute { name: span("y", 8), value: Expression::Literal(span("", 13)) },
            Attribute { name: span("z9", 15), value: Expression::Literal(span("a b", 19)) },
        ]
    );
}

#[test]
fn attribute_on_next_line_is_no_attribute() {
    let mut rd = SliceReader::new(b"a\nx=\"1\"");
    assert_eq!(parse_element(&mut rd), Ok(leaf("a", 0)));
    assert_eq!(rd.data(), b"x=\"1\"");
}

#[test]
fn unterminated_string() {
    assert_eq!(parse(b"tag attr=\"value"), Err(ParseError::UnterminatedString(9)));
}

#[test]
fn unterminated_text() {
    assert_eq!(parse(b"p \"never closed\n}"), Err(ParseError::UnterminatedString(2)));
}

#[test]
fn evaluated_expression_is_unsupported() {
    assert_eq!(parse(b"tag attr=$x"), Err(ParseError::UnsupportedExpression(9)));
}

#[test]
fn attribute_without_equals() {
    assert_eq!(parse(b"tag attr \"v\""), Err(ParseError::UnexpectedCharacter(b'"', 9)));
    assert_eq!(parse(b"tag attr"), Err(ParseError::EndOfInput));
    assert_eq!(parse(b"tag attr\n=\"v\""), Err(ParseError::UnexpectedCharacter(b'\n', 8)));
}

#[test]
fn attribute_without_value() {
    assert_eq!(parse(b"tag attr="), Err(ParseError::EndOfInput));
    assert_eq!(parse(b"tag attr= 7"), Err(ParseError::UnexpectedCharacter(b'7', 10)));
    assert_eq!(parse(b"tag attr=\n\"v\""), Err(ParseError::UnexpectedCharacter(b'\n', 9)));
}

#[test]
fn inline_text() {
    let parsed = parse(b"title \"Hello World\"").unwrap();
    assert_eq!(parsed.tag, span("title", 0));
    assert_eq!(parsed.text, Some(span("Hello World", 7)));
    assert!(parsed.attributes.is_empty());
    assert!(parsed.children.is_empty());
}

#[test]
fn text_after_attributes() {
    let parsed = parse(b"a href=\"x\" \"y\"").unwrap();
    assert_eq!(parsed.attributes.len(), 1);
    assert_eq!(parsed.text, Some(span("y", 12)));
}

#[test]
fn text_holds_any_byte_but_a_quote() {
    let parsed = parse("p \"{ $ = é\n}\"".as_bytes()).unwrap();
    assert_eq!(parsed.text, Some(span("{ $ = é\n}", 3)));
}

#[test]
fn empty_child_block() {
    let parsed = parse(b"a{}").unwrap();
    assert_eq!(parsed, leaf("a", 0));
    let parsed = parse(b"a \n { \n }").unwrap();
    assert_eq!(parsed, leaf("a", 0));
}

#[test]
fn children_keep_their_order() {
    let parsed = parse(b"a { b c\n d }").unwrap_err();
    assert_eq!(parsed, ParseError::UnexpectedCharacter(b'\n', 7));
    let parsed = parse(b"a { b\n c k=\"v\"\n d \"t\" }").unwrap();
    assert_eq!(parsed.tag, span("a", 0));
    assert_eq!(parsed.children.len(), 3);
    assert_eq!(parsed.children[0], Document::Element(leaf("b", 4)));
    assert_eq!(
        parsed.children[1],
        Document::Element(Element {
            tag: span("c", 7),
            attributes: vec![Attribute {
                name: span("k", 9),
                value: Expression::Literal(span("v", 12)),
            }],
            children: vec![],
            text: None,
        })
    );
    assert_eq!(
        parsed.children[2],
        Document::Element(Element {
            tag: span("d", 16),
            attributes: vec![],
            children: vec![],
            text: Some(span("t", 19)),
        })
    );
}

#[test]
fn nested_document() {
    let source = "
html {
  head {
    title \"Hello World\"
  }
  body {
    h1 \"Hello World\"
  }
}
";
    let parsed = parse(source.as_bytes()).unwrap();
    assert_eq!(parsed.tag.bytes, b"html");
    assert_eq!(parsed.children.len(), 2);
    let Document::Element(head) = &parsed.children[0];
    let Document::Element(body) = &parsed.children[1];
    assert_eq!(head.tag.bytes, b"head");
    assert_eq!(body.tag.bytes, b"body");
    let Document::Element(title) = &head.children[0];
    let Document::Element(h1) = &body.children[0];
    assert_eq!(title.tag.bytes, b"title");
    assert_eq!(title.text.unwrap().bytes, b"Hello World");
    assert_eq!(h1.tag.bytes, b"h1");
    assert_eq!(h1.text.unwrap().bytes, b"Hello World");
    let at = h1.text.unwrap().start;
    assert_eq!(&source.as_bytes()[at..at + 11], b"Hello World");
}

#[test]
fn unclosed_child_block() {
    assert_eq!(parse(b"a {"), Err(ParseError::EndOfInput));
    assert_eq!(parse(b"a { b "), Err(ParseError::EndOfInput));
    assert_eq!(parse(b"a { b { } "), Err(ParseError::EndOfInput));
}

#[test]
fn stray_byte_in_child_block() {
    assert_eq!(parse(b"a { 1 }"), Err(ParseError::UnexpectedCharacter(b'1', 4)));
    assert_eq!(parse(b"a { { } }"), Err(ParseError::UnexpectedCharacter(b'{', 4)));
}

#[test]
fn what_follows_the_element_is_not_read() {
    let mut rd = SliceReader::new(b"a { b } } c");
    let parsed = parse_element(&mut rd).unwrap();
    assert_eq!(parsed.children, vec![Document::Element(leaf("b", 4))]);
    assert_eq!(rd.position(), 7);
    assert_eq!(parse(b"a { b } } c").unwrap(), parsed);
}

fn nested(levels: usize) -> Vec<u8> {
    let mut source = Vec::new();
    for _ in 0..levels {
        source.extend_from_slice(b"a{");
    }
    source.extend_from_slice(b"a");
    for _ in 0..levels {
        source.extend_from_slice(b"}");
    }
    source
}

#[test]
fn blocks_nest_up_to_the_limit() {
    let source = nested(MAX_DEPTH);
    let parsed = parse(&source).unwrap();
    let mut levels = 0;
    let mut at = &parsed;
    while !at.children.is_empty() {
        assert_eq!(at.children.len(), 1);
        let Document::Element(child) = &at.children[0];
        at = child;
        levels += 1;
    }
    assert_eq!(levels, MAX_DEPTH);
}

#[test]
fn blocks_beyond_the_limit_are_refused() {
    let source = nested(MAX_DEPTH + 1);
    assert_eq!(parse(&source), Err(ParseError::UnexpectedCharacter(b'{', 2 * MAX_DEPTH + 1)));
}

#[test]
fn very_deep_input_is_refused_without_overflow() {
    let source = nested(200_000);
    assert_eq!(parse(&source), Err(ParseError::UnexpectedCharacter(b'{', 2 * MAX_DEPTH + 1)));
}

#[test]
fn parsing_twice_gives_equal_trees() {
    let first = b"a x=\"1\" \"t\" { b { c } d }".to_vec();
    let second = first.clone();
    assert_eq!(parse(&first), parse(&second));
    assert_eq!(parse(&first), parse(&first));
    let bad = b"a x=".to_vec();
    assert_eq!(parse(&bad), parse(&bad.clone()));
}

#[test]
fn spans_lie_in_the_buffer() {
    let source = b"  tag attr=\"value\" \"text\" { kid }";
    let parsed = parse(source).unwrap();
    let check = |s: &Span| assert_eq!(&source[s.start..s.start + s.bytes.len()], s.bytes);
    check(&parsed.tag);
    check(&parsed.attributes[0].name);
    let Expression::Literal(value) = &parsed.attributes[0].value else {
        panic!("a literal was expected");
    };
    check(value);
    check(&parsed.text.unwrap());
    let Document::Element(kid) = &parsed.children[0];
    check(&kid.tag);
    assert_eq!(kid.tag.bytes, b"kid");
}

#[test]
fn errors_point_into_the_buffer() {
    let source = b"a {\n b x=\"1\" \n c y=$z }";
    match parse(source) {
        Err(ParseError::UnsupportedExpression(at)) => {
            assert_eq!(at, 19);
            assert_eq!(source[at], b'$');
        },
        other => panic!("unexpected result: {:?}", other),
    }
    let source = b"a { b \"one\" c \"two }";
    match parse(source) {
        Err(ParseError::UnterminatedString(at)) => {
            assert_eq!(at, 14);
            assert_eq!(source[at], b'"');
            assert!(!source[at + 1..].contains(&b'"'));
        },
        other => panic!("unexpected result: {:?}", other),
    }
    let source = b"a { b ; }";
    match parse(source) {
        Err(ParseError::UnexpectedCharacter(byte, at)) => {
            assert_eq!((byte, at), (b';', 6));
            assert_eq!(source[at], byte);
        },
        other => panic!("unexpected result: {:?}", other),
    }
}
