use cosy::{parse_inline_code, parse_math, parse_text, Node, ParseError, ParseErrorKind};

#[test]
fn test_parse_text() {
    let mut input = "これはテストです。[リンク]";
    let result: Node<()> = parse_text(&mut input).unwrap();
    assert_eq!(result, Node::Text("これはテストです。".to_string()));
    assert_eq!(input, "[リンク]");
}

#[test]
fn test_parse_inline_code() {
    let mut input = "`inline code` and more text";
    let result: Node<()> = parse_inline_code(&mut input).unwrap();
    assert_eq!(result, Node::InlineCode("inline code".to_string()));
    assert_eq!(input, " and more text");
}

#[test]
fn text_stops_at_each_marker() {
    for (source, text, rest) in [
        ("abc$x$", "abc", "$x$"),
        ("abc`x`", "abc", "`x`"),
        ("abc[x]", "abc", "[x]"),
        ("abc", "abc", ""),
        ("a]b\tc\nd", "a]b\tc\nd", ""),
    ] {
        let mut input = source;
        let node: Node<()> = parse_text(&mut input).unwrap();
        assert_eq!(node, Node::Text(text.to_string()));
        assert_eq!(input, rest);
    }
}

#[test]
fn text_does_not_match_at_a_marker_or_at_the_end() {
    for source in ["[x]", "$x$", "`x`", ""] {
        let mut input = source;
        let result: Result<Node<()>, ParseError> = parse_text(&mut input);
        assert_eq!(
            result,
            Err(ParseError { kind: ParseErrorKind::NoAlternativeMatched, position: 0 })
        );
        assert_eq!(input, source);
    }
}

#[test]
fn math_span_is_kept_verbatim() {
    let mut input = "$ a + b $ rest";
    let node: Node<()> = parse_math(&mut input).unwrap();
    assert_eq!(node, Node::Math(" a + b ".to_string()));
    assert_eq!(input, " rest");
}

#[test]
fn empty_spans() {
    let mut input = "$$";
    let node: Node<()> = parse_math(&mut input).unwrap();
    assert_eq!(node, Node::Math(String::new()));
    assert_eq!(input, "");
    let mut input = "``x";
    let node: Node<()> = parse_inline_code(&mut input).unwrap();
    assert_eq!(node, Node::InlineCode(String::new()));
    assert_eq!(input, "x");
}

#[test]
fn span_without_its_closing_delimiter_is_unterminated() {
    let mut input = "`never closed";
    let result: Result<Node<()>, ParseError> = parse_inline_code(&mut input);
    assert_eq!(
        result,
        Err(ParseError { kind: ParseErrorKind::UnterminatedDelimiter, position: 0 })
    );
    assert_eq!(input, "`never closed");
    let mut input = "$";
    let result: Result<Node<()>, ParseError> = parse_math(&mut input);
    assert_eq!(
        result,
        Err(ParseError { kind: ParseErrorKind::UnterminatedDelimiter, position: 0 })
    );
}

#[test]
fn span_does_not_match_without_its_opening_delimiter() {
    let mut input = "x`y`";
    let result: Result<Node<()>, ParseError> = parse_inline_code(&mut input);
    assert_eq!(
        result,
        Err(ParseError { kind: ParseErrorKind::NoAlternativeMatched, position: 0 })
    );
    let mut input = "`y`";
    let result: Result<Node<()>, ParseError> = parse_math(&mut input);
    assert_eq!(
        result,
        Err(ParseError { kind: ParseErrorKind::NoAlternativeMatched, position: 0 })
    );
    assert_eq!(input, "`y`");
}
