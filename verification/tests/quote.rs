use cosy::{parse_quote, BlockContent, Link, Node, ParseError, ParseErrorKind};

#[test]
fn parse_quote_block() {
    let input = "> This is a quote line.\n";
    let mut input_stream = input;
    let result = parse_quote(&mut input_stream, &(), 0);
    assert!(result.is_ok());
    let block = result.unwrap();
    assert_eq!(block.indent, 0);
    assert_eq!(
        block.content,
        BlockContent::Quote(vec![Node::Text("This is a quote line.".to_string())])
    );
}

#[test]
fn parse_formatted_quote() {
    let input = "> [* Bold Quote] and [Linked part]\n";
    let mut input_stream = input;
    let result = parse_quote(&mut input_stream, &(), 0);
    assert!(result.is_ok());
    let block = result.unwrap();
    assert_eq!(block.indent, 0);
    assert_eq!(
        block.content,
        BlockContent::Quote(vec![
            Node::Decoration {
                decos: "*".to_string(),
                nodes: vec![Node::Text("Bold Quote".to_string())]
            },
            Node::Text(" and ".to_string()),
            Node::Link(Link::Page("Linked part".to_string())),
        ])
    );
}

#[test]
fn quote_with_and_without_a_space() {
    for source in ["> text", ">text"] {
        let mut input = source;
        let block = parse_quote(&mut input, &(), 3).unwrap();
        assert_eq!(block.indent, 3);
        assert_eq!(block.content, BlockContent::Quote(vec![Node::<()>::Text("text".to_string())]));
        assert_eq!(input, "");
    }
}

#[test]
fn quote_strips_one_space_only() {
    let mut input = ">  text";
    let block = parse_quote(&mut input, &(), 0).unwrap();
    assert_eq!(block.content, BlockContent::Quote(vec![Node::<()>::Text(" text".to_string())]));
}

#[test]
fn quote_is_a_single_line() {
    let mut input = "> one\n> two\n";
    let block = parse_quote(&mut input, &(), 0).unwrap();
    assert_eq!(block.content, BlockContent::Quote(vec![Node::<()>::Text("one".to_string())]));
    assert_eq!(input, "> two\n");
}

#[test]
fn empty_quote() {
    for source in [">", "> ", ">\n"] {
        let mut input = source;
        let block = parse_quote(&mut input, &(), 0).unwrap();
        assert_eq!(block.content, BlockContent::<()>::Quote(vec![]));
        assert_eq!(input, "");
    }
}

#[test]
fn quote_needs_its_marker() {
    for source in ["text", "", " > x"] {
        let mut input = source;
        assert_eq!(
            parse_quote(&mut input, &(), 0),
            Err(ParseError { kind: ParseErrorKind::NoAlternativeMatched, position: 0 })
        );
        assert_eq!(input, source);
    }
}

#[test]
fn quote_failure_counts_the_marker_and_the_space() {
    let mut input = "> a [b";
    assert_eq!(
        parse_quote(&mut input, &(), 0),
        Err(ParseError { kind: ParseErrorKind::UnterminatedDelimiter, position: 4 })
    );
    let mut input = ">a [b";
    assert_eq!(
        parse_quote(&mut input, &(), 0),
        Err(ParseError { kind: ParseErrorKind::UnterminatedDelimiter, position: 3 })
    );
}
