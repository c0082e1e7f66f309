use cosy::{
    parse, parse_block, parse_line, parse_nodes, Block, BlockContent, Link, Node, ParseError,
    ParseErrorKind,
};

fn text(s: &str) -> Node<()> {
    Node::Text(s.to_string())
}

#[test]
fn parse_root_line() {
    let input = "the simplest root string";
    let mut input_stream = input;
    let result = parse_line(&mut input_stream, &(), 0);
    assert!(result.is_ok());
    let block = result.unwrap();
    assert_eq!(block.indent, 0);
    assert_eq!(
        block.content,
        BlockContent::Line(vec![Node::Text("the simplest root string".to_string())])
    );
}

#[test]
fn parse_indented_line() {
    let input = "an indented line"; // Indentation is not consumed by parse_line
    let mut input_stream = input;
    let result = parse_line(&mut input_stream, &(), 4);
    assert!(result.is_ok());
    let block = result.unwrap();
    assert_eq!(block.indent, 4);
    assert_eq!(
        block.content,
        BlockContent::Line(vec![Node::Text("an indented line".to_string())])
    );
}

#[test]
fn parse_with_node() {
    let input = "Hello, [world.icon]!";
    let mut input_stream = input;
    let result = parse_line(&mut input_stream, &(), 0);
    assert!(result.is_ok());
    let block = result.unwrap();
    assert_eq!(block.indent, 0);
    assert_eq!(
        block.content,
        BlockContent::Line(vec![
            Node::Text("Hello, ".to_string()),
            Node::Icon {
                name: "world".to_string(),
                count: 1
            },
            Node::Text("!".to_string()),
        ])
    );
}

#[test]
fn line_takes_one_line_and_its_newline() {
    let mut input = "first\nsecond\n";
    let block = parse_line(&mut input, &(), 0).unwrap();
    assert_eq!(block.content, BlockContent::Line(vec![text("first")]));
    assert_eq!(input, "second\n");
}

#[test]
fn plain_line_is_one_block_with_one_text_node() {
    for source in ["plain words, nothing special", "plain words, nothing special\n"] {
        let mut input = source;
        let blocks = parse(&mut input, &()).unwrap();
        assert_eq!(
            blocks,
            vec![Block {
                indent: 0,
                content: BlockContent::Line(vec![text("plain words, nothing special")]),
            }]
        );
        assert_eq!(input, "");
    }
}

#[test]
fn indent_is_the_number_of_leading_spaces() {
    for n in 0..6usize {
        let source = format!("{}x y", " ".repeat(n));
        let mut input = source.as_str();
        let block = parse_block(&mut input, &()).unwrap();
        assert_eq!(block, Block { indent: n, content: BlockContent::Line(vec![text("x y")]) });
        assert_eq!(input, "");
    }
}

#[test]
fn tabs_are_not_indent() {
    let mut input = "\tx";
    let block = parse_block(&mut input, &()).unwrap();
    assert_eq!(block, Block { indent: 0, content: BlockContent::Line(vec![text("\tx")]) });
    let mut input = "  \t x";
    let block = parse_block(&mut input, &()).unwrap();
    assert_eq!(block, Block { indent: 2, content: BlockContent::Line(vec![text("\t x")]) });
    let mut input = "\u{3000}x";
    let block = parse_block(&mut input, &()).unwrap();
    assert_eq!(block, Block { indent: 0, content: BlockContent::Line(vec![text("\u{3000}x")]) });
}

#[test]
fn block_at_the_end_of_the_input() {
    let mut input = "";
    assert_eq!(
        parse_block(&mut input, &()),
        Err(ParseError { kind: ParseErrorKind::UnexpectedEndOfInput, position: 0 })
    );
}

#[test]
fn empty_document() {
    let mut input = "";
    assert_eq!(parse(&mut input, &()), Ok(vec![]));
}

#[test]
fn blank_lines_are_empty_line_blocks() {
    let mut input = "a\n\n  \nb";
    let blocks = parse(&mut input, &()).unwrap();
    assert_eq!(
        blocks,
        vec![
            Block { indent: 0, content: BlockContent::Line(vec![text("a")]) },
            Block { indent: 0, content: BlockContent::Line(vec![]) },
            Block { indent: 2, content: BlockContent::Line(vec![]) },
            Block { indent: 0, content: BlockContent::Line(vec![text("b")]) },
        ]
    );
    assert_eq!(input, "");
}

#[test]
fn document_keeps_source_order() {
    let mut input = "one\n> two\ncode:c\n three\ntable:t\n four\tfive\nsix";
    let blocks = parse(&mut input, &()).unwrap();
    assert_eq!(blocks.len(), 5);
    assert_eq!(blocks[0].content, BlockContent::Line(vec![text("one")]));
    assert_eq!(blocks[1].content, BlockContent::Quote(vec![text("two")]));
    assert!(matches!(blocks[2].content, BlockContent::CodeBlock { .. }));
    assert!(matches!(blocks[3].content, BlockContent::Table { .. }));
    assert_eq!(blocks[4], Block { indent: 0, content: BlockContent::Line(vec![text("six")]) });
    assert_eq!(input, "");
}

#[test]
fn inline_alternatives_in_one_span() {
    let mut input = "a $m$ `c` [p] z";
    let nodes = parse_nodes(&mut input, &()).unwrap();
    assert_eq!(
        nodes,
        vec![
            text("a "),
            Node::Math("m".to_string()),
            text(" "),
            Node::InlineCode("c".to_string()),
            text(" "),
            Node::Link(Link::Page("p".to_string())),
            text(" z"),
        ]
    );
    assert_eq!(input, "");
}

#[test]
fn empty_span_has_no_nodes() {
    let mut input = "";
    assert_eq!(parse_nodes(&mut input, &()), Ok(vec![]));
}

#[test]
fn markers_inside_a_span_are_plain() {
    let mut input = "`a [b] $c$`$d `e` [f]$";
    let nodes = parse_nodes(&mut input, &()).unwrap();
    assert_eq!(
        nodes,
        vec![Node::InlineCode("a [b] $c$".to_string()), Node::Math("d `e` [f]".to_string())]
    );
}

#[test]
fn unterminated_delimiter_fails_the_whole_parse() {
    for (source, position) in [
        ("ab $cd", 3),
        ("ab `cd", 3),
        ("ab [cd", 3),
        ("ok\n  x [y\nz]", 7),
        ("> q $", 4),
        ("[* b `c]", 5),
        ("[https://x  a$]", 13),
        ("[a$  https://x]", 2),
        ("table:t\n a\tb[\n", 12),
        ("$a\n$", 0),
    ] {
        let mut input = source;
        assert_eq!(
            parse(&mut input, &()),
            Err(ParseError { kind: ParseErrorKind::UnterminatedDelimiter, position }),
            "source {:?}",
            source
        );
        assert_eq!(input, source);
    }
}

#[test]
fn closed_delimiters_parse_and_use_up_the_input() {
    for source in ["$a$ `b` [c]", "[* `d`]", "x\n  code:y\n   [z\n", "table:t\n [a]\t$b$\n"] {
        let mut input = source;
        assert!(parse(&mut input, &()).is_ok(), "source {:?}", source);
        assert_eq!(input, "");
    }
}

#[test]
fn line_failure_leaves_the_cursor() {
    let mut input = "x [y\nz";
    assert_eq!(
        parse_line(&mut input, &(), 0),
        Err(ParseError { kind: ParseErrorKind::UnterminatedDelimiter, position: 2 })
    );
    assert_eq!(input, "x [y\nz");
}
