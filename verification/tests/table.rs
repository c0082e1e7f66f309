use cosy::{parse, parse_table, Block, BlockContent, Link, Node, ParseError, ParseErrorKind};

fn text(s: &str) -> Node<()> {
    Node::Text(s.to_string())
}

#[test]
fn parse_table_block() {
    let input = "table:MyTable\n    Cell1\tCell2\tCell3\n    Data1\tData2\tData3\n";
    let mut input_stream = input;
    let result = parse_table(&mut input_stream, &(), 0);
    assert!(result.is_ok());
    let block = result.unwrap();
    assert_eq!(block.indent, 0);
    assert_eq!(
        block.content,
        BlockContent::Table {
            name: "MyTable".to_string(),
            rows: vec![
                vec![
                    vec![Node::Text("Cell1".to_string())],
                    vec![Node::Text("Cell2".to_string())],
                    vec![Node::Text("Cell3".to_string())],
                ],
                vec![
                    vec![Node::Text("Data1".to_string())],
                    vec![Node::Text("Data2".to_string())],
                    vec![Node::Text("Data3".to_string())],
                ],
            ],
        }
    );
}

#[test]
fn parse_table_without_name() {
    let input = "table:\n    A\tB\n    1\t2\n";
    let mut input_stream = input;
    let result = parse_table(&mut input_stream, &(), 0);
    assert!(result.is_ok());
    let block = result.unwrap();
    assert_eq!(block.indent, 0);
    assert_eq!(
        block.content,
        BlockContent::Table {
            name: "".to_string(),
            rows: vec![
                vec![
                    vec![Node::Text("A".to_string())],
                    vec![Node::Text("B".to_string())],
                ],
                vec![
                    vec![Node::Text("1".to_string())],
                    vec![Node::Text("2".to_string())],
                ],
            ],
        }
    );
}

#[test]
fn table_with_rows_indented_by_a_space() {
    let mut input = "table:T\n A\tB\n 1\t2\n";
    let block = parse_table(&mut input, &(), 0).unwrap();
    assert_eq!(
        block.content,
        BlockContent::Table {
            name: "T".to_string(),
            rows: vec![
                vec![vec![text("A")], vec![text("B")]],
                vec![vec![text("1")], vec![text("2")]],
            ],
        }
    );
    assert_eq!(input, "");
}

#[test]
fn rows_that_start_with_a_tab_do_not_continue_a_table() {
    // A tab is not indentation, so the lines under the header are not
    // deeper than the header and stay behind as lines of their own.
    let mut input = "table:T\n\tA\tB\n\t1\t2\n";
    let blocks = parse(&mut input, &()).unwrap();
    assert_eq!(
        blocks,
        vec![
            Block {
                indent: 0,
                content: BlockContent::Table { name: "T".to_string(), rows: vec![] },
            },
            Block { indent: 0, content: BlockContent::Line(vec![text("\tA\tB")]) },
            Block { indent: 0, content: BlockContent::Line(vec![text("\t1\t2")]) },
        ]
    );
}

#[test]
fn table_cells_hold_markup() {
    let mut input = "table: links \n  [a]\t$b$\t\n";
    let block = parse_table(&mut input, &(), 0).unwrap();
    assert_eq!(
        block.content,
        BlockContent::Table {
            name: "links".to_string(),
            rows: vec![vec![
                vec![Node::Link(Link::Page("a".to_string()))],
                vec![Node::Math("b".to_string())],
                vec![],
            ]],
        }
    );
}

#[test]
fn table_rows_may_differ_in_length() {
    let mut input = "table:t\n a\n b\tc\td\n \nrest";
    let block = parse_table(&mut input, &(), 0).unwrap();
    assert_eq!(
        block.content,
        BlockContent::Table {
            name: "t".to_string(),
            rows: vec![
                vec![vec![text("a")]],
                vec![vec![text("b")], vec![text("c")], vec![text("d")]],
                vec![vec![]],
            ],
        }
    );
    assert_eq!(input, "rest");
}

#[test]
fn table_ends_at_the_first_shallow_line() {
    let mut input = "table:t\n    a\n  b\n    c\n";
    let block = parse_table(&mut input, &(), 2).unwrap();
    assert_eq!(block.indent, 2);
    assert_eq!(
        block.content,
        BlockContent::Table { name: "t".to_string(), rows: vec![vec![vec![text("a")]]] }
    );
    assert_eq!(input, "  b\n    c\n");
}

#[test]
fn bracket_does_not_span_cells() {
    let mut input = "table:t\n [a\tb]\n";
    assert_eq!(
        parse_table(&mut input, &(), 0),
        Err(ParseError { kind: ParseErrorKind::UnterminatedDelimiter, position: 9 })
    );
    assert_eq!(input, "table:t\n [a\tb]\n");
}

#[test]
fn table_needs_its_prefix() {
    let mut input = "tabel:t\n a\n";
    assert_eq!(
        parse_table(&mut input, &(), 0),
        Err(ParseError { kind: ParseErrorKind::NoAlternativeMatched, position: 0 })
    );
    assert_eq!(input, "tabel:t\n a\n");
}
