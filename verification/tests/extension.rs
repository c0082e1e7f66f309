use cosy::{
    parse, parse_bracket, BlockContent, CosyParserExtension, Link, Node, ParseError, ParseErrorKind,
};

#[derive(Debug, PartialEq)]
enum MySyntax {
    SpeechBubble(String),
}

struct MyExtension;

impl CosyParserExtension for MyExtension {
    type Output = MySyntax;

    fn parse_bracket(&self, content: &str) -> Option<Self::Output> {
        if let Some(body) = content.strip_prefix("{ ") {
            Some(MySyntax::SpeechBubble(body.to_string()))
        } else {
            None
        }
    }

    fn parse_block(&self, _content: &str) -> Option<Self::Output> {
        None
    }
}

/// Claims every bracket, whatever it holds.
struct Greedy;

impl CosyParserExtension for Greedy {
    type Output = String;

    fn parse_bracket(&self, content: &str) -> Option<Self::Output> {
        Some(content.to_string())
    }

    fn parse_block(&self, _content: &str) -> Option<Self::Output> {
        None
    }
}

/// Numbers the brackets it is asked about, so that two brackets with the
/// same text get different answers.
struct Counting {
    asked: std::cell::Cell<usize>,
}

impl CosyParserExtension for Counting {
    type Output = usize;

    fn parse_bracket(&self, content: &str) -> Option<Self::Output> {
        if content == "n" {
            let n = self.asked.get();
            self.asked.set(n + 1);
            Some(n)
        } else {
            None
        }
    }

    fn parse_block(&self, _content: &str) -> Option<Self::Output> {
        None
    }
}

#[test]
fn each_bracket_is_asked_once_in_source_order() {
    let extension = Counting { asked: std::cell::Cell::new(0) };
    let mut input = "[n] [m]\n> [n]\ntable:t\n [n]\t[* n]\t[n]\ncode:c\n [n]\n";
    let blocks = parse(&mut input, &extension).unwrap();
    assert_eq!(extension.asked.get(), 4);
    assert_eq!(
        blocks[0].content,
        BlockContent::Line(vec![
            Node::Custom(0),
            Node::Text(" ".to_string()),
            Node::Link(Link::Page("m".to_string())),
        ])
    );
    assert_eq!(blocks[1].content, BlockContent::Quote(vec![Node::Custom(1)]));
    assert_eq!(
        blocks[2].content,
        BlockContent::Table {
            name: "t".to_string(),
            rows: vec![vec![
                vec![Node::Custom(2)],
                vec![Node::Decoration {
                    decos: "*".to_string(),
                    nodes: vec![Node::Text("n".to_string())],
                }],
                vec![Node::Custom(3)],
            ]],
        }
    );
    assert_eq!(blocks.len(), 4);
}

#[test]
fn parse_speech_bubble() {
    let extension = MyExtension;
    let input = "こんにちは、[{ フキダシ] これは [テスト] です。";

    let mut input_stream = input;

    let result = parse(&mut input_stream, &extension);

    assert!(result.is_ok());
    let blocks = result.unwrap();

    assert_eq!(blocks.len(), 1);

    let block = &blocks[0];
    assert_eq!(block.indent, 0);

    let expected = BlockContent::Line(vec![
        Node::Text("こんにちは、".to_string()),
        Node::Custom(MySyntax::SpeechBubble("フキダシ".to_string())),
        Node::Text(" これは ".to_string()),
        Node::Link(Link::Page("テスト".to_string())),
        Node::Text(" です。".to_string()),
    ]);
    assert_eq!(block.content, expected);
}

#[test]
fn unit_extension_reads_nothing() {
    assert_eq!(().parse_bracket("{ anything"), None);
    assert_eq!(().parse_block("anything"), None);
}

#[test]
fn extension_output_replaces_every_builtin_rule() {
    for content in [
        "$ x^2",
        "* bold",
        "page.icon",
        "https://x label",
        "label https://x",
        "https://x/y.png",
        "https://x/y",
        "My Page",
        "",
    ] {
        let text = format!("[{}]", content);
        let mut input = text.as_str();
        let node = parse_bracket(&mut input, &Greedy).unwrap();
        assert_eq!(node, Node::Custom(content.to_string()));
        assert_eq!(input, "");
    }
}

#[test]
fn first_closing_bracket_ends_the_bracket() {
    // The first `]` closes the bracket, so the decoration body is `a [{ b`,
    // whose `[` is never closed.
    let mut input = "[* a [{ b] c]";
    assert_eq!(
        parse_bracket(&mut input, &MyExtension),
        Err(ParseError { kind: ParseErrorKind::UnterminatedDelimiter, position: 5 })
    );
    assert_eq!(input, "[* a [{ b] c]");
}

#[test]
fn claimed_bracket_is_not_parsed_further() {
    // With the built-in rules the body `$x` of the decoration is an
    // unterminated span; a claimed bracket is taken as it is.
    let mut input = "[* $x]";
    assert!(parse_bracket(&mut input, &()).is_err());
    let mut input = "[* $x]";
    assert_eq!(
        parse_bracket(&mut input, &Greedy),
        Ok(Node::Custom("* $x".to_string()))
    );
}
