use cosy::{parse, parse_code_block, Block, BlockContent, CodeBlockMeta, Node, ParseError, ParseErrorKind};

fn code(meta: CodeBlockMeta, indent: usize, content: &str) -> BlockContent<()> {
    BlockContent::CodeBlock { meta, indent, content: content.to_string() }
}

#[test]
fn parse_code_block_with_filename() {
    let input = r#"code:example.rs
 fn main() {
  println!("Hello, world!");
 }
"#;

    let mut input_stream = input;
    let result = parse_code_block::<()>(&mut input_stream, 0);
    assert!(result.is_ok());
    let block = result.unwrap();
    assert_eq!(block.indent, 0);
    assert_eq!(
        block.content,
        BlockContent::CodeBlock {
            meta: CodeBlockMeta::Either("example.rs".to_string()),
            indent: 0,
            content: "fn main() {\nprintln!(\"Hello, world!\");\n}".to_string(),
        }
    );
}

#[test]
fn parse_code_block_without_filename() {
    let input = "code:\n    print('Hello, World!')\n";
    let mut input_stream = input;
    let result = parse_code_block::<()>(&mut input_stream, 0);
    assert!(result.is_ok());
    let block = result.unwrap();
    assert_eq!(block.indent, 0);
    assert_eq!(
        block.content,
        BlockContent::CodeBlock {
            meta: CodeBlockMeta::Absent,
            indent: 0,
            content: "print('Hello, World!')".to_string(),
        }
    );
}

#[test]
fn parse_code_block_with_filename_and_filetype() {
    let input = "code:script.py(python)\n def greet():\n print('Hello')\n";
    let mut input_stream = input;
    let result = parse_code_block::<()>(&mut input_stream, 0);
    assert!(result.is_ok());
    let block = result.unwrap();
    assert_eq!(block.indent, 0);
    assert_eq!(
        block.content,
        BlockContent::CodeBlock {
            meta: CodeBlockMeta::Both {
                filename: "script.py".to_string(),
                filetype: "python".to_string(),
            },
            indent: 0,
            content: "def greet():\nprint('Hello')".to_string(),
        }
    );
}

#[test]
fn test_end_of_code_block() {
    let input = "code:example.py\n    print('Hello, World!')\nThis is outside the code block.";
    let mut input_stream = input;
    let result = parse_code_block::<()>(&mut input_stream, 0);
    assert!(result.is_ok());
    let block = result.unwrap();
    assert_eq!(block.indent, 0);
    assert_eq!(
        block.content,
        BlockContent::CodeBlock {
            meta: CodeBlockMeta::Either("example.py".to_string()),
            indent: 0,
            content: "print('Hello, World!')".to_string(),
        }
    );
}

#[test]
fn code_block_leaves_the_first_shallow_line() {
    let mut input = "code:example.py\n    print('Hello, World!')\nThis is outside the code block.";
    parse_code_block::<()>(&mut input, 0).unwrap();
    assert_eq!(input, "This is outside the code block.");
}

#[test]
fn fence_takes_deeper_lines_only() {
    // A fence at indent 2 takes the lines with more than two leading
    // spaces and stops at the first with two or fewer.
    let mut input = "code:a\n   one\n      two\n  three\n    four\n";
    let block = parse_code_block::<()>(&mut input, 2).unwrap();
    assert_eq!(
        block,
        Block { indent: 2, content: code(CodeBlockMeta::Either("a".to_string()), 2, "one\ntwo") }
    );
    assert_eq!(input, "  three\n    four\n");
}

#[test]
fn fence_stops_at_the_end_of_the_input() {
    let mut input = "code:a\n x\n  y";
    let block = parse_code_block::<()>(&mut input, 0).unwrap();
    assert_eq!(block.content, code(CodeBlockMeta::Either("a".to_string()), 0, "x\ny"));
    assert_eq!(input, "");
}

#[test]
fn fence_without_body() {
    let mut input = "code:a";
    let block = parse_code_block::<()>(&mut input, 0).unwrap();
    assert_eq!(block.content, code(CodeBlockMeta::Either("a".to_string()), 0, ""));
    assert_eq!(input, "");
    let mut input = "code:a\nnext";
    let block = parse_code_block::<()>(&mut input, 0).unwrap();
    assert_eq!(block.content, code(CodeBlockMeta::Either("a".to_string()), 0, ""));
    assert_eq!(input, "next");
}

#[test]
fn tab_does_not_continue_a_fence() {
    let mut input = "code:a\n\tx\n";
    let block = parse_code_block::<()>(&mut input, 0).unwrap();
    assert_eq!(block.content, code(CodeBlockMeta::Either("a".to_string()), 0, ""));
    assert_eq!(input, "\tx\n");
}

#[test]
fn fence_keeps_blank_and_marked_up_lines_verbatim() {
    let mut input = "code:a\n [not a link\n \n $e\n";
    let block = parse_code_block::<()>(&mut input, 0).unwrap();
    assert_eq!(
        block.content,
        code(CodeBlockMeta::Either("a".to_string()), 0, "[not a link\n\n$e")
    );
    assert_eq!(input, "");
}

#[test]
fn fence_header_forms() {
    for (header, meta) in [
        ("", CodeBlockMeta::Absent),
        ("   ", CodeBlockMeta::Absent),
        ("()", CodeBlockMeta::Absent),
        ("( )", CodeBlockMeta::Absent),
        (" main.rs ", CodeBlockMeta::Either("main.rs".to_string())),
        ("main.rs()", CodeBlockMeta::Either("main.rs".to_string())),
        ("(rust)", CodeBlockMeta::Either("rust".to_string())),
        ("main.rs (rust)", CodeBlockMeta::Both {
            filename: "main.rs".to_string(),
            filetype: "rust".to_string(),
        }),
        ("a(b)(c)", CodeBlockMeta::Both {
            filename: "a(b)".to_string(),
            filetype: "c".to_string(),
        }),
        ("a( b c )", CodeBlockMeta::Both {
            filename: "a".to_string(),
            filetype: "b c".to_string(),
        }),
        ("a)", CodeBlockMeta::Either("a)".to_string())),
        ("a(b", CodeBlockMeta::Either("a(b".to_string())),
        ("a(b)c", CodeBlockMeta::Either("a(b)c".to_string())),
        ("\u{3000}名前\u{3000}", CodeBlockMeta::Either("名前".to_string())),
    ] {
        let text = format!("code:{}\n x\n", header);
        let mut input = text.as_str();
        let block = parse_code_block::<()>(&mut input, 0).unwrap();
        assert_eq!(block.content, code(meta, 0, "x"), "header {:?}", header);
    }
}

#[test]
fn code_block_needs_its_prefix() {
    let mut input = "cod:x\n y\n";
    assert_eq!(
        parse_code_block::<()>(&mut input, 0),
        Err(ParseError { kind: ParseErrorKind::NoAlternativeMatched, position: 0 })
    );
    assert_eq!(input, "cod:x\n y\n");
}

#[test]
fn code_prefix_wins_over_a_line() {
    let mut input = "  code:x\n   [y\nz";
    let blocks = parse(&mut input, &()).unwrap();
    assert_eq!(
        blocks,
        vec![
            Block { indent: 2, content: code(CodeBlockMeta::Either("x".to_string()), 2, "[y") },
            Block { indent: 0, content: BlockContent::Line(vec![Node::Text("z".to_string())]) },
        ]
    );
}

#[test]
fn header_is_trimmed_of_unicode_white_space() {
    for c in '\0'..='\u{3100}' {
        if c == '\n' {
            continue;
        }
        let text = format!("code:{}x{}\n", c, c);
        let mut input = text.as_str();
        let block = parse_code_block::<()>(&mut input, 0).unwrap();
        let expected = if c.is_whitespace() { "x".to_string() } else { format!("{}x{}", c, c) };
        assert_eq!(
            block.content,
            code(CodeBlockMeta::Either(expected), 0, ""),
            "character {:?}",
            c
        );
    }
}
