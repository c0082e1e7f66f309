use cosy::{classify_bracket, parse_bracket, Link, Node, ParseError, ParseErrorKind};

fn text(s: &str) -> Node<()> {
    Node::Text(s.to_string())
}

fn bracket(source: &str) -> Result<Node<()>, ParseError> {
    let mut input = source;
    let result = parse_bracket(&mut input, &());
    if result.is_ok() {
        assert_eq!(input, "");
    } else {
        assert_eq!(input, source);
    }
    result
}

#[test]
fn bracket_decoration() {
    assert_eq!(
        bracket("[* bold]"),
        Ok(Node::Decoration { decos: "*".to_string(), nodes: vec![text("bold")] })
    );
}

#[test]
fn bracket_icon() {
    assert_eq!(bracket("[page.icon]"), Ok(Node::Icon { name: "page".to_string(), count: 1 }));
}

#[test]
fn bracket_image() {
    assert_eq!(bracket("[https://x/y.png]"), Ok(Node::Image("https://x/y.png".to_string())));
}

#[test]
fn bracket_url() {
    assert_eq!(bracket("[https://x/y]"), Ok(Node::Link(Link::Url("https://x/y".to_string()))));
}

#[test]
fn bracket_page() {
    assert_eq!(bracket("[My Page]"), Ok(Node::Link(Link::Page("My Page".to_string()))));
}

#[test]
fn bracket_labelled_link() {
    assert_eq!(
        bracket("[https://x label]"),
        Ok(Node::Link(Link::WithLabel { href: "https://x".to_string(), label: vec![text("label")] }))
    );
}

#[test]
fn bracket_label_before_the_address() {
    assert_eq!(
        bracket("[羅生門 https://ja.wikipedia.org/wiki/x_(y)]"),
        Ok(Node::Link(Link::WithLabel {
            href: "https://ja.wikipedia.org/wiki/x_(y)".to_string(),
            label: vec![text("羅生門")],
        }))
    );
}

#[test]
fn bracket_label_is_split_at_the_first_space() {
    assert_eq!(
        bracket("[http://x  two words ]"),
        Ok(Node::Link(Link::WithLabel {
            href: "http://x".to_string(),
            label: vec![text("two words")],
        }))
    );
    // The address has to be all of what follows the first space.
    assert_eq!(
        bracket("[two words http://x]"),
        Ok(Node::Link(Link::Page("two words http://x".to_string())))
    );
}

#[test]
fn bracket_label_holds_markup() {
    assert_eq!(
        bracket("[https://x `a` $b$]"),
        Ok(Node::Link(Link::WithLabel {
            href: "https://x".to_string(),
            label: vec![
                Node::InlineCode("a".to_string()),
                text(" "),
                Node::Math("b".to_string()),
            ],
        }))
    );
}

#[test]
fn bracket_math_is_trimmed() {
    assert_eq!(bracket("[$ x^2 + 1 ]"), Ok(Node::Math("x^2 + 1".to_string())));
    assert_eq!(bracket("[$]"), Ok(Node::Math(String::new())));
    // Math comes before every other built-in rule.
    assert_eq!(bracket("[$.icon]"), Ok(Node::Math(".icon".to_string())));
}

#[test]
fn bracket_decoration_markers() {
    assert_eq!(
        bracket("[*-/_! all of them]"),
        Ok(Node::Decoration { decos: "*-/_!".to_string(), nodes: vec![text("all of them")] })
    );
    assert_eq!(
        bracket("[** ]"),
        Ok(Node::Decoration { decos: "**".to_string(), nodes: vec![] })
    );
    assert_eq!(
        bracket("[*  $a$]"),
        Ok(Node::Decoration {
            decos: "*".to_string(),
            nodes: vec![text(" "), Node::Math("a".to_string())],
        })
    );
}

#[test]
fn bracket_that_only_looks_like_a_decoration() {
    // No space: an ordinary page.
    assert_eq!(bracket("[*bold]"), Ok(Node::Link(Link::Page("*bold".to_string()))));
    // Another character before the first space.
    assert_eq!(bracket("[*a b]"), Ok(Node::Link(Link::Page("*a b".to_string()))));
    // Not a decoration character.
    assert_eq!(bracket("[# b]"), Ok(Node::Link(Link::Page("# b".to_string()))));
    assert_eq!(bracket("[{ b]"), Ok(Node::Link(Link::Page("{ b".to_string()))));
}

#[test]
fn bracket_decoration_comes_before_icon_and_link() {
    assert_eq!(
        bracket("[* page.icon]"),
        Ok(Node::Decoration { decos: "*".to_string(), nodes: vec![text("page.icon")] })
    );
    assert_eq!(
        bracket("[- https://x]"),
        Ok(Node::Decoration { decos: "-".to_string(), nodes: vec![text("https://x")] })
    );
}

#[test]
fn bracket_icon_comes_before_link() {
    assert_eq!(
        bracket("[https://x/a b.icon]"),
        Ok(Node::Icon { name: "https://x/a b".to_string(), count: 1 })
    );
    assert_eq!(bracket("[.icon]"), Ok(Node::Icon { name: String::new(), count: 1 }));
    assert_eq!(bracket("[a.icon.icon]"), Ok(Node::Icon { name: "a.icon".to_string(), count: 1 }));
    // The repetition form is an ordinary page.
    assert_eq!(bracket("[a.icon*3]"), Ok(Node::Link(Link::Page("a.icon*3".to_string()))));
}

#[test]
fn bracket_image_extensions() {
    for ext in ["png", "jpg", "gif", "webp"] {
        let source = format!("[http://x/y.{}]", ext);
        let mut input = source.as_str();
        assert_eq!(
            parse_bracket(&mut input, &()),
            Ok(Node::Image(format!("http://x/y.{}", ext)))
        );
    }
    assert_eq!(bracket("[https://x/y.jpeg]"), Ok(Node::Link(Link::Url("https://x/y.jpeg".to_string()))));
    assert_eq!(bracket("[https://x/y.PNG]"), Ok(Node::Link(Link::Url("https://x/y.PNG".to_string()))));
    assert_eq!(bracket("[y.png]"), Ok(Node::Link(Link::Page("y.png".to_string()))));
}

#[test]
fn bracket_empty() {
    assert_eq!(bracket("[]"), Ok(Node::Link(Link::Page(String::new()))));
}

#[test]
fn bracket_ends_at_the_first_closing_bracket() {
    let mut input = "[a [b] c]";
    assert_eq!(parse_bracket(&mut input, &()), Ok(Node::Link(Link::Page("a [b".to_string()))));
    assert_eq!(input, " c]");
}

#[test]
fn bracket_never_closed() {
    assert_eq!(
        bracket("[never closed"),
        Err(ParseError { kind: ParseErrorKind::UnterminatedDelimiter, position: 0 })
    );
}

#[test]
fn bracket_needs_its_opening() {
    for source in ["x[y]", "", "]"] {
        assert_eq!(
            bracket(source),
            Err(ParseError { kind: ParseErrorKind::NoAlternativeMatched, position: 0 })
        );
    }
}

#[test]
fn bracket_failure_inside_a_label() {
    assert_eq!(
        bracket("[https://x \u{3000}a `b]"),
        Err(ParseError { kind: ParseErrorKind::UnterminatedDelimiter, position: 14 })
    );
}

#[test]
fn classify_takes_the_hook_output_first() {
    let content: Vec<char> = "* bold".chars().collect();
    assert_eq!(classify_bracket(&content, Some(()), &()), Ok(Node::Custom(())));
    assert_eq!(
        classify_bracket(&content, None, &()),
        Ok(Node::Decoration { decos: "*".to_string(), nodes: vec![text("bold")] })
    );
}
