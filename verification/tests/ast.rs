use cosy::{parse, Block, BlockContent, CodeBlockMeta, Document, Link, Node};

#[test]
fn nodes_clone_deeply() {
    let node: Node<u8> = Node::Decoration {
        decos: "*".to_string(),
        nodes: vec![
            Node::Text("a".to_string()),
            Node::Link(Link::WithLabel {
                href: "https://x".to_string(),
                label: vec![Node::Custom(7), Node::Math("m".to_string())],
            }),
            Node::Icon { name: "i".to_string(), count: 1 },
            Node::Image("https://x/y.png".to_string()),
            Node::InlineCode("c".to_string()),
            Node::Link(Link::Page("p".to_string())),
            Node::Link(Link::Url("http://u".to_string())),
        ],
    };
    let copy = node.clone();
    assert_eq!(copy, node);
}

#[test]
fn documents_clone() {
    let mut input = "a [b]\ncode:f(t)\n x\ntable:t\n 1\t2\n> q";
    let document: Document<()> = parse(&mut input, &()).unwrap();
    let copy = document.clone();
    assert_eq!(copy, document);
    assert_eq!(copy.len(), 4);
}

#[test]
fn blocks_compare_by_value() {
    let a: Block<()> = Block {
        indent: 1,
        content: BlockContent::CodeBlock {
            meta: CodeBlockMeta::Absent,
            indent: 1,
            content: "x".to_string(),
        },
    };
    let mut b = a.clone();
    assert_eq!(a, b);
    b.indent = 2;
    assert_ne!(a, b);
}
