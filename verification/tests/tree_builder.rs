use toy_lang::cst::{Element, SyntaxKind, TreeBuilder};

#[test]
fn builder_nests_nodes_and_tokens() {
    let mut b = TreeBuilder::new();
    b.start_node(SyntaxKind::Root);
    b.start_node(SyntaxKind::Literal);
    b.token(SyntaxKind::Integer, "42");
    b.finish_node();
    b.token(SyntaxKind::NewLine, "\n");
    b.finish_node();
    let tree = b.finish();
    assert_eq!(tree.nodes.len(), 2);
    assert_eq!(tree.nodes[0].kind, SyntaxKind::Root);
    assert_eq!(tree.nodes[0].parent, None);
    assert_eq!(tree.nodes[1].parent, Some(0));
    assert!(matches!(tree.nodes[0].children[0], Element::Node(1)));
    assert!(matches!(&tree.nodes[0].children[1], Element::Token(t) if t.text == "\n" && t.range.start == 2 && t.range.end == 3));
    assert_eq!(tree.nodes[1].range.start, 0);
    assert_eq!(tree.nodes[1].range.end, 2);
    assert_eq!(tree.nodes[0].range.end, 3);
}

#[test]
fn token_ranges_count_bytes() {
    let mut b = TreeBuilder::new();
    b.start_node(SyntaxKind::Root);
    b.token(SyntaxKind::String, "\"é\"");
    b.finish_node();
    let tree = b.finish();
    assert_eq!(tree.nodes[0].range.end, 4);
}
