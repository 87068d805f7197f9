use atelier::{ByteOffset, ByteRange, Revision, SyntaxNode, SyntaxTree};

fn range(start: usize, end: usize) -> ByteRange {
    ByteRange::new(ByteOffset::new(start), ByteOffset::new(end))
}

#[test]
fn finds_named_nodes_after_construction() {
    let function = SyntaxNode::new(
        "function_item",
        range(0, 12),
        vec![SyntaxNode::new("identifier", range(3, 7), Vec::new())],
    );
    let tree = SyntaxTree::new(Revision::default(), function);

    assert_eq!(tree.root().kind(), "function_item");
    assert_eq!(tree.root().find_kind("identifier").map(SyntaxNode::kind), Some("identifier"));
    assert_eq!(tree.root().named_node_count(), 2);
}

#[test]
fn finds_nodes_in_pre_order_and_counts_every_node() {
    let tree = SyntaxNode::new(
        "source_file",
        range(0, 30),
        vec![
            SyntaxNode::new("item", range(0, 10), vec![SyntaxNode::new("name", range(3, 4), Vec::new())]),
            SyntaxNode::new("name", range(12, 13), Vec::new()),
        ],
    );
    assert_eq!(tree.find_kind("name").map(SyntaxNode::range), Some(range(3, 4)));
    assert_eq!(tree.find_kind("missing").map(SyntaxNode::range), None);
    assert_eq!(tree.named_node_count(), 4);
    assert_eq!(tree.children().len(), 2);
    assert_eq!(SyntaxTree::new(Revision(7), tree).revision(), Revision(7));
}
