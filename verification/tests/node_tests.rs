use bumpalo::Bump;
use rustify_ts::parser::ast::node::{AstArena, AstNode, NodeBuilder};
use rustify_ts::parser::ast::span::Span;
use rustify_ts::parser::ast::types::{BinaryOperator, Literal, NodeId, NodeKind};

#[test]
fn test_ast_node_creation() {
    let kind = NodeKind::Identifier { name: "test".to_string() };
    let node = AstNode::new(kind);
    assert!(matches!(node.kind(), NodeKind::Identifier { .. }));
}

#[test]
fn test_ast_node_children() {
    let arena = Bump::new();
    let builder = NodeBuilder::new(&arena);

    let _child1 = builder.alloc_node(NodeKind::Literal(Literal::String("hello".to_string())));
    let _child2 = builder.alloc_node(NodeKind::Literal(Literal::Number(42.0f64.to_bits())));
    let parent = builder.alloc_node(NodeKind::Identifier { name: "parent".to_string() });

    assert_eq!(parent.children().len(), 0);
}

#[test]
fn test_node_builder() {
    let arena = Bump::new();
    let builder = NodeBuilder::new(&arena);

    let node = builder.alloc_node(NodeKind::Identifier { name: "test".to_string() });

    assert!(matches!(node.kind(), NodeKind::Identifier { .. }));
}

#[test]
fn test_ast_arena() {
    let arena = AstArena::new();
    let _builder = arena.builder();

    assert!(arena.root().is_none());
}

#[test]
fn test_node_allocation_in_arena() {
    let arena = Bump::new();
    let builder = NodeBuilder::new(&arena);

    for i in 0..100 {
        builder.alloc_node(NodeKind::Literal(Literal::Number((i as f64).to_bits())));
    }

    assert!(arena.allocated_bytes() > 0);
}

#[test]
fn test_complex_node_structure() {
    let arena = Bump::new();
    let builder = NodeBuilder::new(&arena);

    let left = builder.alloc_node(NodeKind::Identifier { name: "a".to_string() });
    let right = builder.alloc_node(NodeKind::Identifier { name: "b".to_string() });
    let add_node = builder.alloc_with_children(
        NodeKind::Binary { operator: BinaryOperator::Add, left: NodeId::new(0), right: NodeId::new(1) },
        vec![left, right],
    );
    assert_eq!(add_node.children().len(), 2);
}

#[test]
fn test_arena_default() {
    let arena = AstArena::default();
    assert!(arena.root().is_none());
}

#[test]
fn node_spans_children_and_roots() {
    let mut node = AstNode::new(NodeKind::This);
    assert_eq!(node.span(), None);
    node.set_span(Span::new(2, 5));
    assert_eq!(node.span(), Some(Span::new(2, 5)));

    let arena = Bump::new();
    let builder = NodeBuilder::new(&arena);
    let a = builder.alloc_with_span(NodeKind::Super, Span::new(0, 1));
    assert_eq!(a.span(), Some(Span::new(0, 1)));
    let b = builder.alloc_complete(NodeKind::This, Span::new(1, 3), vec![a]);
    assert_eq!(b.children().len(), 1);
    assert_eq!(b.span(), Some(Span::new(1, 3)));

    let mut parent = AstNode::new(NodeKind::This);
    parent.add_child(a);
    parent.extend_children(vec![b, a]);
    assert_eq!(parent.children().len(), 3);

    let mut tree = AstArena::new();
    let allocated_before = tree.allocated_bytes();
    let root = {
        let builder = tree.builder();
        let _ = builder.arena();
        allocated_before
    };
    assert_eq!(root, allocated_before);
    let leaked: &'static Bump = Box::leak(Box::new(Bump::new()));
    let r = NodeBuilder::new(leaked).alloc_node(NodeKind::This);
    tree.set_root(r);
    assert!(tree.root().is_some());
}
