use bumpalo::Bump;
use rustify_ts::parser::ast::node::{AstNode, NodeBuilder};
use rustify_ts::parser::ast::types::{BinaryOperator, Literal, NodeId, NodeKind};
use rustify_ts::parser::ast::visitor::{visit_method, CollectIdentifiers, DepthCalculator, NodeCounter, VisitMethod};

fn number(n: f64) -> NodeKind {
    NodeKind::Literal(Literal::Number(n.to_bits()))
}

fn create_test_ast<'a>(arena: &'a Bump) -> &'a AstNode<'a> {
    let builder = NodeBuilder::new(arena);

    let _lit_1 = builder.alloc_node(number(1.0));
    let _lit_2 = builder.alloc_node(number(2.0));

    let var_x = builder.alloc_node(NodeKind::Identifier { name: "x".to_string() });
    let var_y = builder.alloc_node(NodeKind::Identifier { name: "y".to_string() });

    let add_expr = builder.alloc_with_children(
        NodeKind::Binary { operator: BinaryOperator::Add, left: NodeId::new(0), right: NodeId::new(1) },
        vec![var_x, var_y],
    );

    let return_stmt =
        builder.alloc_with_children(NodeKind::Return { value: Some(NodeId::new(0)) }, vec![add_expr]);

    builder.alloc_with_children(NodeKind::Block { statements: vec![NodeId::new(0)] }, vec![return_stmt])
}

#[test]
fn test_visitor_default_traversal() {
    let arena = Bump::new();
    let root = create_test_ast(&arena);

    let mut counter = NodeCounter::new();
    counter.visit_node(root);

    assert!(counter.count > 0);
}

#[test]
fn test_node_counter() {
    let arena = Bump::new();
    let root = create_test_ast(&arena);

    let count = NodeCounter::count(root);
    assert!(count > 0);

    let mut counter = NodeCounter::new();
    counter.visit_node(root);
    assert_eq!(counter.count, count);

    counter.reset();
    assert_eq!(counter.count, 0);
    counter.visit_node(root);
    assert_eq!(counter.count, count);
}

#[test]
fn test_depth_calculator() {
    let arena = Bump::new();
    let root = create_test_ast(&arena);

    let depth = DepthCalculator::depth(root);
    assert!(depth >= 2);
}

#[test]
fn test_collect_identifiers() {
    let arena = Bump::new();
    let root = create_test_ast(&arena);

    let identifiers = CollectIdentifiers::collect(root);
    assert!(identifiers.contains(&"x".to_string()));
    assert!(identifiers.contains(&"y".to_string()));
}

#[test]
fn test_empty_ast() {
    let arena = Bump::new();
    let builder = NodeBuilder::new(&arena);

    let root = builder.alloc_node(NodeKind::Identifier { name: "test".to_string() });

    let count = NodeCounter::count(root);
    assert_eq!(count, 1);

    let depth = DepthCalculator::depth(root);
    assert_eq!(depth, 1);
}

#[test]
fn test_visitor_default() {
    assert_eq!(NodeCounter::default().count, 0);
    assert_eq!(DepthCalculator::default().max_depth(), 0);
    assert_eq!(CollectIdentifiers::default().identifiers().len(), 0);
}

#[test]
fn test_nested_structure() {
    let arena = Bump::new();
    let builder = NodeBuilder::new(&arena);

    let lit = builder.alloc_node(number(1.0));
    let inner = builder.alloc_with_children(
        NodeKind::Binary { operator: BinaryOperator::Add, left: NodeId::new(0), right: NodeId::new(0) },
        vec![lit, lit],
    );
    let outer = builder.alloc_with_children(
        NodeKind::Binary { operator: BinaryOperator::Add, left: NodeId::new(0), right: NodeId::new(0) },
        vec![inner, inner],
    );

    let count = NodeCounter::count(outer);
    assert!(count >= 5);
}

#[test]
fn exact_counts_depths_and_identifier_order() {
    let arena = Bump::new();
    let root = create_test_ast(&arena);
    // block, return, binary, x, y
    assert_eq!(NodeCounter::count(root), 5);
    assert_eq!(DepthCalculator::depth(root), 4);
    assert_eq!(CollectIdentifiers::collect(root), vec!["x".to_string(), "y".to_string()]);

    let mut depth = DepthCalculator::new();
    depth.visit_node(root);
    assert_eq!(depth.max_depth(), 4);
    let mut ids = CollectIdentifiers::new();
    ids.visit_node(root);
    ids.visit_node(root);
    assert_eq!(ids.identifiers().len(), 4);
}

#[test]
fn each_kind_is_dispatched_to_its_method() {
    assert_eq!(visit_method(&NodeKind::Block { statements: vec![] }), VisitMethod::Block);
    assert_eq!(visit_method(&NodeKind::This), VisitMethod::This);
    assert_eq!(visit_method(&NodeKind::Literal(Literal::Null)), VisitMethod::Literal);
    assert_eq!(
        visit_method(&NodeKind::Binary { operator: BinaryOperator::Add, left: NodeId::new(0), right: NodeId::new(1) }),
        VisitMethod::Binary
    );
    assert_eq!(visit_method(&NodeKind::Identifier { name: "x".to_string() }), VisitMethod::Identifier);
}
