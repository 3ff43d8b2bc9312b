use bumpalo::Bump;
use rustify_ts::parser::ast::node::NodeBuilder;
use rustify_ts::parser::ast::span::Span;
use rustify_ts::parser::ast::types::{NodeId, NodeKind, VariableDeclaration, VariableKind};
use rustify_ts::semantic::scope::analyzer::ScopeAnalyzer;
use rustify_ts::semantic::types::interner::TypeInterner;


fn test_span() -> Span {
    Span::new(0, 100)
}

#[test]
fn test_block_scope() {
    let arena = Bump::new();
    let mut type_interner = TypeInterner::new();
    let mut analyzer = ScopeAnalyzer::new(&arena, &mut type_interner, test_span());

    let builder = NodeBuilder::new(&arena);

    // Create AST: { let x = 1; }
    let lit_1 = builder.alloc_node(NodeKind::Literal(rustify_ts::parser::ast::types::Literal::Number(1.0f64.to_bits())));
    let var_stmt = builder.alloc_node(NodeKind::VariableStatement {
        declarations: vec![VariableDeclaration {
            name: "x".to_string(),
            kind: VariableKind::Let,
            initializer: Some(NodeId::new(0)), // lit_1 is first child
            type_annotation: None,
        }],
    });
    let block = builder.alloc_with_children(
        NodeKind::Block {
            statements: vec![NodeId::new(0)] // var_stmt is first child
        },
        vec![var_stmt, lit_1],
    );

    // Visit the block
    analyzer.visit_node(block);

    // Should have 2 scopes: root + block
    assert_eq!(analyzer.scope_table.scope_count(), 2);

    // x should be in the block scope, not root
    let root_scope = analyzer.scope_table.root();
    let scopes: Vec<_> = analyzer.scope_table.scopes().iter().collect();
    let block_scope = scopes[1].id();

    assert!(analyzer.symbol_table.lookup_in_scope("x", root_scope).is_none());
    assert!(analyzer.symbol_table.lookup_in_scope("x", block_scope).is_some());
}

#[test]
fn test_var_hoisting() {
    let arena = Bump::new();
    let mut type_interner = TypeInterner::new();
    let mut analyzer = ScopeAnalyzer::new(&arena, &mut type_interner, test_span());

    let builder = NodeBuilder::new(&arena);

    // Create AST: { var x = 1; }
    let lit_1 = builder.alloc_node(NodeKind::Literal(rustify_ts::parser::ast::types::Literal::Number(1.0f64.to_bits())));
    let var_stmt = builder.alloc_node(NodeKind::VariableStatement {
        declarations: vec![VariableDeclaration {
            name: "x".to_string(),
            kind: VariableKind::Var,
            initializer: Some(NodeId::new(0)), // lit_1 is first child
            type_annotation: None,
        }],
    });
    let block = builder.alloc_with_children(
        NodeKind::Block {
            statements: vec![NodeId::new(0)] // var_stmt is first child
        },
        vec![var_stmt, lit_1],
    );

    // Visit the block
    analyzer.visit_node(block);

    // var x should be hoisted to root scope
    let root_scope = analyzer.scope_table.root();

    assert!(analyzer.symbol_table.lookup_in_scope("x", root_scope).is_some());
}

#[test]
fn test_function_scope() {
    let arena = Bump::new();
    let mut type_interner = TypeInterner::new();
    let mut analyzer = ScopeAnalyzer::new(&arena, &mut type_interner, test_span());

    let builder = NodeBuilder::new(&arena);

    // Create AST: function f() { let x = 1; }
    let f_name = builder.alloc_node(NodeKind::Identifier { name: "f".to_string() });
    let lit_1 = builder.alloc_node(NodeKind::Literal(rustify_ts::parser::ast::types::Literal::Number(1.0f64.to_bits())));
    let var_stmt = builder.alloc_node(NodeKind::VariableStatement {
        declarations: vec![VariableDeclaration {
            name: "x".to_string(),
            kind: VariableKind::Let,
            initializer: Some(NodeId::new(0)), // lit_1 is first child after var_stmt
            type_annotation: None,
        }],
    });
    let body = builder.alloc_with_children(
        NodeKind::Block {
            statements: vec![NodeId::new(0)] // var_stmt is first child of block
        },
        vec![var_stmt, lit_1],
    );
    let func_decl = builder.alloc_with_children(
        NodeKind::FunctionDeclaration {
            name: "f".to_string(),
            params: vec![],
            return_type: None,
            body: NodeId::new(1), // body is second child (index 1)
        },
        vec![f_name, body],
    );

    // Visit the function
    analyzer.visit_node(func_decl);

    // Should have 3 scopes: root + function + block
    assert_eq!(analyzer.scope_table.scope_count(), 3);

    // Function f should be in root scope
    let root_scope = analyzer.scope_table.root();
    assert!(analyzer.symbol_table.lookup_in_scope("f", root_scope).is_some());

    // x should be in function's block scope, not root
    assert!(analyzer.symbol_table.lookup_in_scope("x", root_scope).is_none());
}

#[test]
fn test_nested_scopes() {
    let arena = Bump::new();
    let mut type_interner = TypeInterner::new();
    let mut analyzer = ScopeAnalyzer::new(&arena, &mut type_interner, test_span());

    let builder = NodeBuilder::new(&arena);

    // Create AST:
    // let x = 1;
    // {
    //   let x = 2;
    //   {
    //     let y = 3;
    //   }
    // }

    // Literals
    let lit_1 = builder.alloc_node(NodeKind::Literal(rustify_ts::parser::ast::types::Literal::Number(1.0f64.to_bits())));
    let lit_2 = builder.alloc_node(NodeKind::Literal(rustify_ts::parser::ast::types::Literal::Number(2.0f64.to_bits())));
    let lit_3 = builder.alloc_node(NodeKind::Literal(rustify_ts::parser::ast::types::Literal::Number(3.0f64.to_bits())));

    // Innermost block: { let y = 3; }
    let stmt3 = builder.alloc_node(NodeKind::VariableStatement {
        declarations: vec![VariableDeclaration {
            name: "y".to_string(),
            kind: VariableKind::Let,
            initializer: Some(NodeId::new(0)), // lit_3 is first child after stmt3
            type_annotation: None,
        }],
    });
    let inner_block = builder.alloc_with_children(
        NodeKind::Block { statements: vec![NodeId::new(0)] }, // stmt3 is first child
        vec![stmt3, lit_3],
    );

    // Outer block: { let x = 2; { let y = 3; } }
    let stmt2 = builder.alloc_node(NodeKind::VariableStatement {
        declarations: vec![VariableDeclaration {
            name: "x".to_string(),
            kind: VariableKind::Let,
            initializer: Some(NodeId::new(0)), // lit_2 is first child after stmt2
            type_annotation: None,
        }],
    });
    let outer_block = builder.alloc_with_children(
        NodeKind::Block { statements: vec![NodeId::new(0), NodeId::new(1)] }, // stmt2, inner_block
        vec![stmt2, lit_2, inner_block],
    );

    // Root block
    let stmt1 = builder.alloc_node(NodeKind::VariableStatement {
        declarations: vec![VariableDeclaration {
            name: "x".to_string(),
            kind: VariableKind::Let,
            initializer: Some(NodeId::new(0)), // lit_1 is first child after stmt1
            type_annotation: None,
        }],
    });
    let root_block = builder.alloc_with_children(
        NodeKind::Block { statements: vec![NodeId::new(0), NodeId::new(1)] }, // stmt1, outer_block
        vec![stmt1, lit_1, outer_block],
    );

    // Visit the AST
    analyzer.visit_node(root_block);

    // Should have 4 scopes: root + root_block + outer_block + inner_block
    assert_eq!(analyzer.scope_table.scope_count(), 4);

    let root_scope = analyzer.scope_table.root();
    let scopes: Vec<_> = analyzer.scope_table.scopes().iter().collect();
    let root_block_scope = scopes[1].id();
    let outer_block_scope = scopes[2].id();
    let inner_block_scope = scopes[3].id();

    // Check x in root block scope
    assert!(analyzer.symbol_table.lookup_in_scope("x", root_block_scope).is_some());

    // Check x shadowing in outer block
    assert!(analyzer.symbol_table.lookup_in_scope("x", outer_block_scope).is_some());

    // Check y in inner block only
    assert!(analyzer.symbol_table.lookup_in_scope("y", inner_block_scope).is_some());
    assert!(analyzer.symbol_table.lookup_in_scope("y", outer_block_scope).is_none());
    assert!(analyzer.symbol_table.lookup_in_scope("y", root_block_scope).is_none());
    assert!(analyzer.symbol_table.lookup_in_scope("y", root_scope).is_none());
}

