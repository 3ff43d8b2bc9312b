use bumpalo::Bump;
use std::hash::{Hash, Hasher};
use rustify_ts::parser::ast::node::NodeBuilder;
use rustify_ts::parser::ast::span::Span;
use rustify_ts::parser::ast::types::{NodeId, NodeKind, Parameter, TypeAnnotation, VariableDeclaration, VariableKind};
use rustify_ts::semantic::analyzer::SemanticAnalyzer;
use rustify_ts::semantic::flow::cfg::ControlFlowGraph;
use rustify_ts::semantic::flow::dominance::DominatorTree;
use rustify_ts::semantic::scope::scope::{ScopeKind, ScopeTable};
use rustify_ts::semantic::symbol::symbol::SymbolKind;
use rustify_ts::semantic::symbol::table::SymbolTable;
use rustify_ts::semantic::types::interner::TypeInterner;
use rustify_ts::semantic::types::representation::{ObjectType, PrimitiveType, PropertyMap, Type, TypeId, TypeParameter};
use rustify_ts::semantic::types::resolver::{ResolutionError, TypeResolver};
use rustify_ts::semantic::types::unify::substitute_pairs;

fn reference(name: &str) -> Type {
    Type::Reference { name: name.to_string(), type_args: vec![] }
}

fn param(name: &str) -> Type {
    Type::TypeParameter(TypeParameter { name: name.to_string(), constraint: None, default: None })
}

#[test]
fn fresh_resolver_reports_a_missing_name_each_time() {
    let scopes = ScopeTable::new(Span::empty());
    let root = scopes.root();
    let mut resolver = TypeResolver::new(SymbolTable::new(), &scopes, TypeInterner::new(), root);
    let missing = Err(ResolutionError::TypeNotFound("Foo".to_string()));
    assert_eq!(resolver.resolve_type_reference(&reference("Foo")), missing);
    assert_eq!(resolver.resolve_type_reference(&reference("Foo")), missing);
    assert_eq!(resolver.resolve_type(&Type::Array(Box::new(reference("Foo")))), missing);
}

#[test]
fn composite_with_resolvable_reference_resolves() {
    let scopes = ScopeTable::new(Span::empty());
    let root = scopes.root();
    let mut interner = TypeInterner::new();
    let num = interner.get_or_intern_primitive(PrimitiveType::Number);
    let mut symbols = SymbolTable::new();
    symbols.insert("Num".to_string(), SymbolKind::TypeAlias, Span::empty(), root, Some(num));
    let mut resolver = TypeResolver::new(symbols, &scopes, interner, root);
    let tuple = Type::Tuple(vec![reference("Num"), Type::Primitive(PrimitiveType::String)]);
    let id = resolver.resolve_type(&tuple).unwrap();
    let (_, types) = resolver.into_parts();
    assert_eq!(
        *types.get(id).unwrap(),
        Type::Tuple(vec![Type::Primitive(PrimitiveType::Number), Type::Primitive(PrimitiveType::String)])
    );
}

#[test]
fn substitution_pairs_replace_array_elements() {
    let mut interner = TypeInterner::new();
    let t = interner.intern(param("T"));
    let s = interner.get_or_intern_primitive(PrimitiveType::String);
    let arr = interner.intern(Type::Array(Box::new(param("T"))));
    let r = substitute_pairs(arr, &vec![(t, s)], &mut interner).unwrap();
    assert_eq!(r, interner.get_or_intern_array(s));
    assert_eq!(*interner.get(r).unwrap(), Type::Array(Box::new(Type::Primitive(PrimitiveType::String))));
    assert_eq!(substitute_pairs(t, &vec![(t, s)], &mut interner), Some(s));
    // A later pair for a key takes the place of an earlier one.
    let n = interner.get_or_intern_primitive(PrimitiveType::Number);
    assert_eq!(substitute_pairs(t, &vec![(t, s), (t, n)], &mut interner), Some(n));
}

#[test]
fn empty_substitution_leaves_composite_types_alone() {
    let mut interner = TypeInterner::new();
    let t = interner.intern(param("T"));
    let s = interner.get_or_intern_primitive(PrimitiveType::String);
    let arr = interner.intern(Type::Array(Box::new(param("T"))));
    let func = interner.intern(Type::Function {
        params: vec![param("T"), Type::Primitive(PrimitiveType::String)],
        return_type: Box::new(Type::Array(Box::new(param("T")))),
        type_params: vec![],
    });
    let before = interner.len();
    assert_eq!(substitute_pairs(arr, &vec![], &mut interner), Some(arr));
    assert_eq!(substitute_pairs(func, &vec![], &mut interner), Some(func));
    assert_eq!(substitute_pairs(t, &vec![], &mut interner), Some(t));
    assert_eq!(substitute_pairs(s, &vec![], &mut interner), Some(s));
    assert_eq!(interner.len(), before);
}

#[test]
fn substitution_pairs_replace_function_parts() {
    let mut interner = TypeInterner::new();
    let t = interner.intern(param("T"));
    let u = interner.intern(param("U"));
    let s = interner.get_or_intern_primitive(PrimitiveType::String);
    let n = interner.get_or_intern_primitive(PrimitiveType::Number);
    let f = interner.intern(Type::Function {
        params: vec![param("T")],
        return_type: Box::new(param("U")),
        type_params: vec![],
    });
    let r = substitute_pairs(f, &vec![(t, s), (u, n)], &mut interner).unwrap();
    let expected = interner.intern(Type::Function {
        params: vec![Type::Primitive(PrimitiveType::String)],
        return_type: Box::new(Type::Primitive(PrimitiveType::Number)),
        type_params: vec![],
    });
    assert_eq!(r, expected);
}

#[test]
fn substitution_pairs_refuse_unstored_replacements() {
    let mut interner = TypeInterner::new();
    let t = interner.intern(param("T"));
    let before = interner.len();
    assert_eq!(substitute_pairs(t, &vec![(t, TypeId::new(99))], &mut interner), None);
    assert_eq!(interner.len(), before);
}

#[test]
fn object_types_compare_by_property_names() {
    let mut first = PropertyMap::new();
    first.insert("a".to_string(), Type::Primitive(PrimitiveType::Number));
    first.insert("b".to_string(), Type::Primitive(PrimitiveType::String));
    let mut second = PropertyMap::new();
    second.insert("b".to_string(), Type::Primitive(PrimitiveType::String));
    second.insert("a".to_string(), Type::Primitive(PrimitiveType::Number));
    assert_eq!(first, second);
    let x = Type::Object(ObjectType { properties: first, index_signature: None });
    let y = Type::Object(ObjectType { properties: second, index_signature: None });
    assert_eq!(x, y);
    let mut third = PropertyMap::new();
    third.insert("a".to_string(), Type::Primitive(PrimitiveType::String));
    assert_ne!(x, Type::Object(ObjectType { properties: third, index_signature: None }));
}

#[test]
fn dominator_of_a_join_after_a_shortcut() {
    let mut cfg = ControlFlowGraph::new();
    let entry = cfg.entry;
    let a = cfg.create_block();
    let b = cfg.create_block();
    let c = cfg.create_block();
    cfg.add_edge(entry, a);
    cfg.add_edge(a, b);
    cfg.add_edge(b, c);
    cfg.add_edge(a, c);
    let dt = DominatorTree::compute(&cfg);
    assert_eq!(dt.idom(c), Some(a));
    assert_eq!(dt.idom(b), Some(a));
    assert_eq!(dt.idom(a), Some(entry));
    assert_eq!(dt.idom(entry), Some(entry));
    assert!(dt.dominates(a, c));
    assert!(!dt.dominates(b, c));
    assert_eq!(dt.depth(c), Some(2));
    assert_eq!(dt.common_dominator(b, c), Some(a));
    // The exit is not reachable here.
    assert_eq!(dt.idom(cfg.exit), None);
    assert_eq!(dt.common_dominator(b, cfg.exit), None);
}

#[test]
fn block_declarations_are_found_in_the_block_scope() {
    let arena = Bump::new();
    let mut analyzer = SemanticAnalyzer::new(&arena);
    let builder = NodeBuilder::new(&arena);
    let stmt = builder.alloc_node(NodeKind::VariableStatement {
        declarations: vec![
            VariableDeclaration { name: "x".to_string(), kind: VariableKind::Let, initializer: None, type_annotation: None },
            VariableDeclaration { name: "v".to_string(), kind: VariableKind::Var, initializer: None, type_annotation: None },
        ],
    });
    let block = builder.alloc_with_children(NodeKind::Block { statements: vec![NodeId::new(0)] }, vec![stmt]);
    let module = analyzer.analyze(block).unwrap();
    let root = module.scopes.root();
    let inner = module.scopes.scopes()[1].id();
    assert_eq!(module.scopes.scopes()[1].kind(), ScopeKind::Block);
    assert!(module.symbols.lookup_in_scope("x", inner).is_some());
    assert!(module.symbols.lookup_in_scope("x", root).is_none());
    assert!(module.symbols.lookup_in_scope("v", root).is_some());
    assert!(module.symbols.lookup_lexical("x", inner, &module.scopes).is_some());
}

#[test]
fn block_variables_get_their_annotated_types() {
    let arena = Bump::new();
    let mut analyzer = SemanticAnalyzer::new(&arena);
    let builder = NodeBuilder::new(&arena);
    let number = TypeAnnotation::TypeReference { name: "number".to_string(), type_params: None };
    let stmt = builder.alloc_node(NodeKind::VariableStatement {
        declarations: vec![
            VariableDeclaration { name: "x".to_string(), kind: VariableKind::Let, initializer: None, type_annotation: Some(number) },
            VariableDeclaration { name: "y".to_string(), kind: VariableKind::Const, initializer: None, type_annotation: None },
        ],
    });
    let block = builder.alloc_with_children(NodeKind::Block { statements: vec![NodeId::new(0)] }, vec![stmt]);
    let module = analyzer.analyze(block).unwrap();
    let inner = module.scopes.scopes()[1].id();
    let x = module.symbols.lookup_lexical("x", inner, &module.scopes).unwrap();
    let xt = module.symbols.lookup(x).unwrap().type_id().unwrap();
    assert_eq!(*module.types.get(xt).unwrap(), Type::Primitive(PrimitiveType::Number));
    let y = module.symbols.lookup_lexical("y", inner, &module.scopes).unwrap();
    let yt = module.symbols.lookup(y).unwrap().type_id().unwrap();
    assert_eq!(*module.types.get(yt).unwrap(), Type::Primitive(PrimitiveType::Unknown));
}

#[test]
fn function_parameters_get_resolved_reference_types() {
    let arena = Bump::new();
    let builder = NodeBuilder::new(&arena);
    let scopes = ScopeTable::new(Span::empty());
    let root = scopes.root();
    let mut interner = TypeInterner::new();
    let num = interner.get_or_intern_primitive(PrimitiveType::Number);
    let mut symbols = SymbolTable::new();
    symbols.insert("Num".to_string(), SymbolKind::TypeAlias, Span::empty(), root, Some(num));
    let f = symbols.insert("f".to_string(), SymbolKind::Function, Span::empty(), root, None);
    let node = builder.alloc_node(NodeKind::FunctionDeclaration {
        name: "f".to_string(),
        params: vec![
            Parameter {
                name: "a".to_string(),
                type_annotation: Some(TypeAnnotation::TypeReference { name: "Num".to_string(), type_params: None }),
                default_value: None,
                is_rest: false,
            },
            Parameter {
                name: "b".to_string(),
                type_annotation: Some(TypeAnnotation::TypeReference { name: "Missing".to_string(), type_params: None }),
                default_value: None,
                is_rest: false,
            },
        ],
        return_type: Some(TypeAnnotation::ArrayType(Box::new(TypeAnnotation::TypeReference {
            name: "Num".to_string(),
            type_params: None,
        }))),
        body: NodeId::new(0),
    });
    let mut resolver = TypeResolver::new(symbols, &scopes, interner, root);
    resolver.visit_function_declaration(node);
    let (symbols, types) = resolver.into_parts();
    let t = symbols.lookup(f).unwrap().type_id().unwrap();
    assert_eq!(
        *types.get(t).unwrap(),
        Type::Function {
            params: vec![Type::Primitive(PrimitiveType::Number), Type::Primitive(PrimitiveType::Unknown)],
            return_type: Box::new(Type::Array(Box::new(Type::Primitive(PrimitiveType::Number)))),
            type_params: vec![],
        }
    );
}

fn hash_of(t: &Type) -> u64 {
    let mut h = std::collections::hash_map::DefaultHasher::new();
    t.hash(&mut h);
    h.finish()
}

#[test]
fn equal_types_hash_alike() {
    let mut first = PropertyMap::new();
    first.insert("a".to_string(), Type::Primitive(PrimitiveType::Number));
    first.insert("b".to_string(), Type::Primitive(PrimitiveType::String));
    let mut second = PropertyMap::new();
    second.insert("b".to_string(), Type::Primitive(PrimitiveType::String));
    second.insert("a".to_string(), Type::Primitive(PrimitiveType::Number));
    let x = Type::Object(ObjectType { properties: first, index_signature: None });
    let y = Type::Object(ObjectType { properties: second, index_signature: None });
    assert_eq!(hash_of(&x), hash_of(&y));
    let mut set = std::collections::HashSet::new();
    set.insert(x);
    assert!(set.contains(&y));
    assert_eq!(hash_of(&param("T")), hash_of(&param("T")));
}
