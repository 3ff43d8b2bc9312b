use bumpalo::Bump;
use rustify_ts::parser::ast::node::NodeBuilder;
use rustify_ts::parser::ast::span::Span;
use rustify_ts::parser::ast::types::{NodeId, NodeKind, TypeAnnotation, VariableDeclaration, VariableKind};
use rustify_ts::semantic::scope::scope::ScopeTable;
use rustify_ts::semantic::symbol::symbol::SymbolKind;
use rustify_ts::semantic::symbol::table::SymbolTable;
use rustify_ts::semantic::types::interner::TypeInterner;
use rustify_ts::semantic::types::representation::{PrimitiveType, Type, TypeParameter};
use rustify_ts::semantic::types::resolver::{annotation_to_type, ResolutionError, TypeResolver};

fn reference(name: &str, args: Vec<Type>) -> Type {
    Type::Reference { name: name.to_string(), type_args: args }
}

#[test]
fn resolves_named_types_and_reports_errors() {
    let scopes = ScopeTable::new(Span::empty());
    let root = scopes.root();
    let mut interner = TypeInterner::new();
    let num = interner.get_or_intern_primitive(PrimitiveType::Number);
    let mut symbols = SymbolTable::new();
    symbols.insert("Num".to_string(), SymbolKind::TypeAlias, Span::empty(), root, Some(num));
    symbols.insert("v".to_string(), SymbolKind::Variable, Span::empty(), root, None);
    symbols.insert("Bare".to_string(), SymbolKind::Interface, Span::empty(), root, None);

    let mut resolver = TypeResolver::new(symbols, &scopes, interner, root);
    assert_eq!(resolver.current_scope(), root);
    assert_eq!(resolver.resolve_type_reference(&reference("Num", vec![])), Ok(num));
    assert_eq!(resolver.resolve_type_reference(&reference("Num", vec![])), Ok(num));
    assert_eq!(
        resolver.resolve_type_reference(&reference("Missing", vec![])),
        Err(ResolutionError::TypeNotFound("Missing".to_string()))
    );
    assert_eq!(
        resolver.resolve_type_reference(&reference("v", vec![])),
        Err(ResolutionError::NotAType("v".to_string()))
    );
    assert_eq!(
        resolver.resolve_type_reference(&reference("Bare", vec![])),
        Err(ResolutionError::NotAType("Bare".to_string()))
    );
    assert!(matches!(
        resolver.resolve_type_reference(&Type::Primitive(PrimitiveType::String)),
        Err(ResolutionError::NotAType(_))
    ));
    // The cache answers before the argument count is looked at.
    assert_eq!(resolver.resolve_type_reference(&reference("Num", vec![Type::Primitive(PrimitiveType::String)])), Ok(num));

    let array = resolver.resolve_type(&Type::Array(Box::new(reference("Num", vec![])))).unwrap();
    let (_, types) = resolver.into_parts();
    assert_eq!(*types.get(array).unwrap(), Type::Array(Box::new(Type::Primitive(PrimitiveType::Number))));
}

#[test]
fn generic_arguments_need_a_generic_base() {
    let scopes = ScopeTable::new(Span::empty());
    let root = scopes.root();
    let mut interner = TypeInterner::new();
    let num = interner.get_or_intern_primitive(PrimitiveType::Number);
    let param = interner.intern(Type::TypeParameter(TypeParameter { name: "T".to_string(), constraint: None, default: None }));
    let mut symbols = SymbolTable::new();
    symbols.insert("Num".to_string(), SymbolKind::TypeAlias, Span::empty(), root, Some(num));
    symbols.insert("P".to_string(), SymbolKind::TypeAlias, Span::empty(), root, Some(param));
    let mut resolver = TypeResolver::new(symbols, &scopes, interner, root);
    assert_eq!(
        resolver.resolve_type_reference(&reference("Num", vec![Type::Primitive(PrimitiveType::String)])),
        Err(ResolutionError::GenericArityMismatch { name: "Num".to_string(), expected: 0, actual: 1 })
    );
    let generic = resolver.resolve_type_reference(&reference("P", vec![Type::Primitive(PrimitiveType::String)])).unwrap();
    let (_, types) = resolver.into_parts();
    assert_eq!(
        *types.get(generic).unwrap(),
        Type::Generic { base: param, args: vec![Type::Primitive(PrimitiveType::String)] }
    );
}

#[test]
fn type_pass_records_declared_types() {
    let arena = Bump::new();
    let builder = NodeBuilder::new(&arena);
    let stmt = builder.alloc_node(NodeKind::VariableStatement {
        declarations: vec![
            VariableDeclaration {
                name: "x".to_string(),
                kind: VariableKind::Let,
                initializer: Some(NodeId::new(0)),
                type_annotation: Some(TypeAnnotation::TypeReference { name: "Num".to_string(), type_params: None }),
            },
            VariableDeclaration { name: "y".to_string(), kind: VariableKind::Let, initializer: None, type_annotation: None },
        ],
    });
    let scopes = ScopeTable::new(Span::empty());
    let root = scopes.root();
    let mut interner = TypeInterner::new();
    let num = interner.get_or_intern_primitive(PrimitiveType::Number);
    let mut symbols = SymbolTable::new();
    symbols.insert("Num".to_string(), SymbolKind::TypeAlias, Span::empty(), root, Some(num));
    let x = symbols.insert("x".to_string(), SymbolKind::Variable, Span::empty(), root, None);
    let y = symbols.insert("y".to_string(), SymbolKind::Variable, Span::empty(), root, None);
    let mut resolver = TypeResolver::new(symbols, &scopes, interner, root);
    resolver.visit_node(stmt);
    let (symbols, types) = resolver.into_parts();
    assert_eq!(symbols.lookup(x).unwrap().type_id(), Some(num));
    let y_type = symbols.lookup(y).unwrap().type_id().unwrap();
    assert_eq!(*types.get(y_type).unwrap(), Type::Primitive(PrimitiveType::Unknown));
}

#[test]
fn annotations_become_types() {
    let a = TypeAnnotation::UnionType(vec![
        TypeAnnotation::ArrayType(Box::new(TypeAnnotation::Unknown)),
        TypeAnnotation::TypeReference { name: "T".to_string(), type_params: Some(vec![TypeAnnotation::Unknown]) },
    ]);
    assert_eq!(
        annotation_to_type(&a),
        Type::Union(vec![
            Type::Array(Box::new(Type::Primitive(PrimitiveType::Unknown))),
            Type::Reference { name: "T".to_string(), type_args: vec![Type::Primitive(PrimitiveType::Unknown)] },
        ])
    );
}

#[test]
fn a_reference_within_its_own_arguments_is_recursive() {
    let scopes = ScopeTable::new(Span::empty());
    let root = scopes.root();
    let mut interner = TypeInterner::new();
    let num = interner.get_or_intern_primitive(PrimitiveType::Number);
    let mut symbols = SymbolTable::new();
    symbols.insert("Num".to_string(), SymbolKind::TypeAlias, Span::empty(), root, Some(num));
    let mut resolver = TypeResolver::new(symbols, &scopes, interner, root);
    assert_eq!(
        resolver.resolve_type_reference(&reference("Num", vec![reference("Num", vec![])])),
        Err(ResolutionError::RecursiveReference("Num".to_string()))
    );
}

#[test]
fn generic_function_aliases_are_instantiated() {
    let scopes = ScopeTable::new(Span::empty());
    let root = scopes.root();
    let mut interner = TypeInterner::new();
    let t = TypeParameter { name: "T".to_string(), constraint: None, default: None };
    let identity = interner.intern(Type::Function {
        params: vec![Type::TypeParameter(t.clone())],
        return_type: Box::new(Type::TypeParameter(t.clone())),
        type_params: vec![t.clone()],
    });
    let mut symbols = SymbolTable::new();
    symbols.insert("Id".to_string(), SymbolKind::TypeAlias, Span::empty(), root, Some(identity));
    let mut resolver = TypeResolver::new(symbols, &scopes, interner, root);
    assert_eq!(
        resolver.resolve_type_reference(&reference("Id", vec![Type::Primitive(PrimitiveType::String), Type::Primitive(PrimitiveType::Number)])),
        Err(ResolutionError::GenericArityMismatch { name: "Id".to_string(), expected: 1, actual: 2 })
    );
    // A failed resolution leaves nothing behind: the same name resolves afterwards.
    assert!(resolver.resolve_type_reference(&reference("Id", vec![Type::Primitive(PrimitiveType::String)])).is_ok());
    let (symbols, interner) = resolver.into_parts();
    let mut resolver = TypeResolver::new(symbols, &scopes, interner, root);
    let id = resolver.resolve_type_reference(&reference("Id", vec![Type::Primitive(PrimitiveType::String)])).unwrap();
    let (_, types) = resolver.into_parts();
    assert_eq!(
        *types.get(id).unwrap(),
        Type::Function {
            params: vec![Type::Primitive(PrimitiveType::String)],
            return_type: Box::new(Type::Primitive(PrimitiveType::String)),
            type_params: vec![t],
        }
    );
}

#[test]
fn compound_types_resolve_part_by_part() {
    let scopes = ScopeTable::new(Span::empty());
    let root = scopes.root();
    let mut interner = TypeInterner::new();
    let num = interner.get_or_intern_primitive(PrimitiveType::Number);
    let mut symbols = SymbolTable::new();
    symbols.insert("Num".to_string(), SymbolKind::TypeAlias, Span::empty(), root, Some(num));
    let mut resolver = TypeResolver::new(symbols, &scopes, interner, root);
    let same = resolver.resolve_type(&Type::Union(vec![reference("Num", vec![]), Type::Primitive(PrimitiveType::Number)])).unwrap();
    assert_eq!(same, num);
    let both = resolver
        .resolve_type(&Type::Union(vec![Type::Primitive(PrimitiveType::String), reference("Num", vec![])]))
        .unwrap();
    let tuple = resolver
        .resolve_type(&Type::Tuple(vec![reference("Num", vec![]), Type::Primitive(PrimitiveType::Boolean)]))
        .unwrap();
    let func = resolver
        .resolve_type(&Type::Function {
            params: vec![reference("Num", vec![])],
            return_type: Box::new(Type::Primitive(PrimitiveType::Void)),
            type_params: vec![],
        })
        .unwrap();
    assert_eq!(
        resolver.resolve_type(&Type::Intersection(vec![reference("Missing", vec![])])),
        Err(ResolutionError::TypeNotFound("Missing".to_string()))
    );
    let (_, types) = resolver.into_parts();
    assert_eq!(
        *types.get(both).unwrap(),
        Type::Union(vec![Type::Primitive(PrimitiveType::Number), Type::Primitive(PrimitiveType::String)])
    );
    assert_eq!(
        *types.get(tuple).unwrap(),
        Type::Tuple(vec![Type::Primitive(PrimitiveType::Number), Type::Primitive(PrimitiveType::Boolean)])
    );
    assert_eq!(
        *types.get(func).unwrap(),
        Type::Function {
            params: vec![Type::Primitive(PrimitiveType::Number)],
            return_type: Box::new(Type::Primitive(PrimitiveType::Void)),
            type_params: vec![],
        }
    );
}

#[test]
fn a_failed_lookup_is_not_left_as_recursive() {
    let scopes = ScopeTable::new(Span::empty());
    let root = scopes.root();
    let mut resolver = TypeResolver::new(SymbolTable::new(), &scopes, TypeInterner::new(), root);
    let foo = reference("Foo", vec![]);
    assert_eq!(resolver.resolve_type_reference(&foo), Err(ResolutionError::TypeNotFound("Foo".to_string())));
    assert_eq!(resolver.resolve_type_reference(&foo), Err(ResolutionError::TypeNotFound("Foo".to_string())));
    assert_eq!(
        resolver.resolve_type_reference(&Type::Primitive(PrimitiveType::String)),
        Err(ResolutionError::NotAType("Not a type reference".to_string()))
    );
}

#[test]
fn reference_free_types_resolve_to_themselves() {
    let scopes = ScopeTable::new(Span::empty());
    let root = scopes.root();
    let mut resolver = TypeResolver::new(SymbolTable::new(), &scopes, TypeInterner::new(), root);
    let arr = Type::Array(Box::new(Type::Primitive(PrimitiveType::String)));
    let id = resolver.resolve_type(&arr).unwrap();
    let tuple = Type::Tuple(vec![Type::Primitive(PrimitiveType::Number), arr.clone()]);
    let tid = resolver.resolve_type(&tuple).unwrap();
    let (_, types) = resolver.into_parts();
    assert_eq!(types.get(id), Some(&arr));
    assert_eq!(types.get(tid), Some(&tuple));
}

#[test]
fn an_array_of_an_unknown_name_fails_with_the_name() {
    let scopes = ScopeTable::new(Span::empty());
    let root = scopes.root();
    let mut resolver = TypeResolver::new(SymbolTable::new(), &scopes, TypeInterner::new(), root);
    let ty = Type::Array(Box::new(reference("Foo", vec![])));
    assert_eq!(resolver.resolve_type(&ty), Err(ResolutionError::TypeNotFound("Foo".to_string())));
}
