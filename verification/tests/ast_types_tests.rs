use rustify_ts::parser::ast::types::{
    AssignmentOperator, BinaryOperator, NodeId, Parameter, TypeAnnotation, UnaryOperator, VariableDeclaration,
    VariableKind,
};

#[test]
fn test_node_id() {
    let id = NodeId::new(42);
    assert_eq!(id.index(), 42);

    let id2 = NodeId::from(100);
    assert_eq!(id2.index(), 100);
}

#[test]
fn test_binary_operator_display() {
    assert_eq!(BinaryOperator::Add.to_string(), "+");
    assert_eq!(BinaryOperator::StrictEqual.to_string(), "===");
    assert_eq!(BinaryOperator::LogicalAnd.to_string(), "&&");
}

#[test]
fn test_unary_operator_display() {
    assert_eq!(UnaryOperator::Minus.to_string(), "-");
    assert_eq!(UnaryOperator::LogicalNot.to_string(), "!");
    assert_eq!(UnaryOperator::Typeof.to_string(), "typeof");
}

#[test]
fn test_assignment_operator_display() {
    assert_eq!(AssignmentOperator::Assign.to_string(), "=");
    assert_eq!(AssignmentOperator::AddAssign.to_string(), "+=");
    assert_eq!(AssignmentOperator::MultiplyAssign.to_string(), "*=");
}

#[test]
fn test_type_annotation() {
    let simple_type = TypeAnnotation::TypeReference { name: "string".to_string(), type_params: None };
    assert!(matches!(simple_type, TypeAnnotation::TypeReference { .. }));

    let array_type = TypeAnnotation::ArrayType(Box::new(TypeAnnotation::TypeReference {
        name: "number".to_string(),
        type_params: None,
    }));
    assert!(matches!(array_type, TypeAnnotation::ArrayType(_)));
}

#[test]
fn test_parameter() {
    let param = Parameter {
        name: "x".to_string(),
        type_annotation: Some(TypeAnnotation::TypeReference { name: "number".to_string(), type_params: None }),
        default_value: None,
        is_rest: false,
    };
    assert_eq!(param.name, "x");
    assert!(!param.is_rest);
}

#[test]
fn test_variable_declaration() {
    let decl = VariableDeclaration {
        name: "x".to_string(),
        kind: VariableKind::Const,
        initializer: None,
        type_annotation: None,
    };
    assert_eq!(decl.name, "x");
    assert_eq!(decl.kind, VariableKind::Const);
}

#[test]
fn operator_texts_cover_every_family() {
    assert_eq!(BinaryOperator::NotEqual.to_string(), "!=");
    assert_eq!(BinaryOperator::UnsignedRightShift.to_string(), ">>>");
    assert_eq!(UnaryOperator::Void.to_string(), "void");
    assert_eq!(AssignmentOperator::UnsignedRightShiftAssign.to_string(), ">>>=");
}

#[test]
fn cloned_annotations_are_equal_in_every_part() {
    let param = Parameter {
        name: "x".to_string(),
        type_annotation: Some(TypeAnnotation::ArrayType(Box::new(TypeAnnotation::Unknown))),
        default_value: Some(NodeId::new(3)),
        is_rest: true,
    };
    let annotation = TypeAnnotation::FunctionType {
        params: vec![param.clone()],
        return_type: Box::new(TypeAnnotation::UnionType(vec![
            TypeAnnotation::TypeReference {
                name: "Map".to_string(),
                type_params: Some(vec![TypeAnnotation::Unknown, TypeAnnotation::TypeReference {
                    name: "T".to_string(),
                    type_params: None,
                }]),
            },
            TypeAnnotation::Unknown,
        ])),
    };
    assert_eq!(annotation.clone(), annotation);
    assert_eq!(param.clone(), param);
}
