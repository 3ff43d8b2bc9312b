use rustify_ts::parser::ast::span::Span;
use rustify_ts::semantic::scope::scope::{ScopeKind, ScopeTable};
use rustify_ts::semantic::types::interner::TypeInterner;
use rustify_ts::semantic::types::representation::{PrimitiveType, PropertyMap, ObjectType, Type};
use rustify_ts::semantic::types::unify::{is_assignable, is_subtype, unify};
use rustify_ts::semantic::types::variance::{Variance, VarianceRegistry};
use rustify_ts::semantic::flow::cfg::ControlFlowGraph;

#[test]
fn push_then_pop_restores_current_scope() {
    let mut table = ScopeTable::new(Span::empty());
    let before = table.current();
    table.push_scope(ScopeKind::Block, Span::empty());
    table.pop_scope();
    assert_eq!(table.current(), before);
}

#[test]
fn interning_equal_types_gives_one_id() {
    let mut interner = TypeInterner::new();
    let mut p1 = PropertyMap::new();
    p1.insert("a".to_string(), Type::Primitive(PrimitiveType::Number));
    p1.insert("b".to_string(), Type::Primitive(PrimitiveType::String));
    let mut p2 = PropertyMap::new();
    p2.insert("b".to_string(), Type::Primitive(PrimitiveType::String));
    p2.insert("a".to_string(), Type::Primitive(PrimitiveType::Number));
    let a = interner.intern(Type::Object(ObjectType { properties: p1, index_signature: None }));
    let b = interner.intern(Type::Object(ObjectType { properties: p2, index_signature: None }));
    assert_eq!(a, b);
    assert_eq!(interner.len(), 1);
}

#[test]
fn top_and_bottom_types() {
    let interner = TypeInterner::new();
    let t = Type::Array(Box::new(Type::Primitive(PrimitiveType::Boolean)));
    let any = Type::Primitive(PrimitiveType::Any);
    let unknown = Type::Primitive(PrimitiveType::Unknown);
    let never = Type::Primitive(PrimitiveType::Never);
    assert!(is_assignable(&t, &any, &interner));
    assert!(is_assignable(&t, &unknown, &interner));
    assert!(is_assignable(&any, &t, &interner));
    assert!(is_assignable(&never, &t, &interner));
    assert_eq!(unify(&t, &t, &interner).unwrap(), t);
    assert_eq!(unify(&any, &t, &interner).unwrap(), any);
    assert_eq!(unify(&t, &any, &interner).unwrap(), any);
    assert_eq!(unify(&never, &t, &interner).unwrap(), t);
    assert_eq!(unify(&t, &never, &interner).unwrap(), t);
}

#[test]
fn subtyping_of_ids_is_reflexive() {
    let mut interner = TypeInterner::new();
    let id = interner.get_or_intern_primitive(PrimitiveType::Void);
    assert!(is_subtype(id, id, &interner));
    let missing = rustify_ts::semantic::types::representation::TypeId::new(99);
    assert!(is_subtype(missing, missing, &interner));
    assert!(!is_subtype(id, missing, &interner));
}

#[test]
fn adding_an_edge_twice_changes_nothing() {
    let mut cfg = ControlFlowGraph::new();
    let (entry, exit) = (cfg.entry, cfg.exit);
    cfg.add_edge(entry, exit);
    let once = cfg.clone();
    cfg.add_edge(entry, exit);
    assert_eq!(cfg, once);
    assert!(cfg.get_block(entry).unwrap().successors.contains(&exit));
    assert!(cfg.get_block(exit).unwrap().predecessors.contains(&entry));
}

#[test]
fn registered_variances_read_back() {
    let mut registry = VarianceRegistry::default();
    registry.register("Box".to_string(), vec![Variance::Invariant]);
    registry.register("Box".to_string(), vec![Variance::Bivariant]);
    assert_eq!(registry.get("Box"), Some(&[Variance::Bivariant][..]));
    assert_eq!(registry.get("Set"), Some(&[Variance::Covariant][..]));
}
