use rustify_ts::parser::ast::span::Span;
use rustify_ts::semantic::scope::scope::{ScopeId, ScopeKind, ScopeTable};
use rustify_ts::semantic::symbol::symbol::{Symbol, SymbolId, SymbolKind};
use rustify_ts::semantic::symbol::table::SymbolTable;
use rustify_ts::semantic::types::representation::TypeId;

fn test_span() -> Span {
    Span::new(0, 0)
}

#[test]
fn scope_basics() {
    let root_span = Span::new(0, 100);
    let mut scope_table = ScopeTable::new(root_span);

    let root_id = scope_table.root();
    assert_eq!(root_id.get(), 0);
    assert_eq!(scope_table.current(), root_id);

    let root_scope = scope_table.current_scope();
    assert_eq!(root_scope.kind(), ScopeKind::Module);
    assert_eq!(root_scope.parent(), None);
    assert_eq!(root_scope.span(), root_span);
    assert!(root_scope.symbols().is_empty());

    let func_span = Span::new(10, 90);
    let func_id = scope_table.push_scope(ScopeKind::Function, func_span);

    assert_eq!(scope_table.current(), func_id);
    assert_eq!(func_id.get(), 1);

    let func_scope = scope_table.current_scope();
    assert_eq!(func_scope.kind(), ScopeKind::Function);
    assert_eq!(func_scope.parent(), Some(root_id));
    assert_eq!(func_scope.span(), func_span);

    let block_span = Span::new(20, 80);
    let block_id = scope_table.push_scope(ScopeKind::Block, block_span);

    assert_eq!(scope_table.current(), block_id);
    assert_eq!(block_id.get(), 2);

    let block_scope = scope_table.current_scope();
    assert_eq!(block_scope.kind(), ScopeKind::Block);
    assert_eq!(block_scope.parent(), Some(func_id));
    assert_eq!(block_scope.span(), block_span);

    let popped = scope_table.pop_scope();
    assert_eq!(popped, block_id);
    assert_eq!(scope_table.current(), func_id);

    let popped = scope_table.pop_scope();
    assert_eq!(popped, func_id);
    assert_eq!(scope_table.current(), root_id);

    assert_eq!(scope_table.scope_count(), 3);
}

#[test]
fn test_scope_nested_scopes() {
    let mut table = ScopeTable::new(Span::new(0, 50));
    let root = table.root();
    let f = table.push_scope(ScopeKind::Function, Span::new(1, 40));
    let b = table.push_scope(ScopeKind::Block, Span::new(2, 30));
    let l = table.push_scope(ScopeKind::Loop, Span::new(3, 20));
    assert_eq!(table.scope_count(), 4);
    assert_eq!(table.get_scope(l).unwrap().parent(), Some(b));
    assert_eq!(table.get_scope(b).unwrap().parent(), Some(f));
    assert_eq!(table.get_scope(f).unwrap().parent(), Some(root));
    assert_eq!(table.pop_scope(), l);
    assert_eq!(table.pop_scope(), b);
    assert_eq!(table.current(), f);
    let sibling = table.create_scope(ScopeKind::Block, f, Span::new(31, 35));
    assert_eq!(sibling.get(), 4);
    assert_eq!(table.current(), f);
    assert_eq!(table.get_scope(sibling).unwrap().parent(), Some(f));
    assert_eq!(table.pop_scope(), f);
    assert_eq!(table.current(), root);
    assert!(table.get_scope(ScopeId::new(9)).is_none());
}

#[test]
fn test_scope_identifier_lookup() {
    let mut table = ScopeTable::new(test_span());
    let root = table.root();
    table.current_scope_mut().add_symbol("x".to_string(), SymbolId::new(0));
    let inner = table.push_scope(ScopeKind::Block, test_span());
    table.current_scope_mut().add_symbol("y".to_string(), SymbolId::new(1));
    let innermost = table.push_scope(ScopeKind::Block, test_span());
    table.current_scope_mut().add_symbol("x".to_string(), SymbolId::new(2));

    assert_eq!(table.lookup_symbol("x"), Some((SymbolId::new(2), innermost)));
    assert_eq!(table.lookup_symbol("y"), Some((SymbolId::new(1), inner)));
    assert_eq!(table.lookup_symbol("z"), None);
    assert_eq!(table.lookup_symbol_in(inner, "x"), Some((SymbolId::new(0), root)));
    assert!(table.get_scope(innermost).unwrap().has_symbol("x"));
    assert_eq!(table.get_scope(inner).unwrap().get_symbol("x"), None);
}

#[test]
fn symbol_basics() {
    let symbol_id = SymbolId::new(0);
    assert_eq!(symbol_id.get(), 0);

    let name = "test_var".to_string();
    let span = Span::new(0, 8);
    let scope_id = ScopeId::new(0);
    let mut symbol = Symbol::new(symbol_id, name.clone(), SymbolKind::Variable, span, scope_id);

    assert_eq!(symbol.id(), symbol_id);
    assert_eq!(symbol.name(), name);
    assert_eq!(symbol.kind(), SymbolKind::Variable);
    assert_eq!(symbol.span(), span);
    assert_eq!(symbol.scope(), scope_id);
    assert_eq!(symbol.is_export(), false);
    assert_eq!(symbol.type_id(), None);

    symbol.set_export(true);
    assert_eq!(symbol.is_export(), true);

    let type_id = TypeId::new(1);
    symbol.set_type_id(type_id);
    assert_eq!(symbol.type_id(), Some(type_id));

    symbol.clear_type_id();
    assert_eq!(symbol.type_id(), None);
}

#[test]
fn test_symbol_table_creation() {
    let table = SymbolTable::new();
    assert_eq!(table.symbol_count(), 0);
    assert!(table.symbols().is_empty());
    assert!(table.lookup(SymbolId::new(0)).is_none());
    assert!(table.lookup_in_scope("x", ScopeId::new(0)).is_none());
}

#[test]
fn test_symbol_insert_and_lookup() {
    let mut table = SymbolTable::new();
    let s0 = ScopeId::new(0);
    let s1 = ScopeId::new(1);
    let a = table.insert("a".to_string(), SymbolKind::Variable, test_span(), s0, None);
    let b = table.insert("b".to_string(), SymbolKind::Function, test_span(), s1, None);
    assert_eq!(a, SymbolId::new(0));
    assert_eq!(b, SymbolId::new(1));
    assert_eq!(table.symbol_count(), 2);
    assert_eq!(table.lookup_in_scope("a", s0), Some(a));
    assert_eq!(table.lookup_in_scope("a", s1), None);
    assert_eq!(table.lookup_in_scope("b", s1), Some(b));
    assert_eq!(table.lookup(b).unwrap().name(), "b");
    let a2 = table.insert("a".to_string(), SymbolKind::Variable, test_span(), s0, None);
    assert_eq!(table.lookup_in_scope("a", s0), Some(a2));
}

#[test]
fn test_symbol_metadata() {
    let mut table = SymbolTable::new();
    let scope = ScopeId::new(3);
    let span = Span::new(4, 9);
    let id = table.insert("C".to_string(), SymbolKind::Class, span, scope, Some(TypeId::new(7)));
    {
        let symbol = table.lookup_mut(id).unwrap();
        symbol.set_export(true);
    }
    let symbol = table.lookup(id).unwrap();
    assert_eq!(symbol.kind(), SymbolKind::Class);
    assert_eq!(symbol.span(), span);
    assert_eq!(symbol.scope(), scope);
    assert!(symbol.is_export());
    assert_eq!(symbol.type_id(), Some(TypeId::new(7)));
    assert_eq!(symbol.kind().as_str(), "class");
    assert_eq!(symbol_id_text(id), "Symbol(0)");
}

fn symbol_id_text(id: SymbolId) -> String {
    id.to_string()
}

#[test]
fn test_symbol_table_insert_and_lookup() {
    let mut table = SymbolTable::new();
    let scope = ScopeId::new(0);

    let id = table.insert("x".to_string(), SymbolKind::Variable, test_span(), scope, None);

    let symbol = table.lookup(id).unwrap();
    assert_eq!(symbol.name(), "x");
    assert_eq!(symbol.kind(), SymbolKind::Variable);
    assert_eq!(symbol.scope(), scope);

    let lookup_id = table.lookup_in_scope("x", scope).unwrap();
    assert_eq!(lookup_id, id);
}

#[test]
fn test_symbol_shadowing() {
    let mut table = SymbolTable::new();
    let scope1 = ScopeId::new(0);
    let scope2 = ScopeId::new(1);

    let id1 = table.insert("x".to_string(), SymbolKind::Variable, test_span(), scope1, None);
    let id2 = table.insert("x".to_string(), SymbolKind::Variable, test_span(), scope2, None);

    assert_ne!(id1, id2);
    assert_eq!(table.lookup_in_scope("x", scope1), Some(id1));
    assert_eq!(table.lookup_in_scope("x", scope2), Some(id2));
}

#[test]
fn test_lexical_lookup() {
    let mut scope_table = ScopeTable::new(test_span());
    let root_scope = scope_table.root();

    let child_scope = scope_table.push_scope(ScopeKind::Block, test_span());

    let mut symbol_table = SymbolTable::new();

    let root_x = symbol_table.insert("x".to_string(), SymbolKind::Variable, test_span(), root_scope, None);
    let child_y = symbol_table.insert("y".to_string(), SymbolKind::Variable, test_span(), child_scope, None);

    let found_x = symbol_table.lookup_lexical("x", child_scope, &scope_table);
    assert_eq!(found_x, Some(root_x));

    let found_y = symbol_table.lookup_lexical("y", child_scope, &scope_table);
    assert_eq!(found_y, Some(child_y));

    let not_found = symbol_table.lookup_lexical("y", root_scope, &scope_table);
    assert_eq!(not_found, None);
}

#[test]
fn test_type_id_association() {
    let mut table = SymbolTable::new();
    let scope = ScopeId::new(0);
    let type_id = TypeId::new(1);

    let id = table.insert("x".to_string(), SymbolKind::Variable, test_span(), scope, Some(type_id));

    let symbol = table.lookup(id).unwrap();
    assert_eq!(symbol.type_id(), Some(type_id));
}

#[test]
fn a_name_declared_again_in_a_scope_replaces_its_symbol() {
    let scopes = ScopeTable::new(Span::empty());
    let s = scopes.root();
    let mut table = SymbolTable::new();
    let first = table.insert("x".to_string(), SymbolKind::Variable, Span::empty(), s, None);
    let other = table.insert("y".to_string(), SymbolKind::Variable, Span::empty(), s, None);
    let again = table.insert("x".to_string(), SymbolKind::Function, Span::new(1, 2), s, Some(TypeId::new(3)));
    assert_eq!(again, first);
    assert_ne!(other, first);
    assert_eq!(table.symbol_count(), 2);
    assert_eq!(table.lookup_in_scope("x", s), Some(first));
    let sym = table.lookup(first).unwrap();
    assert_eq!(sym.kind(), SymbolKind::Function);
    assert_eq!(sym.type_id(), Some(TypeId::new(3)));
}
