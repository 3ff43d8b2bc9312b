//! The scope pass: walks the AST, builds the scope tree and declares symbols.

use vstd::prelude::*;
use bumpalo::Bump;
use crate::parser::ast::node::AstNode;
use crate::parser::ast::span::Span;
use crate::parser::ast::types::{NodeKind, VariableKind};
use crate::semantic::scope::scope::{Scope, ScopeId, ScopeKind, ScopeTable};
use crate::semantic::symbol::symbol::{SymbolId, SymbolKind};
use crate::semantic::symbol::table::{keeps_symbols, latest_symbol, lexical_symbol, lemma_latest_kept, SymbolTable};
use crate::semantic::types::interner::TypeInterner;
use crate::semantic::types::representation::TypeId;

verus! {

/// The scope `var` declarations made in scope `s` go to: the nearest of `s` and its
/// ancestors that is a function or module scope.
pub open spec fn hoist_target(scopes: Seq<Scope>, s: ScopeId) -> Option<ScopeId>
    decreases s.spec_get(),
{
    if s.spec_get() >= scopes.len() {
        None
    } else {
        let sc = scopes[s.spec_get() as int];
        match sc.spec_kind() {
            ScopeKind::Function | ScopeKind::Module => Some(s),
            _ => match sc.spec_parent() {
                Some(p) => if p.spec_get() < s.spec_get() {
                    hoist_target(scopes, p)
                } else {
                    None
                },
                None => None,
            },
        }
    }
}

/// Walking up the parent chain from scope `s` reaches scope `t`, and no scope passed
/// before reaching `t` is a function or module scope.
pub open spec fn hoists_through(scopes: Seq<Scope>, s: ScopeId, t: ScopeId) -> bool
    decreases s.spec_get(),
{
    if s == t {
        true
    } else if s.spec_get() >= scopes.len() {
        false
    } else {
        let sc = scopes[s.spec_get() as int];
        &&& sc.spec_kind() != ScopeKind::Function
        &&& sc.spec_kind() != ScopeKind::Module
        &&& match sc.spec_parent() {
            Some(p) => p.spec_get() < s.spec_get() && hoists_through(scopes, p, t),
            None => false,
        }
    }
}

/// A `var` is hoisted to the nearest function or module scope: the scope hoisting
/// from `s` finds is a function or module scope on the parent chain from `s`, with
/// no function or module scope before it; and any such scope is the one found.
pub proof fn lemma_hoist_nearest(scopes: Seq<Scope>, s: ScopeId, t: ScopeId)
    ensures
        hoist_target(scopes, s) matches Some(h) ==> {
            &&& h.spec_get() < scopes.len()
            &&& (scopes[h.spec_get() as int].spec_kind() == ScopeKind::Function || scopes[h.spec_get() as int].spec_kind()
                == ScopeKind::Module)
            &&& hoists_through(scopes, s, h)
        },
        t.spec_get() < scopes.len() && (scopes[t.spec_get() as int].spec_kind() == ScopeKind::Function
            || scopes[t.spec_get() as int].spec_kind() == ScopeKind::Module) && hoists_through(scopes, s, t)
            ==> hoist_target(scopes, s) == Some(t),
    decreases s.spec_get(),
{
    if s.spec_get() < scopes.len() {
        let sc = scopes[s.spec_get() as int];
        match sc.spec_kind() {
            ScopeKind::Function | ScopeKind::Module => {
                if hoists_through(scopes, s, t) && s != t {
                    assert(false);
                }
            },
            _ => match sc.spec_parent() {
                Some(p) => if p.spec_get() < s.spec_get() {
                    lemma_hoist_nearest(scopes, p, t);
                    if s == t {
                        ScopeId::lemma_eq(s, t);
                    }
                },
                None => {},
            },
        }
    }
}

/// Scopes the pass creates for `node` and the nodes below it.
pub open spec fn scopes_made<'a>(node: &'a AstNode<'a>) -> nat
    decreases node,
{
    proof {
        node.lemma_children_decrease();
    }
    let c = node.spec_children();
    match node.spec_kind() {
        NodeKind::Block { .. } | NodeKind::For { .. } | NodeKind::ForOf { .. } | NodeKind::While { .. }
        | NodeKind::DoWhile { .. } | NodeKind::ArrowFunction { .. } | NodeKind::FunctionExpression { .. }
        | NodeKind::FunctionDeclaration { .. } | NodeKind::ClassDeclaration { .. } => 1 + scopes_made_all(c),
        NodeKind::Try { catch_clause, .. } => {
            (if c.len() >= 1 { scopes_made(c[0]) } else { 0 }) + (if catch_clause is Some {
                1 + (if c.len() >= 2 { scopes_made(c[1]) } else { 0 })
            } else {
                0
            })
        },
        _ => scopes_made_all(c),
    }
}

/// Scopes the pass creates for the trees below `s`.
pub open spec fn scopes_made_all<'a>(s: Seq<&'a AstNode<'a>>) -> nat
    decreases s,
{
    if s.len() == 0 {
        0
    } else {
        scopes_made_all(s.drop_last()) + scopes_made(s.last())
    }
}

/// Declarations the pass makes for `node` and the nodes below it: each adds a symbol,
/// or replaces the symbol of the same name in the same scope, so the pass adds at
/// most this many symbols.
pub open spec fn symbols_made<'a>(node: &'a AstNode<'a>) -> nat
    decreases node,
{
    proof {
        node.lemma_children_decrease();
    }
    let c = node.spec_children();
    match node.spec_kind() {
        NodeKind::FunctionDeclaration { .. } | NodeKind::ClassDeclaration { .. } => 1 + symbols_made_all(c),
        NodeKind::VariableStatement { declarations } => declarations@.len() + symbols_made_all(c),
        NodeKind::Try { catch_clause, .. } => {
            (if c.len() >= 1 { symbols_made(c[0]) } else { 0 }) + (if catch_clause is Some && c.len() >= 2 {
                symbols_made(c[1])
            } else {
                0
            })
        },
        _ => symbols_made_all(c),
    }
}

/// Symbols the pass declares for the trees below `s`.
pub open spec fn symbols_made_all<'a>(s: Seq<&'a AstNode<'a>>) -> nat
    decreases s,
{
    if s.len() == 0 {
        0
    } else {
        symbols_made_all(s.drop_last()) + symbols_made(s.last())
    }
}

proof fn lemma_made_prefix<'a>(s: Seq<&'a AstNode<'a>>, i: int)
    requires
        0 <= i <= s.len(),
    ensures
        scopes_made_all(s.take(i)) <= scopes_made_all(s),
        symbols_made_all(s.take(i)) <= symbols_made_all(s),
    decreases s.len(),
{
    if i < s.len() {
        lemma_made_prefix(s.drop_last(), i);
        assert(s.drop_last().take(i) =~= s.take(i));
    } else {
        assert(s.take(i) =~= s);
    }
}

/// `n`, or `u32::MAX` where `n` is larger.
pub open spec fn capped(n: nat) -> nat {
    if n < u32::MAX {
        n
    } else {
        u32::MAX as nat
    }
}

/// The scopes and the symbols the pass makes for `node`, each counted up to
/// `u32::MAX`.
pub fn count_made(node: &AstNode<'_>) -> (r: (u64, u64))
    ensures
        r.0 == capped(scopes_made(node)),
        r.1 == capped(symbols_made(node)),
    decreases node, 1nat,
{
    proof {
        node.lemma_children_decrease();
    }
    let children = node.children();
    match node.kind() {
        NodeKind::Block { .. } | NodeKind::For { .. } | NodeKind::ForOf { .. } | NodeKind::While { .. }
        | NodeKind::DoWhile { .. } | NodeKind::ArrowFunction { .. } | NodeKind::FunctionExpression { .. } => {
            let (sc, sy) = count_made_children(node);
            (cap_sum(1, sc), sy)
        },
        NodeKind::FunctionDeclaration { .. } | NodeKind::ClassDeclaration { .. } => {
            let (sc, sy) = count_made_children(node);
            (cap_sum(1, sc), cap_sum(1, sy))
        },
        NodeKind::VariableStatement { declarations } => {
            let (sc, sy) = count_made_children(node);
            let n: u64 = if declarations.len() as u64 >= 0xffff_ffffu64 {
                0xffff_ffffu64
            } else {
                declarations.len() as u64
            };
            (sc, cap_sum(n, sy))
        },
        NodeKind::Try { catch_clause, .. } => {
            let (s0, y0) = if children.len() >= 1 {
                proof {
                    node.lemma_child_decreases(0);
                }
                count_made(children[0])
            } else {
                (0, 0)
            };
            let (s1, y1) = if children.len() >= 2 {
                proof {
                    node.lemma_child_decreases(1);
                }
                count_made(children[1])
            } else {
                (0, 0)
            };
            if catch_clause.is_some() {
                (cap_sum(s0, cap_sum(1, s1)), cap_sum(y0, y1))
            } else {
                (s0, y0)
            }
        },
        _ => count_made_children(node),
    }
}

/// `capped(a + b)` for capped `a` and `b`.
fn cap_sum(a: u64, b: u64) -> (r: u64)
    requires
        a <= u32::MAX,
        b <= u32::MAX,
    ensures
        r == capped((a + b) as nat),
{
    if a + b >= 0xffff_ffffu64 {
        0xffff_ffffu64
    } else {
        a + b
    }
}

/// The scopes and symbols the pass makes for the children of `node`, each counted up
/// to `u32::MAX`.
fn count_made_children(node: &AstNode<'_>) -> (r: (u64, u64))
    ensures
        r.0 == capped(scopes_made_all(node.spec_children())),
        r.1 == capped(symbols_made_all(node.spec_children())),
    decreases node, 0nat,
{
    let children = node.children();
    let ghost s = node.spec_children();
    let mut sc: u64 = 0;
    let mut sy: u64 = 0;
    let mut i: usize = 0;
    proof {
        assert(s.take(0) =~= Seq::<&AstNode<'_>>::empty());
    }
    while i < children.len()
        invariant
            i <= s.len(),
            children@ == s,
            s == node.spec_children(),
            sc == capped(scopes_made_all(s.take(i as int))),
            sy == capped(symbols_made_all(s.take(i as int))),
        decreases s.len() - i,
    {
        proof {
            node.lemma_child_decreases(i as int);
            assert(s.take(i + 1).drop_last() =~= s.take(i as int));
            assert(s.take(i + 1).last() == s[i as int]);
        }
        let (a, b) = count_made(children[i]);
        sc = cap_sum(sc, a);
        sy = cap_sum(sy, b);
        i = i + 1;
    }
    proof {
        assert(s.take(s.len() as int) =~= s);
    }
    (sc, sy)
}

/// The scope pass: the scope table and symbol table it builds.
#[derive(Debug)]
pub struct ScopeAnalyzer<'a> {
    /// Scope table managing all scopes
    pub scope_table: ScopeTable,
    /// Symbol table storing all declared symbols
    pub symbol_table: SymbolTable,
    /// Bump allocator for AST nodes
    _arena: &'a Bump,
    /// Type interner for type lookups and creation
    _type_interner: &'a mut TypeInterner,
}

impl<'a> ScopeAnalyzer<'a> {
    /// The scope table.
    pub closed spec fn spec_scope_table(self) -> ScopeTable {
        self.scope_table
    }

    /// The symbol table.
    pub closed spec fn spec_symbol_table(self) -> SymbolTable {
        self.symbol_table
    }

    /// Both tables are well formed and the root is a module scope.
    pub open spec fn wf(self) -> bool {
        &&& self.spec_scope_table().wf()
        &&& self.spec_symbol_table().wf()
        &&& self.spec_scope_table().scope_at(self.spec_scope_table().spec_root()).spec_kind() == ScopeKind::Module
    }

    /// The tables of `self` extend those of `before`: scopes are only added, and
    /// symbols are added or replaced by symbols of the same name in the same scope.
    pub open spec fn extends(self, before: Self) -> bool {
        &&& self.spec_scope_table().spec_scopes().len() >= before.spec_scope_table().spec_scopes().len()
        &&& self.spec_scope_table().spec_scopes().take(before.spec_scope_table().spec_scopes().len() as int)
            == before.spec_scope_table().spec_scopes()
        &&& keeps_symbols(self.spec_symbol_table().spec_symbols(), before.spec_symbol_table().spec_symbols())
        &&& self.spec_scope_table().spec_root() == before.spec_scope_table().spec_root()
    }

    /// The symbols of `self` that have a type are symbols of `before`, with the type
    /// they had there.
    pub open spec fn adds_untyped(self, before: Self) -> bool {
        forall|i: int|
            0 <= i < self.spec_symbol_table().spec_symbols().len() && (#[trigger] self.spec_symbol_table().spec_symbols()[i]).spec_type_id() is Some
                ==> i < before.spec_symbol_table().spec_symbols().len()
                && self.spec_symbol_table().spec_symbols()[i].spec_type_id()
                == before.spec_symbol_table().spec_symbols()[i].spec_type_id()
    }

    /// A pass with a root module scope spanning `root_span` and no symbols.
    pub fn new(arena: &'a Bump, type_interner: &'a mut TypeInterner, root_span: Span) -> (r: Self)
        ensures
            r.wf(),
            r.spec_scope_table().spec_scopes().len() == 1,
            r.spec_scope_table().spec_current() == r.spec_scope_table().spec_root(),
            r.spec_scope_table().scope_at(r.spec_scope_table().spec_root()).spec_span() == root_span,
            r.spec_symbol_table().spec_symbols().len() == 0,
    {
        ScopeAnalyzer {
            scope_table: ScopeTable::new(root_span),
            symbol_table: SymbolTable::new(),
            _arena: arena,
            _type_interner: type_interner,
        }
    }

    /// The scope table and the symbol table the pass built.
    pub fn into_tables(self) -> (r: (ScopeTable, SymbolTable))
        ensures
            r.0 == self.spec_scope_table(),
            r.1 == self.spec_symbol_table(),
    {
        (self.scope_table, self.symbol_table)
    }

    /// The span of `node`, or the empty span at 0 where it has none.
    fn get_span(&self, node: &'a AstNode<'a>) -> (r: Span)
        ensures
            r == match node.spec_span() {
                Some(s) => s,
                None => r,
            },
    {
        match node.span() {
            Some(s) => s,
            None => Span::new(0, 0),
        }
    }

    /// The current scope.
    pub fn current_scope(&self) -> (r: ScopeId)
        ensures
            r == self.spec_scope_table().spec_current(),
    {
        self.scope_table.current()
    }

    /// Enters a new scope of `kind` under the current one.
    pub fn push_scope(&mut self, kind: ScopeKind, span: Span) -> (r: ScopeId)
        requires
            old(self).wf(),
            old(self).spec_scope_table().spec_scopes().len() < u32::MAX,
        ensures
            final(self).wf(),
            final(self).extends(*old(self)),
            final(self).spec_scope_table().spec_scopes().len() == old(self).spec_scope_table().spec_scopes().len() + 1,
            final(self).spec_symbol_table() == old(self).spec_symbol_table(),
            r.spec_get() == old(self).spec_scope_table().spec_scopes().len(),
            final(self).spec_scope_table().spec_current() == r,
            final(self).spec_scope_table().scope_at(r).spec_kind() == kind,
            final(self).spec_scope_table().scope_at(r).spec_parent() == Some(old(self).spec_scope_table().spec_current()),
    {
        let r = self.scope_table.push_scope(kind, span);
        proof {
            let s0 = old(self).spec_scope_table().spec_scopes();
            assert(self.spec_scope_table().spec_scopes().take(s0.len() as int) =~= s0);
            assert(self.spec_scope_table().spec_scopes()[0] == s0[0]);
            assert(self.spec_symbol_table().spec_symbols().take(self.spec_symbol_table().spec_symbols().len() as int)
                =~= self.spec_symbol_table().spec_symbols());
        }
        r
    }

    /// Leaves the current scope for its parent; the root cannot be left.
    pub fn pop_scope(&mut self) -> (r: ScopeId)
        requires
            old(self).wf(),
            old(self).spec_scope_table().spec_current() != old(self).spec_scope_table().spec_root(),
        ensures
            final(self).wf(),
            final(self).spec_scope_table().spec_scopes() == old(self).spec_scope_table().spec_scopes(),
            final(self).spec_symbol_table() == old(self).spec_symbol_table(),
            r == old(self).spec_scope_table().spec_current(),
            Some(final(self).spec_scope_table().spec_current()) == old(self).spec_scope_table().scope_at(r).spec_parent(),
            final(self).spec_scope_table().spec_root() == old(self).spec_scope_table().spec_root(),
    {
        self.scope_table.pop_scope()
    }

    /// The scope a `var` declaration made now is hoisted to.
    fn find_hoist_scope(&self) -> (r: ScopeId)
        requires
            self.wf(),
        ensures
            hoist_target(self.spec_scope_table().spec_scopes(), self.spec_scope_table().spec_current()) == Some(r),
    {
        let ghost scopes = self.spec_scope_table().spec_scopes();
        let mut current = self.current_scope();
        proof {
            lemma_hoist_reaches(scopes, current);
        }
        loop
            invariant
                self.wf(),
                scopes == self.spec_scope_table().spec_scopes(),
                current.spec_get() < scopes.len(),
                hoist_target(scopes, current) == hoist_target(scopes, self.spec_scope_table().spec_current()),
                hoist_target(scopes, current) is Some,
            decreases current.spec_get(),
        {
            let scope = self.scope_table.get_scope(current).unwrap();
            match scope.kind() {
                ScopeKind::Function | ScopeKind::Module => {
                    return current;
                },
                _ => {
                    current = scope.parent().unwrap();
                },
            }
        }
    }

    /// Declares `name` with `kind`: a `var` in the scope it hoists to (the nearest
    /// function or module scope), anything else in the current scope.
    pub fn declare_variable(
        &mut self,
        name: String,
        kind: SymbolKind,
        span: Span,
        is_var: bool,
        type_id: Option<TypeId>,
    ) -> (r: SymbolId)
        requires
            old(self).wf(),
            old(self).spec_symbol_table().spec_symbols().len() < u32::MAX,
        ensures
            final(self).wf(),
            final(self).extends(*old(self)),
            final(self).spec_scope_table() == old(self).spec_scope_table(),
            final(self).spec_symbol_table().spec_symbols().len() <= old(self).spec_symbol_table().spec_symbols().len() + 1,
            r.spec_get() < final(self).spec_symbol_table().spec_symbols().len(),
            latest_symbol(
                final(self).spec_symbol_table().spec_symbols(),
                final(self).spec_symbol_table().symbol_at(r).spec_scope(),
                name@,
            ) == Some(r),
            type_id is None ==> final(self).adds_untyped(*old(self)),
            final(self).spec_symbol_table().symbol_at(r).spec_name() == name@,
            final(self).spec_symbol_table().symbol_at(r).spec_kind() == kind,
            final(self).spec_symbol_table().symbol_at(r).spec_span() == span,
            final(self).spec_symbol_table().symbol_at(r).spec_type_id() == type_id,
            is_var ==> Some(final(self).spec_symbol_table().symbol_at(r).spec_scope()) == hoist_target(
                old(self).spec_scope_table().spec_scopes(),
                old(self).spec_scope_table().spec_current(),
            ),
            !is_var ==> final(self).spec_symbol_table().symbol_at(r).spec_scope() == old(self).spec_scope_table().spec_current(),
    {
        let declare_scope = if is_var {
            self.find_hoist_scope()
        } else {
            self.current_scope()
        };
        let r = self.symbol_table.insert(name, kind, span, declare_scope, type_id);
        proof {
            assert(self.spec_scope_table().spec_scopes().take(self.spec_scope_table().spec_scopes().len() as int)
                =~= self.spec_scope_table().spec_scopes());
        }
        r
    }

    /// Declares the function `name` in the current scope and enters a new function
    /// scope.
    pub fn process_function_declaration(&mut self, name: String, span: Span, type_id: Option<TypeId>) -> (r: (
        SymbolId,
        ScopeId,
    ))
        requires
            old(self).wf(),
            old(self).spec_symbol_table().spec_symbols().len() < u32::MAX,
            old(self).spec_scope_table().spec_scopes().len() < u32::MAX,
        ensures
            final(self).wf(),
            final(self).extends(*old(self)),
            final(self).spec_symbol_table().spec_symbols().len() <= old(self).spec_symbol_table().spec_symbols().len() + 1,
            final(self).spec_scope_table().spec_scopes().len() == old(self).spec_scope_table().spec_scopes().len() + 1,
            latest_symbol(
                final(self).spec_symbol_table().spec_symbols(),
                old(self).spec_scope_table().spec_current(),
                name@,
            ) == Some(r.0),
            type_id is None ==> final(self).adds_untyped(*old(self)),
            final(self).spec_symbol_table().symbol_at(r.0).spec_name() == name@,
            final(self).spec_symbol_table().symbol_at(r.0).spec_kind() == SymbolKind::Function,
            final(self).spec_symbol_table().symbol_at(r.0).spec_type_id() == type_id,
            final(self).spec_symbol_table().symbol_at(r.0).spec_scope() == old(self).spec_scope_table().spec_current(),
            r.0.spec_get() < final(self).spec_symbol_table().spec_symbols().len(),
            r.1.spec_get() == old(self).spec_scope_table().spec_scopes().len(),
            final(self).spec_scope_table().spec_current() == r.1,
            final(self).spec_scope_table().scope_at(r.1).spec_kind() == ScopeKind::Function,
            final(self).spec_scope_table().scope_at(r.1).spec_parent() == Some(old(self).spec_scope_table().spec_current()),
    {
        let current = self.current_scope();
        let symbol_id = self.symbol_table.insert(name, SymbolKind::Function, span, current, type_id);
        let ghost mid = *self;
        proof {
            let s0 = old(self).spec_scope_table().spec_scopes();
            assert(self.spec_scope_table().spec_scopes().take(s0.len() as int) =~= s0);
        }
        let function_scope = self.push_scope(ScopeKind::Function, span);
        proof {
            let s0 = old(self).spec_scope_table().spec_scopes();
            assert(self.spec_scope_table().spec_scopes().take(s0.len() as int) =~= s0);
        }
        (symbol_id, function_scope)
    }

    /// Declares the class `name` in the current scope and enters a new class scope.
    pub fn process_class_declaration(&mut self, name: String, span: Span, type_id: Option<TypeId>) -> (r: (
        SymbolId,
        ScopeId,
    ))
        requires
            old(self).wf(),
            old(self).spec_symbol_table().spec_symbols().len() < u32::MAX,
            old(self).spec_scope_table().spec_scopes().len() < u32::MAX,
        ensures
            final(self).wf(),
            final(self).extends(*old(self)),
            final(self).spec_symbol_table().spec_symbols().len() <= old(self).spec_symbol_table().spec_symbols().len() + 1,
            final(self).spec_scope_table().spec_scopes().len() == old(self).spec_scope_table().spec_scopes().len() + 1,
            latest_symbol(
                final(self).spec_symbol_table().spec_symbols(),
                old(self).spec_scope_table().spec_current(),
                name@,
            ) == Some(r.0),
            type_id is None ==> final(self).adds_untyped(*old(self)),
            final(self).spec_symbol_table().symbol_at(r.0).spec_name() == name@,
            final(self).spec_symbol_table().symbol_at(r.0).spec_kind() == SymbolKind::Class,
            final(self).spec_symbol_table().symbol_at(r.0).spec_type_id() == type_id,
            final(self).spec_symbol_table().symbol_at(r.0).spec_scope() == old(self).spec_scope_table().spec_current(),
            r.0.spec_get() < final(self).spec_symbol_table().spec_symbols().len(),
            r.1.spec_get() == old(self).spec_scope_table().spec_scopes().len(),
            final(self).spec_scope_table().spec_current() == r.1,
            final(self).spec_scope_table().scope_at(r.1).spec_kind() == ScopeKind::Class,
            final(self).spec_scope_table().scope_at(r.1).spec_parent() == Some(old(self).spec_scope_table().spec_current()),
    {
        let current = self.current_scope();
        let symbol_id = self.symbol_table.insert(name, SymbolKind::Class, span, current, type_id);
        proof {
            let s0 = old(self).spec_scope_table().spec_scopes();
            assert(self.spec_scope_table().spec_scopes().take(s0.len() as int) =~= s0);
        }
        let class_scope = self.push_scope(ScopeKind::Class, span);
        proof {
            let s0 = old(self).spec_scope_table().spec_scopes();
            assert(self.spec_scope_table().spec_scopes().take(s0.len() as int) =~= s0);
        }
        (symbol_id, class_scope)
    }
}

/// From a scope of a well-formed table whose root is a module scope, hoisting always
/// finds a target.
proof fn lemma_hoist_reaches(scopes: Seq<Scope>, s: ScopeId)
    requires
        crate::semantic::scope::scope::scopes_well_formed(scopes),
        scopes[0].spec_kind() == ScopeKind::Module,
        s.spec_get() < scopes.len(),
    ensures
        hoist_target(scopes, s) is Some,
    decreases s.spec_get(),
{
    let sc = scopes[s.spec_get() as int];
    assert(sc.spec_id().spec_get() == s.spec_get());
    if s.spec_get() == 0 {
    } else {
        match sc.spec_parent() {
            Some(p) => lemma_hoist_reaches(scopes, p),
            None => {},
        }
    }
}

/// Scope `c` of `scopes` has kind `kind` and parent `parent`.
pub open spec fn opened(scopes: Seq<Scope>, c: int, kind: ScopeKind, parent: ScopeId) -> bool {
    &&& 0 <= c < scopes.len()
    &&& scopes[c].spec_kind() == kind
    &&& scopes[c].spec_parent() == Some(parent)
}

/// A symbol named `name` is declared in scope `scope`: by-name lookups there find one.
pub open spec fn declared_at(symbols: Seq<crate::semantic::symbol::symbol::Symbol>, name: Seq<char>, scope: ScopeId) -> bool {
    latest_symbol(symbols, scope, name) is Some
}

/// Each of `decls` is declared, from scope `cur` (see `variable_at`).
pub open spec fn variables_at(
    symbols: Seq<crate::semantic::symbol::symbol::Symbol>,
    decls: Seq<crate::parser::ast::types::VariableDeclaration>,
    scopes: Seq<Scope>,
    cur: ScopeId,
) -> bool {
    forall|i: int| 0 <= i < decls.len() ==> variable_at(symbols, #[trigger] decls[i], scopes, cur)
}

/// The name of `decl` is declared in `cur` (a `var` in the scope `hoist_target`
/// gives).
pub open spec fn variable_at(
    symbols: Seq<crate::semantic::symbol::symbol::Symbol>,
    decl: crate::parser::ast::types::VariableDeclaration,
    scopes: Seq<Scope>,
    cur: ScopeId,
) -> bool {
    &&& decl.kind == VariableKind::Var ==> (hoist_target(scopes, cur) matches Some(t) && declared_at(symbols, decl.name@, t))
    &&& decl.kind != VariableKind::Var ==> declared_at(symbols, decl.name@, cur)
}

/// The names that `node` itself declares are found from scope `cur` of `scopes`:
/// those of a variable statement as `variables_at` says, that of a function or class
/// declaration in `cur` itself.
pub open spec fn declared_by<'a>(
    symbols: Seq<crate::semantic::symbol::symbol::Symbol>,
    scopes: Seq<Scope>,
    cur: ScopeId,
    node: &'a AstNode<'a>,
) -> bool {
    match node.spec_kind() {
        NodeKind::VariableStatement { declarations } => variables_at(symbols, declarations@, scopes, cur),
        NodeKind::FunctionDeclaration { name, .. } => declared_at(symbols, name@, cur),
        NodeKind::ClassDeclaration { name, .. } => declared_at(symbols, name@, cur),
        _ => true,
    }
}

/// A name declared in the scope that hoisting from `s` finds is found by lexical
/// lookup from `s`.
pub proof fn lemma_hoisted_found(symbols: Seq<crate::semantic::symbol::symbol::Symbol>, scopes: Seq<Scope>, s: ScopeId, name: Seq<char>)
    requires
        hoist_target(scopes, s) matches Some(t) && declared_at(symbols, name, t),
    ensures
        lexical_symbol(symbols, scopes, s, name) is Some,
    decreases s.spec_get(),
{
    if latest_symbol(symbols, s, name) is None {
        let sc = scopes[s.spec_get() as int];
        match sc.spec_kind() {
            ScopeKind::Function | ScopeKind::Module => {},
            _ => match sc.spec_parent() {
                Some(p) => if p.spec_get() < s.spec_get() {
                    lemma_hoisted_found(symbols, scopes, p, name);
                },
                None => {},
            },
        }
    }
}

/// Hoisting from a scope finds the same target in a table that extends the one it
/// was found in.
proof fn lemma_hoist_extends(kb: Seq<Scope>, kc: Seq<Scope>, s: ScopeId)
    requires
        kc.len() >= kb.len(),
        kc.take(kb.len() as int) == kb,
        hoist_target(kb, s) is Some,
    ensures
        hoist_target(kc, s) == hoist_target(kb, s),
    decreases s.spec_get(),
{
    assert(kc[s.spec_get() as int] == kc.take(kb.len() as int)[s.spec_get() as int]);
    let sc = kb[s.spec_get() as int];
    match sc.spec_kind() {
        ScopeKind::Function | ScopeKind::Module => {},
        _ => match sc.spec_parent() {
            Some(p) => if p.spec_get() < s.spec_get() {
                lemma_hoist_extends(kb, kc, p);
            },
            None => {},
        },
    }
}

impl<'a> ScopeAnalyzer<'a> {
    /// What walking `node` from `before` recorded in `self`, first of all: a variable
    /// statement declares each of its names in the current scope (a `var` in the
    /// nearest function or module scope); a function or class declaration declares its
    /// name in the current scope and opens a scope of that kind below the current one;
    /// a block, a loop, an arrow function or a function expression opens a scope of its
    /// kind (block, loop, function) below the current one.
    pub open spec fn records(self, before: Self, node: &'a AstNode<'a>) -> bool {
        let c0 = before.spec_scope_table().spec_scopes().len() as int;
        let cur = before.spec_scope_table().spec_current();
        let syms = self.spec_symbol_table().spec_symbols();
        let scs = self.spec_scope_table().spec_scopes();
        match node.spec_kind() {
            NodeKind::VariableStatement { declarations } => variables_at(
                syms,
                declarations@,
                before.spec_scope_table().spec_scopes(),
                cur,
            ),
            NodeKind::FunctionDeclaration { name, .. } => opened(scs, c0, ScopeKind::Function, cur) && declared_at(
                syms,
                name@,
                cur,
            ),
            NodeKind::ClassDeclaration { name, .. } => opened(scs, c0, ScopeKind::Class, cur) && declared_at(
                syms,
                name@,
                cur,
            ),
            NodeKind::Block { .. } => opened(scs, c0, ScopeKind::Block, cur),
            NodeKind::For { .. } | NodeKind::ForOf { .. } | NodeKind::While { .. } | NodeKind::DoWhile { .. } => opened(
                scs,
                c0,
                ScopeKind::Loop,
                cur,
            ),
            NodeKind::ArrowFunction { .. } | NodeKind::FunctionExpression { .. } => opened(scs, c0, ScopeKind::Function, cur),
            _ => true,
        }
    }

    /// What one pass records stays recorded as the pass goes on.
    proof fn lemma_records_kept(a: Self, b: Self, c: Self, node: &'a AstNode<'a>)
        requires
            b.records(a, node),
            c.extends(b),
        ensures
            c.records(a, node),
    {
        let sb = b.spec_symbol_table().spec_symbols();
        let sc = c.spec_symbol_table().spec_symbols();
        let kb = b.spec_scope_table().spec_scopes();
        let kc = c.spec_scope_table().spec_scopes();
        assert forall|n: int| 0 <= n < kb.len() implies kc[n] == kb[n] by {
            assert(kc.take(kb.len() as int)[n] == kc[n]);
        }
        assert forall|scope: ScopeId, name: Seq<char>| declared_at(sb, name, scope) implies declared_at(sc, name, scope) by {
            lemma_latest_kept(sc, sb, scope, name);
        }
    }
}

impl<'a> ScopeAnalyzer<'a> {
    /// What a walk of `node` from `before`, whose current scope is `cur`, recorded,
    /// says of what `node` declares in any pass `c` that extends it.
    proof fn lemma_records_declared(a: Self, b: Self, c: Self, node: &'a AstNode<'a>)
        requires
            b.records(a, node),
            c.extends(b),
            b.extends(a),
        ensures
            declared_by(
                c.spec_symbol_table().spec_symbols(),
                c.spec_scope_table().spec_scopes(),
                a.spec_scope_table().spec_current(),
                node,
            ),
    {
        Self::lemma_records_kept(a, b, c, node);
        Self::lemma_extends_trans(a, b, c);
        let ka = a.spec_scope_table().spec_scopes();
        let kc = c.spec_scope_table().spec_scopes();
        let cur = a.spec_scope_table().spec_current();
        if let NodeKind::VariableStatement { declarations } = node.spec_kind() {
            assert forall|i: int| 0 <= i < declarations@.len() implies variable_at(
                c.spec_symbol_table().spec_symbols(),
                #[trigger] declarations@[i],
                kc,
                cur,
            ) by {
                if declarations@[i].kind == VariableKind::Var {
                    lemma_hoist_extends(ka, kc, cur);
                }
            }
        }
    }

    /// What `declared_by` says of a pass, it says of any pass that extends it.
    proof fn lemma_declared_kept(b: Self, c: Self, cur: ScopeId, node: &'a AstNode<'a>)
        requires
            declared_by(b.spec_symbol_table().spec_symbols(), b.spec_scope_table().spec_scopes(), cur, node),
            c.extends(b),
        ensures
            declared_by(c.spec_symbol_table().spec_symbols(), c.spec_scope_table().spec_scopes(), cur, node),
    {
        let sb = b.spec_symbol_table().spec_symbols();
        let sc = c.spec_symbol_table().spec_symbols();
        let kb = b.spec_scope_table().spec_scopes();
        let kc = c.spec_scope_table().spec_scopes();
        assert forall|scope: ScopeId, name: Seq<char>| declared_at(sb, name, scope) implies declared_at(sc, name, scope) by {
            lemma_latest_kept(sc, sb, scope, name);
        }
        if let NodeKind::VariableStatement { declarations } = node.spec_kind() {
            assert forall|i: int| 0 <= i < declarations@.len() implies variable_at(sc, #[trigger] declarations@[i], kc, cur) by {
                assert(variable_at(sb, declarations@[i], kb, cur));
                if declarations@[i].kind == VariableKind::Var {
                    lemma_hoist_extends(kb, kc, cur);
                }
            }
        }
    }
}

impl<'a> ScopeAnalyzer<'a> {
    /// Extension is transitive.
    proof fn lemma_extends_trans(a: Self, b: Self, c: Self)
        requires
            b.extends(a),
            c.extends(b),
        ensures
            c.extends(a),
    {
        let sa = a.spec_scope_table().spec_scopes();
        let sc = c.spec_scope_table().spec_scopes();
        let ya = a.spec_symbol_table().spec_symbols();
        let yc = c.spec_symbol_table().spec_symbols();
        assert(sc.take(sa.len() as int) =~= b.spec_scope_table().spec_scopes().take(sa.len() as int));
    }

    /// `extends` and `adds_untyped` compose.
    proof fn lemma_steps(a: Self, b: Self, c: Self)
        requires
            b.extends(a),
            c.extends(b),
            b.adds_untyped(a),
            c.adds_untyped(b),
        ensures
            c.extends(a),
            c.adds_untyped(a),
    {
        Self::lemma_extends_trans(a, b, c);
    }

    /// Every pass extends itself and adds nothing to itself.
    proof fn lemma_steps_refl(a: Self)
        ensures
            a.extends(a),
            a.adds_untyped(a),
    {
        Self::lemma_extends_refl(a);
    }

    /// Every pass extends itself.
    proof fn lemma_extends_refl(a: Self)
        ensures
            a.extends(a),
    {
        assert(a.spec_scope_table().spec_scopes().take(a.spec_scope_table().spec_scopes().len() as int)
            =~= a.spec_scope_table().spec_scopes());
    }

    /// Walks `node`: blocks, loops, functions, classes and catch clauses get scopes of
    /// their own, declarations add symbols or replace those of the same name in the
    /// same scope (`var` hoisted), and the current scope is the same afterwards. What
    /// `node` itself declares and opens comes first (see `records`); of a block, what
    /// each statement directly in it declares is found from the block's scope (see
    /// `declared_by`).
    pub fn visit_node(&mut self, node: &'a AstNode<'a>)
        requires
            old(self).wf(),
            old(self).spec_scope_table().spec_scopes().len() + scopes_made(node) < u32::MAX,
            old(self).spec_symbol_table().spec_symbols().len() + symbols_made(node) < u32::MAX,
        ensures
            final(self).wf(),
            final(self).extends(*old(self)),
            final(self).adds_untyped(*old(self)),
            final(self).spec_scope_table().spec_scopes().len() == old(self).spec_scope_table().spec_scopes().len()
                + scopes_made(node),
            final(self).spec_symbol_table().spec_symbols().len() <= old(self).spec_symbol_table().spec_symbols().len()
                + symbols_made(node),
            final(self).spec_scope_table().spec_current() == old(self).spec_scope_table().spec_current(),
            final(self).records(*old(self), node),
            node.spec_kind() is Block ==> forall|k: int|
                0 <= k < node.spec_children().len() ==> declared_by(
                    final(self).spec_symbol_table().spec_symbols(),
                    final(self).spec_scope_table().spec_scopes(),
                    final(self).spec_scope_table().spec_scopes()[old(self).spec_scope_table().spec_scopes().len() as int].spec_id(),
                    #[trigger] node.spec_children()[k],
                ),
        decreases node, 2nat,
    {
        proof {
            node.lemma_children_decrease();
        }
        match node.kind() {
            NodeKind::Block { .. } => self.visit_scoped(node, ScopeKind::Block),
            NodeKind::For { .. } => self.visit_scoped(node, ScopeKind::Loop),
            NodeKind::ForOf { .. } => self.visit_scoped(node, ScopeKind::Loop),
            NodeKind::While { .. } => self.visit_scoped(node, ScopeKind::Loop),
            NodeKind::DoWhile { .. } => self.visit_scoped(node, ScopeKind::Loop),
            NodeKind::ArrowFunction { .. } => self.visit_scoped(node, ScopeKind::Function),
            NodeKind::FunctionExpression { .. } => self.visit_scoped(node, ScopeKind::Function),
            NodeKind::FunctionDeclaration { .. } => self.visit_function_declaration(node),
            NodeKind::ClassDeclaration { .. } => self.visit_class_declaration(node),
            NodeKind::VariableStatement { .. } => self.visit_variable_statement(node),
            NodeKind::Try { .. } => self.visit_try(node),
            _ => self.default_visit_node(node),
        }
    }

    /// A function declaration: its name is declared (hoisted to the nearest function or
    /// module scope) and its body is walked in a function scope of its own.
    fn visit_function_declaration(&mut self, node: &'a AstNode<'a>)
        requires
            old(self).wf(),
            old(self).spec_scope_table().spec_scopes().len() + scopes_made(node) < u32::MAX,
            old(self).spec_symbol_table().spec_symbols().len() + symbols_made(node) < u32::MAX,
            node.spec_kind() is FunctionDeclaration,
        ensures
            final(self).wf(),
            final(self).extends(*old(self)),
            final(self).adds_untyped(*old(self)),
            final(self).spec_scope_table().spec_scopes().len() == old(self).spec_scope_table().spec_scopes().len()
                + scopes_made(node),
            final(self).spec_symbol_table().spec_symbols().len() <= old(self).spec_symbol_table().spec_symbols().len()
                + symbols_made(node),
            final(self).spec_scope_table().spec_current() == old(self).spec_scope_table().spec_current(),
            final(self).records(*old(self), node),
        decreases node, 1nat,
    {
        proof {
            node.lemma_children_decrease();
        }
        if let NodeKind::FunctionDeclaration { name, .. } = node.kind() {
            let span = self.get_span(node);
            let ghost before = *self;
            let _ = self.process_function_declaration(name.clone(), span, None);
            let ghost mid = *self;
            self.default_visit_node(node);
            let ghost after = *self;
            self.pop_scope();
            proof {
                Self::lemma_steps(before, mid, after);
                assert(self.spec_scope_table().spec_scopes() == after.spec_scope_table().spec_scopes());
                Self::lemma_steps_refl(after);
                assert(self.extends(after));
                Self::lemma_steps(before, after, *self);
                assert(mid.records(before, node));
                Self::lemma_extends_trans(mid, after, *self);
                Self::lemma_records_kept(before, mid, *self, node);
            }
        }
    }

    /// A class declaration: its name is declared and its body is walked in a class
    /// scope of its own.
    fn visit_class_declaration(&mut self, node: &'a AstNode<'a>)
        requires
            old(self).wf(),
            old(self).spec_scope_table().spec_scopes().len() + scopes_made(node) < u32::MAX,
            old(self).spec_symbol_table().spec_symbols().len() + symbols_made(node) < u32::MAX,
            node.spec_kind() is ClassDeclaration,
        ensures
            final(self).wf(),
            final(self).extends(*old(self)),
            final(self).adds_untyped(*old(self)),
            final(self).spec_scope_table().spec_scopes().len() == old(self).spec_scope_table().spec_scopes().len()
                + scopes_made(node),
            final(self).spec_symbol_table().spec_symbols().len() <= old(self).spec_symbol_table().spec_symbols().len()
                + symbols_made(node),
            final(self).spec_scope_table().spec_current() == old(self).spec_scope_table().spec_current(),
            final(self).records(*old(self), node),
        decreases node, 1nat,
    {
        proof {
            node.lemma_children_decrease();
        }
        if let NodeKind::ClassDeclaration { name, .. } = node.kind() {
            let span = self.get_span(node);
            let ghost before = *self;
            let _ = self.process_class_declaration(name.clone(), span, None);
            let ghost mid = *self;
            self.default_visit_node(node);
            let ghost after = *self;
            self.pop_scope();
            proof {
                Self::lemma_steps(before, mid, after);
                Self::lemma_steps_refl(after);
                assert(self.extends(after));
                Self::lemma_steps(before, after, *self);
                assert(mid.records(before, node));
                Self::lemma_extends_trans(mid, after, *self);
                Self::lemma_records_kept(before, mid, *self, node);
            }
        }
    }

    /// A variable statement: each declaration's name is declared (`var` hoisted), then
    /// the statement's children are walked.
    fn visit_variable_statement(&mut self, node: &'a AstNode<'a>)
        requires
            old(self).wf(),
            old(self).spec_scope_table().spec_scopes().len() + scopes_made(node) < u32::MAX,
            old(self).spec_symbol_table().spec_symbols().len() + symbols_made(node) < u32::MAX,
            node.spec_kind() is VariableStatement,
        ensures
            final(self).wf(),
            final(self).extends(*old(self)),
            final(self).adds_untyped(*old(self)),
            final(self).spec_scope_table().spec_scopes().len() == old(self).spec_scope_table().spec_scopes().len()
                + scopes_made(node),
            final(self).spec_symbol_table().spec_symbols().len() <= old(self).spec_symbol_table().spec_symbols().len()
                + symbols_made(node),
            final(self).spec_scope_table().spec_current() == old(self).spec_scope_table().spec_current(),
            final(self).records(*old(self), node),
        decreases node, 1nat,
    {
        proof {
            node.lemma_children_decrease();
        }
        if let NodeKind::VariableStatement { declarations } = node.kind() {
            let span = self.get_span(node);
            let ghost before = *self;
            let ghost n0 = self.spec_symbol_table().spec_symbols().len();
            proof {
                Self::lemma_steps_refl(*self);
            }
            let mut i: usize = 0;
            while i < declarations.len()
                invariant
                    i <= declarations@.len(),
                    self.wf(),
                    self.extends(before),
                    self.adds_untyped(before),
                    n0 == before.spec_symbol_table().spec_symbols().len(),
                    self.spec_symbol_table().spec_symbols().len() <= n0 + i,
                    n0 + declarations@.len() + symbols_made_all(node.spec_children()) < u32::MAX,
                    self.spec_scope_table() == before.spec_scope_table(),
                    forall|k: int|
                        0 <= k < i ==> variable_at(
                            self.spec_symbol_table().spec_symbols(),
                            #[trigger] declarations@[k],
                            before.spec_scope_table().spec_scopes(),
                            before.spec_scope_table().spec_current(),
                        ),
                decreases declarations@.len() - i,
            {
                let decl = &declarations[i];
                let is_var = decl.kind == VariableKind::Var;
                let ghost pre = *self;
                self.declare_variable(decl.name.clone(), SymbolKind::Variable, span, is_var, None);
                proof {
                    Self::lemma_steps(before, pre, *self);
                    let sp = pre.spec_symbol_table().spec_symbols();
                    let ss = self.spec_symbol_table().spec_symbols();
                    assert forall|k: int| 0 <= k < i + 1 implies variable_at(
                        ss,
                        #[trigger] declarations@[k],
                        before.spec_scope_table().spec_scopes(),
                        before.spec_scope_table().spec_current(),
                    ) by {
                        if k < i {
                            let d = declarations@[k];
                            if d.kind == VariableKind::Var {
                                let t = hoist_target(before.spec_scope_table().spec_scopes(), before.spec_scope_table().spec_current())->0;
                                lemma_latest_kept(ss, sp, t, d.name@);
                            } else {
                                lemma_latest_kept(ss, sp, before.spec_scope_table().spec_current(), d.name@);
                            }
                        }
                    }
                }
                i = i + 1;
            }
            let ghost mid = *self;
            self.default_visit_node(node);
            proof {
                Self::lemma_steps(before, mid, *self);
                assert(mid.records(before, node));
                Self::lemma_records_kept(before, mid, *self, node);
            }
        }
    }

    /// A try statement: the try block is walked, then the catch clause, if any, in a
    /// catch scope of its own.
    fn visit_try(&mut self, node: &'a AstNode<'a>)
        requires
            old(self).wf(),
            old(self).spec_scope_table().spec_scopes().len() + scopes_made(node) < u32::MAX,
            old(self).spec_symbol_table().spec_symbols().len() + symbols_made(node) < u32::MAX,
            node.spec_kind() is Try,
        ensures
            final(self).wf(),
            final(self).extends(*old(self)),
            final(self).adds_untyped(*old(self)),
            final(self).spec_scope_table().spec_scopes().len() == old(self).spec_scope_table().spec_scopes().len()
                + scopes_made(node),
            final(self).spec_symbol_table().spec_symbols().len() <= old(self).spec_symbol_table().spec_symbols().len()
                + symbols_made(node),
            final(self).spec_scope_table().spec_current() == old(self).spec_scope_table().spec_current(),
            final(self).records(*old(self), node),
        decreases node, 1nat,
    {
        proof {
            node.lemma_children_decrease();
        }
        if let NodeKind::Try { catch_clause, .. } = node.kind() {
            let children = node.children();
            let ghost c = node.spec_children();
            let ghost before = *self;
            proof {
                Self::lemma_steps_refl(*self);
            }
            if children.len() >= 1 {
                proof {
                    node.lemma_child_decreases(0);
                }
                self.visit_node(children[0]);
            }
            let ghost mid = *self;
            if catch_clause.is_some() {
                let span = self.get_span(node);
                let _ = self.push_scope(ScopeKind::Catch, span);
                let ghost m2 = *self;
                proof {
                    Self::lemma_steps(before, mid, m2);
                }
                if children.len() >= 2 {
                    proof {
                        node.lemma_child_decreases(1);
                    }
                    self.visit_node(children[1]);
                    proof {
                        Self::lemma_steps(before, m2, *self);
                    }
                }
                let ghost m3 = *self;
                self.pop_scope();
                proof {
                    Self::lemma_steps_refl(m3);
                    assert(self.extends(m3));
                    Self::lemma_steps(before, m3, *self);
                }
            }
        }
    }

    /// Walks `node` inside a new scope of `kind`.
    fn visit_scoped(&mut self, node: &'a AstNode<'a>, kind: ScopeKind)
        requires
            old(self).wf(),
            old(self).spec_scope_table().spec_scopes().len() + 1 + scopes_made_all(node.spec_children()) < u32::MAX,
            old(self).spec_symbol_table().spec_symbols().len() + symbols_made_all(node.spec_children()) < u32::MAX,
        ensures
            opened(
                final(self).spec_scope_table().spec_scopes(),
                old(self).spec_scope_table().spec_scopes().len() as int,
                kind,
                old(self).spec_scope_table().spec_current(),
            ),
            final(self).wf(),
            final(self).extends(*old(self)),
            final(self).adds_untyped(*old(self)),
            final(self).spec_scope_table().spec_scopes().len() == old(self).spec_scope_table().spec_scopes().len() + 1
                + scopes_made_all(node.spec_children()),
            final(self).spec_symbol_table().spec_symbols().len() <= old(self).spec_symbol_table().spec_symbols().len()
                + symbols_made_all(node.spec_children()),
            final(self).spec_scope_table().spec_current() == old(self).spec_scope_table().spec_current(),
            forall|k: int|
                0 <= k < node.spec_children().len() ==> declared_by(
                    final(self).spec_symbol_table().spec_symbols(),
                    final(self).spec_scope_table().spec_scopes(),
                    final(self).spec_scope_table().spec_scopes()[old(self).spec_scope_table().spec_scopes().len() as int].spec_id(),
                    #[trigger] node.spec_children()[k],
                ),
        decreases node, 1nat,
    {
        let span = self.get_span(node);
        let ghost before = *self;
        let inner = self.push_scope(kind, span);
        let ghost mid = *self;
        self.default_visit_node(node);
        let ghost after = *self;
        self.pop_scope();
        proof {
            Self::lemma_steps(before, mid, after);
            Self::lemma_steps_refl(after);
            assert(self.extends(after));
            Self::lemma_steps(before, after, *self);
            let c0 = before.spec_scope_table().spec_scopes().len() as int;
            let ks = self.spec_scope_table().spec_scopes();
            let km = mid.spec_scope_table().spec_scopes();
            assert(ks.take(km.len() as int)[c0] == ks[c0]);
            assert(km[c0].spec_id().spec_get() == c0);
            ScopeId::lemma_eq(ks[c0].spec_id(), inner);
            assert forall|k: int| 0 <= k < node.spec_children().len() implies declared_by(
                self.spec_symbol_table().spec_symbols(),
                self.spec_scope_table().spec_scopes(),
                inner,
                #[trigger] node.spec_children()[k],
            ) by {
                Self::lemma_declared_kept(after, *self, inner, node.spec_children()[k]);
            }
        }
    }

    /// Walks the children of `node` in order.
    pub fn default_visit_node(&mut self, node: &'a AstNode<'a>)
        requires
            old(self).wf(),
            old(self).spec_scope_table().spec_scopes().len() + scopes_made_all(node.spec_children()) < u32::MAX,
            old(self).spec_symbol_table().spec_symbols().len() + symbols_made_all(node.spec_children()) < u32::MAX,
        ensures
            final(self).wf(),
            final(self).extends(*old(self)),
            final(self).adds_untyped(*old(self)),
            final(self).spec_scope_table().spec_scopes().len() == old(self).spec_scope_table().spec_scopes().len()
                + scopes_made_all(node.spec_children()),
            final(self).spec_symbol_table().spec_symbols().len() <= old(self).spec_symbol_table().spec_symbols().len()
                + symbols_made_all(node.spec_children()),
            final(self).spec_scope_table().spec_current() == old(self).spec_scope_table().spec_current(),
            forall|k: int|
                0 <= k < node.spec_children().len() ==> declared_by(
                    final(self).spec_symbol_table().spec_symbols(),
                    final(self).spec_scope_table().spec_scopes(),
                    old(self).spec_scope_table().spec_current(),
                    #[trigger] node.spec_children()[k],
                ),
        decreases node, 0nat,
    {
        let children = node.children();
        let ghost s = node.spec_children();
        let ghost before = *self;
        let ghost sc0 = self.spec_scope_table().spec_scopes().len();
        let ghost sy0 = self.spec_symbol_table().spec_symbols().len();
        proof {
            Self::lemma_steps_refl(*self);
            assert(s.take(0) =~= Seq::<&'a AstNode<'a>>::empty());
        }
        let mut i: usize = 0;
        while i < children.len()
            invariant
                i <= s.len(),
                children@ == s,
                s == node.spec_children(),
                self.wf(),
                self.extends(before),
                self.adds_untyped(before),
                sc0 == before.spec_scope_table().spec_scopes().len(),
                sy0 == before.spec_symbol_table().spec_symbols().len(),
                sc0 + scopes_made_all(s) < u32::MAX,
                sy0 + symbols_made_all(s) < u32::MAX,
                self.spec_scope_table().spec_scopes().len() == sc0 + scopes_made_all(s.take(i as int)),
                self.spec_symbol_table().spec_symbols().len() <= sy0 + symbols_made_all(s.take(i as int)),
                self.spec_scope_table().spec_current() == before.spec_scope_table().spec_current(),
                forall|k: int|
                    0 <= k < i ==> declared_by(
                        self.spec_symbol_table().spec_symbols(),
                        self.spec_scope_table().spec_scopes(),
                        before.spec_scope_table().spec_current(),
                        #[trigger] s[k],
                    ),
            decreases s.len() - i,
        {
            proof {
                node.lemma_child_decreases(i as int);
                assert(s.take(i + 1).drop_last() =~= s.take(i as int));
                assert(s.take(i + 1).last() == s[i as int]);
                lemma_made_prefix(s, i + 1);
            }
            let ghost pre = *self;
            self.visit_node(children[i]);
            proof {
                Self::lemma_steps(before, pre, *self);
                Self::lemma_extends_refl(*self);
                Self::lemma_records_declared(pre, *self, *self, s[i as int]);
                assert forall|k: int| 0 <= k < i implies declared_by(
                    self.spec_symbol_table().spec_symbols(),
                    self.spec_scope_table().spec_scopes(),
                    before.spec_scope_table().spec_current(),
                    #[trigger] s[k],
                ) by {
                    Self::lemma_declared_kept(pre, *self, before.spec_scope_table().spec_current(), s[k]);
                }
            }
            i = i + 1;
        }
        proof {
            assert(s.take(s.len() as int) =~= s);
        }
    }
}

} // verus!
