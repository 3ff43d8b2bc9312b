//! Scopes and the scope table that manages the nested lexical scopes of a program.

use vstd::prelude::*;
use rustc_hash::FxHashMap;
use crate::parser::ast::span::Span;
use crate::semantic::symbol::SymbolId;
use crate::text::{decimal, wrap_decimal};

verus! {

/// Identifier of a scope.
#[derive(Debug, Clone, Copy, PartialEq, Eq, PartialOrd, Ord, Hash, Structural)]
pub struct ScopeId(u32);

impl ScopeId {
    /// The id with the given number.
    pub fn new(id: u32) -> (r: ScopeId)
        ensures
            r.spec_get() == id,
    {
        ScopeId(id)
    }

    /// The number of the id.
    pub closed spec fn spec_get(self) -> u32 {
        self.0
    }

    /// The number of the id.
    pub fn get(self) -> (r: u32)
        ensures
            r == self.spec_get(),
    {
        self.0
    }

    /// Two ids are equal exactly when their numbers are.
    pub proof fn lemma_eq(a: ScopeId, b: ScopeId)
        ensures
            (a == b) <==> (a.spec_get() == b.spec_get()),
    {
    }

    /// Textual form `Scope(n)`.
    pub fn to_string(&self) -> (r: String)
        ensures
            r@ == "Scope("@ + decimal(self.spec_get() as nat) + ")"@,
    {
        wrap_decimal("Scope(", self.0 as u64, ")")
    }
}

/// The id with number `n`.
pub closed spec fn scope_id_of(n: u32) -> ScopeId {
    ScopeId(n)
}

/// The id built from a number has that number.
pub proof fn lemma_scope_id_of(n: u32)
    ensures
        scope_id_of(n).spec_get() == n,
{
}

/// The kind of a scope.
#[derive(Debug, Clone, Copy, PartialEq, Eq, Hash, Structural)]
pub enum ScopeKind {
    /// Module-level scope
    Module,
    /// Function body scope
    Function,
    /// Block scope
    Block,
    /// Loop body scope
    Loop,
    /// Catch clause scope
    Catch,
    /// Class body scope
    Class,
}

/// Textual form of a scope kind.
pub open spec fn scope_kind_text(k: ScopeKind) -> Seq<char> {
    match k {
        ScopeKind::Module => "module"@,
        ScopeKind::Function => "function"@,
        ScopeKind::Block => "block"@,
        ScopeKind::Loop => "loop"@,
        ScopeKind::Catch => "catch"@,
        ScopeKind::Class => "class"@,
    }
}

impl ScopeKind {
    /// Textual form of the kind.
    pub fn as_str(&self) -> (r: &'static str)
        ensures
            r@ == scope_kind_text(*self),
    {
        match self {
            ScopeKind::Module => "module",
            ScopeKind::Function => "function",
            ScopeKind::Block => "block",
            ScopeKind::Loop => "loop",
            ScopeKind::Catch => "catch",
            ScopeKind::Class => "class",
        }
    }
}

/// The symbols declared in one scope, by name.
pub type ScopeSymbols = FxHashMap<String, SymbolId>;

/// What a scope's symbol map holds: names to symbol ids.
pub uninterp spec fn scope_symbols(m: ScopeSymbols) -> Map<Seq<char>, SymbolId>;

/// `Some` of the value at `k`, or `None` when `k` is absent.
pub open spec fn lookup_opt<K, V>(m: Map<K, V>, k: K) -> Option<V> {
    if m.dom().contains(k) {
        Some(m[k])
    } else {
        None
    }
}

/// An empty symbol map: `FxHashMap::default`.
#[verifier::external_body]
fn scope_symbols_new() -> (r: ScopeSymbols)
    ensures
        scope_symbols(r).dom() == Set::<Seq<char>>::empty(),
{
    FxHashMap::default()
}

/// `HashMap::insert`: maps `name` to `id` and returns the id it held before.
#[verifier::external_body]
fn scope_symbols_insert(m: &mut ScopeSymbols, name: String, id: SymbolId) -> (r: Option<SymbolId>)
    ensures
        scope_symbols(*final(m)) == scope_symbols(*old(m)).insert(name@, id),
        r == lookup_opt(scope_symbols(*old(m)), name@),
{
    m.insert(name, id)
}

/// `HashMap::get`, copied: the id that `name` maps to.
#[verifier::external_body]
fn scope_symbols_get(m: &ScopeSymbols, name: &str) -> (r: Option<SymbolId>)
    ensures
        r == lookup_opt(scope_symbols(*m), name@),
{
    m.get(name).copied()
}

/// `HashMap::contains_key`: whether `name` is mapped.
#[verifier::external_body]
fn scope_symbols_contains(m: &ScopeSymbols, name: &str) -> (r: bool)
    ensures
        r == scope_symbols(*m).dom().contains(name@),
{
    m.contains_key(name)
}

/// A lexical scope and the symbols it declares.
#[derive(Debug, Clone)]
pub struct Scope {
    id: ScopeId,
    kind: ScopeKind,
    parent: Option<ScopeId>,
    span: Span,
    symbols: ScopeSymbols,
}

impl Scope {
    /// Id of the scope.
    pub closed spec fn spec_id(self) -> ScopeId {
        self.id
    }

    /// Kind of the scope.
    pub closed spec fn spec_kind(self) -> ScopeKind {
        self.kind
    }

    /// Parent of the scope; `None` for a root.
    pub closed spec fn spec_parent(self) -> Option<ScopeId> {
        self.parent
    }

    /// Source span of the scope.
    pub closed spec fn spec_span(self) -> Span {
        self.span
    }

    /// Symbols declared in the scope, by name.
    pub closed spec fn spec_symbols(self) -> Map<Seq<char>, SymbolId> {
        scope_symbols(self.symbols)
    }

    /// Symbol map of the scope.
    pub closed spec fn spec_symbol_map(self) -> ScopeSymbols {
        self.symbols
    }

    /// A new scope that declares nothing.
    pub fn new(id: ScopeId, kind: ScopeKind, parent: Option<ScopeId>, span: Span) -> (r: Scope)
        ensures
            r.spec_id() == id,
            r.spec_kind() == kind,
            r.spec_parent() == parent,
            r.spec_span() == span,
            r.spec_symbols().dom() == Set::<Seq<char>>::empty(),
    {
        Scope { id, kind, parent, span, symbols: scope_symbols_new() }
    }

    /// Id of the scope.
    pub fn id(&self) -> (r: ScopeId)
        ensures
            r == self.spec_id(),
    {
        self.id
    }

    /// Kind of the scope.
    pub fn kind(&self) -> (r: ScopeKind)
        ensures
            r == self.spec_kind(),
    {
        self.kind
    }

    /// Parent of the scope.
    pub fn parent(&self) -> (r: Option<ScopeId>)
        ensures
            r == self.spec_parent(),
    {
        self.parent
    }

    /// Source span of the scope.
    pub fn span(&self) -> (r: Span)
        ensures
            r == self.spec_span(),
    {
        self.span
    }

    /// The symbol map of the scope.
    pub fn symbols(&self) -> (r: &ScopeSymbols)
        ensures
            *r == self.spec_symbol_map(),
    {
        &self.symbols
    }

    /// Mutable access to the symbol map of the scope; nothing else can change.
    pub fn symbols_mut(&mut self) -> (r: &mut ScopeSymbols)
        ensures
            *r == old(self).spec_symbol_map(),
            final(self).spec_symbol_map() == *final(r),
            final(self).spec_id() == old(self).spec_id(),
            final(self).spec_kind() == old(self).spec_kind(),
            final(self).spec_parent() == old(self).spec_parent(),
            final(self).spec_span() == old(self).spec_span(),
    {
        &mut self.symbols
    }

    /// Declares `name` as `symbol_id` here and returns the id it replaced, if any.
    pub fn add_symbol(&mut self, name: String, symbol_id: SymbolId) -> (r: Option<SymbolId>)
        ensures
            final(self).spec_symbols() == old(self).spec_symbols().insert(name@, symbol_id),
            r == lookup_opt(old(self).spec_symbols(), name@),
            final(self).spec_id() == old(self).spec_id(),
            final(self).spec_kind() == old(self).spec_kind(),
            final(self).spec_parent() == old(self).spec_parent(),
            final(self).spec_span() == old(self).spec_span(),
    {
        scope_symbols_insert(&mut self.symbols, name, symbol_id)
    }

    /// The symbol that `name` denotes in this scope alone.
    pub fn get_symbol(&self, name: &str) -> (r: Option<SymbolId>)
        ensures
            r == lookup_opt(self.spec_symbols(), name@),
    {
        scope_symbols_get(&self.symbols, name)
    }

    /// Whether this scope declares `name`.
    pub fn has_symbol(&self, name: &str) -> (r: bool)
        ensures
            r == self.spec_symbols().dom().contains(name@),
    {
        scope_symbols_contains(&self.symbols, name)
    }
}

/// All scopes of a program, with the root and the current scope.
#[derive(Debug, Clone)]
pub struct ScopeTable {
    scopes: Vec<Scope>,
    root: ScopeId,
    current: ScopeId,
}

/// The scopes of a table are well formed when scope `i` has id `i`, the root (scope 0)
/// alone has no parent, and every other scope's parent is an earlier scope.
pub open spec fn scopes_well_formed(scopes: Seq<Scope>) -> bool {
    &&& scopes.len() > 0
    &&& scopes.len() <= u32::MAX
    &&& forall|i: int| 0 <= i < scopes.len() ==> (#[trigger] scopes[i]).spec_id().spec_get() == i
    &&& scopes[0].spec_parent() is None
    &&& forall|i: int|
        0 < i < scopes.len() ==> ((#[trigger] scopes[i]).spec_parent() matches Some(p)
            && p.spec_get() < i)
}

/// The innermost scope on the chain from `s` to the root whose own symbols hold
/// `name`, with the symbol found there.
pub open spec fn chain_lookup(scopes: Seq<Scope>, s: ScopeId, name: Seq<char>) -> Option<
    (SymbolId, ScopeId),
>
    decreases s.spec_get(),
{
    if s.spec_get() >= scopes.len() {
        None
    } else if scopes[s.spec_get() as int].spec_symbols().dom().contains(name) {
        Some((scopes[s.spec_get() as int].spec_symbols()[name], s))
    } else {
        match scopes[s.spec_get() as int].spec_parent() {
            Some(p) => if p.spec_get() < s.spec_get() {
                chain_lookup(scopes, p, name)
            } else {
                None
            },
            None => None,
        }
    }
}

/// Whether `a` is `s` or one of its ancestors.
pub open spec fn is_ancestor_or_self(scopes: Seq<Scope>, a: ScopeId, s: ScopeId) -> bool
    decreases s.spec_get(),
{
    if a == s {
        true
    } else if s.spec_get() >= scopes.len() {
        false
    } else {
        match scopes[s.spec_get() as int].spec_parent() {
            Some(p) => if p.spec_get() < s.spec_get() {
                is_ancestor_or_self(scopes, a, p)
            } else {
                false
            },
            None => false,
        }
    }
}

impl ScopeTable {
    /// The scopes, scope `i` at index `i`.
    pub closed spec fn spec_scopes(self) -> Seq<Scope> {
        self.scopes@
    }

    /// The root scope.
    pub closed spec fn spec_root(self) -> ScopeId {
        self.root
    }

    /// The current scope.
    pub closed spec fn spec_current(self) -> ScopeId {
        self.current
    }

    /// The table invariant: well-formed scopes, the root is scope 0, and the current
    /// scope exists.
    pub open spec fn wf(self) -> bool {
        &&& scopes_well_formed(self.spec_scopes())
        &&& self.spec_root().spec_get() == 0
        &&& self.spec_current().spec_get() < self.spec_scopes().len()
    }

    /// Whether `id` names a scope of the table.
    pub open spec fn has_scope(self, id: ScopeId) -> bool {
        id.spec_get() < self.spec_scopes().len()
    }

    /// The scope with id `id`.
    pub open spec fn scope_at(self, id: ScopeId) -> Scope {
        self.spec_scopes()[id.spec_get() as int]
    }

    /// A table holding only the root module scope, which is current.
    pub fn new(root_span: Span) -> (r: ScopeTable)
        ensures
            r.wf(),
            r.spec_scopes().len() == 1,
            r.spec_root().spec_get() == 0,
            r.spec_current() == r.spec_root(),
            r.scope_at(r.spec_root()).spec_kind() == ScopeKind::Module,
            r.scope_at(r.spec_root()).spec_parent() is None,
            r.scope_at(r.spec_root()).spec_span() == root_span,
            r.scope_at(r.spec_root()).spec_symbols().dom() == Set::<Seq<char>>::empty(),
    {
        let root_id = ScopeId::new(0);
        let root_scope = Scope::new(root_id, ScopeKind::Module, None, root_span);
        let mut scopes = Vec::new();
        scopes.push(root_scope);
        ScopeTable { scopes, root: root_id, current: root_id }
    }

    /// The root scope id.
    pub fn root(&self) -> (r: ScopeId)
        ensures
            r == self.spec_root(),
    {
        self.root
    }

    /// The current scope id.
    pub fn current(&self) -> (r: ScopeId)
        ensures
            r == self.spec_current(),
    {
        self.current
    }

    /// The current scope.
    pub fn current_scope(&self) -> (r: &Scope)
        requires
            self.wf(),
        ensures
            *r == self.scope_at(self.spec_current()),
    {
        &self.scopes[self.current.get() as usize]
    }

    /// The scope with id `id`, if the table has it.
    pub fn get_scope(&self, id: ScopeId) -> (r: Option<&Scope>)
        ensures
            self.has_scope(id) ==> r == Some(&self.scope_at(id)),
            !self.has_scope(id) ==> r is None,
    {
        let i = id.get() as usize;
        if i < self.scopes.len() {
            Some(&self.scopes[i])
        } else {
            None
        }
    }

    /// Mutable access to the current scope. The table stays well formed when the id and
    /// parent of the scope are kept.
    pub fn current_scope_mut(&mut self) -> (r: &mut Scope)
        requires
            old(self).wf(),
        ensures
            *r == old(self).scope_at(old(self).spec_current()),
            final(self).spec_scopes() == old(self).spec_scopes().update(
                old(self).spec_current().spec_get() as int,
                *final(r),
            ),
            final(self).spec_root() == old(self).spec_root(),
            final(self).spec_current() == old(self).spec_current(),
            final(r).spec_id() == r.spec_id() && final(r).spec_parent() == r.spec_parent()
                ==> final(self).wf(),
    {
        let i = self.current.get() as usize;
        &mut self.scopes[i]
    }

    /// Mutable access to the scope with id `id`, if the table has it. The table stays
    /// well formed when the id and parent of the scope are kept.
    pub fn get_scope_mut(&mut self, id: ScopeId) -> (r: Option<&mut Scope>)
        ensures
            old(self).has_scope(id) ==> (r matches Some(s) && *s == old(self).scope_at(id)
                && final(self).spec_scopes() == old(self).spec_scopes().update(id.spec_get() as int, *final(s))
                && (old(self).wf() && final(s).spec_id() == s.spec_id()
                && final(s).spec_parent() == s.spec_parent() ==> final(self).wf())),
            !old(self).has_scope(id) ==> r is None,
            final(self).spec_root() == old(self).spec_root(),
            final(self).spec_current() == old(self).spec_current(),
    {
        let i = id.get() as usize;
        if i < self.scopes.len() {
            Some(&mut self.scopes[i])
        } else {
            None
        }
    }

    /// Creates a scope of `kind` under the current scope and makes it current.
    pub fn push_scope(&mut self, kind: ScopeKind, span: Span) -> (r: ScopeId)
        requires
            old(self).wf(),
            old(self).spec_scopes().len() < u32::MAX,
        ensures
            final(self).wf(),
            r.spec_get() == old(self).spec_scopes().len(),
            final(self).spec_scopes() == old(self).spec_scopes().push(final(self).scope_at(r)),
            final(self).scope_at(r).spec_id() == r,
            final(self).scope_at(r).spec_kind() == kind,
            final(self).scope_at(r).spec_parent() == Some(old(self).spec_current()),
            final(self).scope_at(r).spec_span() == span,
            final(self).scope_at(r).spec_symbols().dom() == Set::<Seq<char>>::empty(),
            final(self).spec_current() == r,
            final(self).spec_root() == old(self).spec_root(),
    {
        let new_id = ScopeId::new(self.scopes.len() as u32);
        let new_scope = Scope::new(new_id, kind, Some(self.current), span);
        self.scopes.push(new_scope);
        self.current = new_id;
        new_id
    }

    /// Leaves the current scope for its parent and returns the id of the scope left.
    /// The root cannot be left.
    pub fn pop_scope(&mut self) -> (r: ScopeId)
        requires
            old(self).wf(),
            old(self).spec_current() != old(self).spec_root(),
        ensures
            final(self).wf(),
            r == old(self).spec_current(),
            Some(final(self).spec_current()) == old(self).scope_at(r).spec_parent(),
            final(self).spec_scopes() == old(self).spec_scopes(),
            final(self).spec_root() == old(self).spec_root(),
    {
        let popped = self.current;
        let i = popped.get() as usize;
        proof {
            ScopeId::lemma_eq(popped, self.root);
        }
        let parent = match self.scopes[i].parent() {
            Some(p) => p,
            None => {
                assert(false);
                popped
            },
        };
        self.current = parent;
        popped
    }

    /// Creates a scope of `kind` under `parent`, which must be a scope of the table;
    /// the current scope stays.
    pub fn create_scope(&mut self, kind: ScopeKind, parent: ScopeId, span: Span) -> (r: ScopeId)
        requires
            old(self).wf(),
            old(self).has_scope(parent),
            old(self).spec_scopes().len() < u32::MAX,
        ensures
            final(self).wf(),
            r.spec_get() == old(self).spec_scopes().len(),
            final(self).spec_scopes() == old(self).spec_scopes().push(final(self).scope_at(r)),
            final(self).scope_at(r).spec_id() == r,
            final(self).scope_at(r).spec_kind() == kind,
            final(self).scope_at(r).spec_parent() == Some(parent),
            final(self).scope_at(r).spec_span() == span,
            final(self).scope_at(r).spec_symbols().dom() == Set::<Seq<char>>::empty(),
            final(self).spec_current() == old(self).spec_current(),
            final(self).spec_root() == old(self).spec_root(),
    {
        let new_id = ScopeId::new(self.scopes.len() as u32);
        let new_scope = Scope::new(new_id, kind, Some(parent), span);
        self.scopes.push(new_scope);
        new_id
    }

    /// Resolves `name` from the current scope outward: the symbol and the scope of the
    /// innermost scope whose own symbols declare it.
    pub fn lookup_symbol(&self, name: &str) -> (r: Option<(SymbolId, ScopeId)>)
        requires
            self.wf(),
        ensures
            r == chain_lookup(self.spec_scopes(), self.spec_current(), name@),
    {
        self.lookup_symbol_in(self.current, name)
    }

    /// Resolves `name` from `start_scope` outward, as `lookup_symbol` does.
    pub fn lookup_symbol_in(&self, start_scope: ScopeId, name: &str) -> (r: Option<
        (SymbolId, ScopeId),
    >)
        requires
            self.wf(),
        ensures
            r == chain_lookup(self.spec_scopes(), start_scope, name@),
    {
        let mut current_id = start_scope;
        loop
            invariant
                self.wf(),
                chain_lookup(self.spec_scopes(), current_id, name@) == chain_lookup(
                    self.spec_scopes(),
                    start_scope,
                    name@,
                ),
            decreases current_id.spec_get(),
        {
            let i = current_id.get() as usize;
            if i >= self.scopes.len() {
                return None;
            }
            let scope = &self.scopes[i];
            if let Some(symbol_id) = scope.get_symbol(name) {
                return Some((symbol_id, current_id));
            }
            match scope.parent() {
                Some(parent_id) => {
                    current_id = parent_id;
                },
                None => return None,
            }
        }
    }

    /// The scopes, scope `i` at index `i`.
    pub fn scopes(&self) -> (r: &[Scope])
        ensures
            r@ == self.spec_scopes(),
    {
        self.scopes.as_slice()
    }

    /// Number of scopes.
    pub fn scope_count(&self) -> (r: usize)
        ensures
            r == self.spec_scopes().len(),
    {
        self.scopes.len()
    }
}

/// Entering a scope and leaving it again restores the current scope: where `pushed`
/// is what `push_scope` leaves (current scope `r`, whose parent is the scope that
/// was current in `before`) and `popped` what `pop_scope` then leaves, the current
/// scope of `popped` is that of `before`.
pub proof fn lemma_push_then_pop(before: ScopeTable, pushed: ScopeTable, r: ScopeId, popped: ScopeTable)
    requires
        pushed.spec_current() == r,
        pushed.scope_at(r).spec_parent() == Some(before.spec_current()),
        Some(popped.spec_current()) == pushed.scope_at(pushed.spec_current()).spec_parent(),
    ensures
        popped.spec_current() == before.spec_current(),
{
}

} // verus!
