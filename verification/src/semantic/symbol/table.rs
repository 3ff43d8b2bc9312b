//! The symbol table: storage and lookup of the symbols of a program.

use vstd::prelude::*;
use rustc_hash::FxHashMap;
use crate::parser::ast::span::Span;
use crate::semantic::scope::ScopeId;
use crate::semantic::scope::scope::{lookup_opt, ScopeTable};
use crate::semantic::symbol::symbol::{Symbol, SymbolId, SymbolKind};
use crate::semantic::types::TypeId;

verus! {

/// Symbol ids by (declaring scope, name).
pub type SymbolsByName = FxHashMap<(ScopeId, String), SymbolId>;

/// What the by-name index holds: (scope, name) pairs to symbol ids.
pub uninterp spec fn symbols_by_name(m: SymbolsByName) -> Map<(ScopeId, Seq<char>), SymbolId>;

/// An empty index: `FxHashMap::default`.
#[verifier::external_body]
fn symbols_by_name_new() -> (r: SymbolsByName)
    ensures
        symbols_by_name(r).dom() == Set::<(ScopeId, Seq<char>)>::empty(),
{
    FxHashMap::default()
}

/// `HashMap::insert`: maps `(scope, name)` to `id`.
#[verifier::external_body]
fn symbols_by_name_insert(m: &mut SymbolsByName, scope: ScopeId, name: String, id: SymbolId)
    ensures
        symbols_by_name(*final(m)) == symbols_by_name(*old(m)).insert((scope, name@), id),
{
    m.insert((scope, name), id);
}

/// `HashMap::get`, copied, with the key `(scope, name.to_string())`.
#[verifier::external_body]
fn symbols_by_name_get(m: &SymbolsByName, scope: ScopeId, name: &str) -> (r: Option<SymbolId>)
    ensures
        r == lookup_opt(symbols_by_name(*m), (scope, name@)),
{
    m.get(&(scope, name.to_string())).copied()
}

/// The id of the last symbol in `symbols` declared in `scope` under `name`.
pub open spec fn latest_symbol(symbols: Seq<Symbol>, scope: ScopeId, name: Seq<char>) -> Option<
    SymbolId,
>
    decreases symbols.len(),
{
    if symbols.len() == 0 {
        None
    } else if symbols.last().spec_scope() == scope && symbols.last().spec_name() == name {
        Some(symbols.last().spec_id())
    } else {
        latest_symbol(symbols.drop_last(), scope, name)
    }
}

/// What `latest_symbol` answers is the id of one of the symbols.
proof fn lemma_latest_in(symbols: Seq<Symbol>, scope: ScopeId, name: Seq<char>)
    ensures
        latest_symbol(symbols, scope, name) matches Some(id) ==> exists|j: int|
            0 <= j < symbols.len() && (#[trigger] symbols[j]).spec_id() == id,
    decreases symbols.len(),
{
    if symbols.len() > 0 {
        if symbols.last().spec_scope() == scope && symbols.last().spec_name() == name {
            assert(symbols[symbols.len() - 1].spec_id() == symbols.last().spec_id());
        } else {
            lemma_latest_in(symbols.drop_last(), scope, name);
            if let Some(id) = latest_symbol(symbols, scope, name) {
                let j = choose|j: int| 0 <= j < symbols.drop_last().len() && (#[trigger] symbols.drop_last()[j]).spec_id() == id;
                assert(symbols[j] == symbols.drop_last()[j]);
            }
        }
    }
}

/// What `latest_symbol` answers is the id of one of the symbols, of that name.
proof fn lemma_latest_named(symbols: Seq<Symbol>, scope: ScopeId, name: Seq<char>)
    ensures
        latest_symbol(symbols, scope, name) matches Some(id) ==> exists|j: int|
            0 <= j < symbols.len() && (#[trigger] symbols[j]).spec_id() == id && symbols[j].spec_name() == name,
    decreases symbols.len(),
{
    if symbols.len() > 0 {
        if symbols.last().spec_scope() == scope && symbols.last().spec_name() == name {
            assert(symbols[symbols.len() - 1] == symbols.last());
        } else {
            lemma_latest_named(symbols.drop_last(), scope, name);
            if let Some(id) = latest_symbol(symbols, scope, name) {
                let j = choose|j: int|
                    0 <= j < symbols.drop_last().len() && (#[trigger] symbols.drop_last()[j]).spec_id() == id
                        && symbols.drop_last()[j].spec_name() == name;
                assert(symbols[j] == symbols.drop_last()[j]);
            }
        }
    }
}

/// What `latest_symbol` answers is the id of a symbol of that name in that scope.
proof fn lemma_latest_scoped(symbols: Seq<Symbol>, scope: ScopeId, name: Seq<char>)
    ensures
        latest_symbol(symbols, scope, name) matches Some(id) ==> exists|j: int|
            0 <= j < symbols.len() && (#[trigger] symbols[j]).spec_id() == id && symbols[j].spec_name() == name
                && symbols[j].spec_scope() == scope,
    decreases symbols.len(),
{
    if symbols.len() > 0 {
        if symbols.last().spec_scope() == scope && symbols.last().spec_name() == name {
            assert(symbols[symbols.len() - 1] == symbols.last());
        } else {
            lemma_latest_scoped(symbols.drop_last(), scope, name);
            if let Some(id) = latest_symbol(symbols, scope, name) {
                let j = choose|j: int|
                    0 <= j < symbols.drop_last().len() && (#[trigger] symbols.drop_last()[j]).spec_id() == id
                        && symbols.drop_last()[j].spec_name() == name && symbols.drop_last()[j].spec_scope() == scope;
                assert(symbols[j] == symbols.drop_last()[j]);
            }
        }
    }
}

/// `after` holds at least the symbols of `before`, each of them with the same id, name
/// and scope (its kind, span and type may have changed).
pub open spec fn keeps_symbols(after: Seq<Symbol>, before: Seq<Symbol>) -> bool {
    &&& after.len() >= before.len()
    &&& forall|j: int|
        0 <= j < before.len() ==> (#[trigger] after[j]).spec_id() == before[j].spec_id() && after[j].spec_name()
            == before[j].spec_name() && after[j].spec_scope() == before[j].spec_scope()
}

/// Some symbol of that name in that scope makes `latest_symbol` answer one.
proof fn lemma_latest_some(symbols: Seq<Symbol>, j: int, scope: ScopeId, name: Seq<char>)
    requires
        0 <= j < symbols.len(),
        symbols[j].spec_scope() == scope,
        symbols[j].spec_name() == name,
    ensures
        latest_symbol(symbols, scope, name) is Some,
    decreases symbols.len(),
{
    if j < symbols.len() - 1 {
        assert(symbols.drop_last()[j] == symbols[j]);
        lemma_latest_some(symbols.drop_last(), j, scope, name);
    }
}

/// A name declared in a scope stays declared there while the symbols are kept.
pub proof fn lemma_latest_kept(after: Seq<Symbol>, before: Seq<Symbol>, scope: ScopeId, name: Seq<char>)
    requires
        keeps_symbols(after, before),
        latest_symbol(before, scope, name) is Some,
    ensures
        latest_symbol(after, scope, name) is Some,
{
    lemma_latest_scoped(before, scope, name);
    let id = latest_symbol(before, scope, name)->0;
    let j = choose|j: int|
        0 <= j < before.len() && (#[trigger] before[j]).spec_id() == id && before[j].spec_name() == name
            && before[j].spec_scope() == scope;
    assert(after[j].spec_name() == name);
    lemma_latest_some(after, j, scope, name);
}

/// `lemma_latest_update`, for every replacement and every query.
proof fn lemma_latest_update_all(symbols: Seq<Symbol>, i: int)
    requires
        0 <= i < symbols.len(),
    ensures
        forall|x: Symbol, scope: ScopeId, name: Seq<char>|
            x.spec_id() == symbols[i].spec_id() && x.spec_name() == symbols[i].spec_name()
                && x.spec_scope() == symbols[i].spec_scope() ==> #[trigger] latest_symbol(
                symbols.update(i, x),
                scope,
                name,
            ) == latest_symbol(symbols, scope, name),
{
    assert forall|x: Symbol, scope: ScopeId, name: Seq<char>|
        x.spec_id() == symbols[i].spec_id() && x.spec_name() == symbols[i].spec_name()
            && x.spec_scope() == symbols[i].spec_scope() implies #[trigger] latest_symbol(
            symbols.update(i, x),
            scope,
            name,
        ) == latest_symbol(symbols, scope, name) by {
        lemma_latest_update(symbols, i, x, scope, name);
    }
}

/// Lexical resolution of `name` from scope `s`: the last symbol declared under `name`
/// in the nearest scope on the chain from `s` to the root that declares one.
pub open spec fn lexical_symbol(symbols: Seq<Symbol>, scopes: Seq<Scope>, s: ScopeId, name: Seq<
    char,
>) -> Option<SymbolId>
    decreases s.spec_get(),
{
    match latest_symbol(symbols, s, name) {
        Some(id) => Some(id),
        None => if s.spec_get() >= scopes.len() {
            None
        } else {
            match scopes[s.spec_get() as int].spec_parent() {
                Some(p) => if p.spec_get() < s.spec_get() {
                    lexical_symbol(symbols, scopes, p, name)
                } else {
                    None
                },
                None => None,
            }
        },
    }
}

use crate::semantic::scope::Scope;

/// Replacing a symbol by one with the same id, name and scope leaves every by-name
/// answer unchanged.
proof fn lemma_latest_update(symbols: Seq<Symbol>, i: int, x: Symbol, scope: ScopeId, name: Seq<
    char,
>)
    requires
        0 <= i < symbols.len(),
        x.spec_id() == symbols[i].spec_id(),
        x.spec_name() == symbols[i].spec_name(),
        x.spec_scope() == symbols[i].spec_scope(),
    ensures
        latest_symbol(symbols.update(i, x), scope, name) == latest_symbol(symbols, scope, name),
    decreases symbols.len(),
{
    let u = symbols.update(i, x);
    if i < symbols.len() - 1 {
        assert(u.drop_last() =~= symbols.drop_last().update(i, x));
        lemma_latest_update(symbols.drop_last(), i, x, scope, name);
    } else {
        assert(u.drop_last() =~= symbols.drop_last());
    }
}

/// All symbols of a program, with an index by (scope, name).
#[derive(Debug, Clone)]
pub struct SymbolTable {
    symbols: Vec<Symbol>,
    by_name: SymbolsByName,
    next_id: u32,
}

impl SymbolTable {
    /// The symbols, symbol `i` at index `i`.
    pub closed spec fn spec_symbols(self) -> Seq<Symbol> {
        self.symbols@
    }

    /// The table invariant: symbol `i` has id `i`, and the index maps each (scope,
    /// name) to the last symbol declared there.
    pub closed spec fn wf(self) -> bool {
        &&& self.next_id == self.symbols@.len()
        &&& forall|i: int|
            0 <= i < self.symbols@.len() ==> (#[trigger] self.symbols@[i]).spec_id().spec_get()
                == i
        &&& forall|k: (ScopeId, Seq<char>)|
            #![trigger symbols_by_name(self.by_name).dom().contains(k)]
            lookup_opt(symbols_by_name(self.by_name), k) == latest_symbol(self.symbols@, k.0, k.1)
    }

    /// The symbol with id `id`.
    pub open spec fn symbol_at(self, id: SymbolId) -> Symbol {
        self.spec_symbols()[id.spec_get() as int]
    }

    /// An empty table.
    pub fn new() -> (r: SymbolTable)
        ensures
            r.wf(),
            r.spec_symbols().len() == 0,
    {
        let r = SymbolTable { symbols: Vec::new(), by_name: symbols_by_name_new(), next_id: 0 };
        assert forall|k: (ScopeId, Seq<char>)|
            #![trigger symbols_by_name(r.by_name).dom().contains(k)]
            lookup_opt(symbols_by_name(r.by_name), k) == latest_symbol(r.symbols@, k.0, k.1) by {
            assert(!symbols_by_name(r.by_name).dom().contains(k));
        }
        r
    }

    /// Declares a symbol in `scope` under `name`, with the type `type_id` when given,
    /// and returns its id. Where a symbol of that name is already declared in `scope`,
    /// the new symbol replaces it and keeps its id; otherwise it is added under the
    /// next unused id.
    pub fn insert(
        &mut self,
        name: String,
        kind: SymbolKind,
        span: Span,
        scope: ScopeId,
        type_id: Option<TypeId>,
    ) -> (r: SymbolId)
        requires
            old(self).wf(),
            old(self).spec_symbols().len() < u32::MAX,
        ensures
            final(self).wf(),
            match latest_symbol(old(self).spec_symbols(), scope, name@) {
                Some(id) => r == id && id.spec_get() < old(self).spec_symbols().len()
                    && final(self).spec_symbols() == old(self).spec_symbols().update(
                    id.spec_get() as int,
                    final(self).symbol_at(r),
                ),
                None => r.spec_get() == old(self).spec_symbols().len() && final(self).spec_symbols()
                    == old(self).spec_symbols().push(final(self).symbol_at(r)),
            },
            final(self).symbol_at(r).spec_id() == r,
            final(self).symbol_at(r).spec_name() == name@,
            final(self).symbol_at(r).spec_kind() == kind,
            final(self).symbol_at(r).spec_span() == span,
            final(self).symbol_at(r).spec_scope() == scope,
            !final(self).symbol_at(r).spec_is_export(),
            final(self).symbol_at(r).spec_type_id() == type_id,
            latest_symbol(final(self).spec_symbols(), scope, name@) == Some(r),
            r.spec_get() < final(self).spec_symbols().len(),
            keeps_symbols(final(self).spec_symbols(), old(self).spec_symbols()),
            final(self).spec_symbols().len() <= old(self).spec_symbols().len() + 1,
            forall|j: int|
                0 <= j < old(self).spec_symbols().len() && j != r.spec_get() ==> #[trigger] final(self).spec_symbols()[j]
                    == old(self).spec_symbols()[j],
    {
        if let Some(old_id) = symbols_by_name_get(&self.by_name, scope, name.as_str()) {
            proof {
                assert(symbols_by_name(self.by_name).dom().contains((scope, name@)) ==> true);
                lemma_latest_in(self.symbols@, scope, name@);
                let j = choose|j: int| 0 <= j < self.symbols@.len() && (#[trigger] self.symbols@[j]).spec_id() == old_id;
                SymbolId::lemma_eq(self.symbols@[j].spec_id(), old_id);
                lemma_latest_named(self.symbols@, scope, name@);
                lemma_latest_scoped(self.symbols@, scope, name@);
            }
            let i = old_id.get() as usize;
            let mut symbol = Symbol::new(old_id, name, kind, span, scope);
            if let Some(ty) = type_id {
                symbol.set_type_id(ty);
            }
            proof {
                lemma_latest_update_all(self.symbols@, i as int);
            }
            self.symbols.set(i, symbol);
            return old_id;
        }
        proof {
            assert(symbols_by_name(self.by_name).dom().contains((scope, name@)) ==> true);
        }
        let id = SymbolId::new(self.next_id);
        self.next_id = self.next_id + 1;
        let mut symbol = Symbol::new(id, name.clone(), kind, span, scope);
        if let Some(ty) = type_id {
            symbol.set_type_id(ty);
        }
        let ghost old_symbols = self.symbols@;
        symbols_by_name_insert(&mut self.by_name, scope, name, id);
        self.symbols.push(symbol);
        proof {
            assert(self.symbols@.drop_last() =~= old_symbols);
            assert forall|k: (ScopeId, Seq<char>)|
                #![trigger symbols_by_name(self.by_name).dom().contains(k)]
                lookup_opt(symbols_by_name(self.by_name), k) == latest_symbol(
                    self.symbols@,
                    k.0,
                    k.1,
                ) by {
                assert(symbols_by_name(old(self).by_name).dom().contains(k) ==> true);
            }
        }
        id
    }

    /// Resolves `name` from `start_scope` outward through `scope_table`: the last
    /// symbol of that name declared in the nearest enclosing scope that has one.
    pub fn lookup_lexical(&self, name: &str, start_scope: ScopeId, scope_table: &ScopeTable) -> (r:
        Option<SymbolId>)
        requires
            self.wf(),
            scope_table.wf(),
        ensures
            r == lexical_symbol(self.spec_symbols(), scope_table.spec_scopes(), start_scope, name@),
    {
        let mut current_scope = start_scope;
        loop
            invariant
                self.wf(),
                scope_table.wf(),
                lexical_symbol(self.spec_symbols(), scope_table.spec_scopes(), current_scope, name@)
                    == lexical_symbol(
                    self.spec_symbols(),
                    scope_table.spec_scopes(),
                    start_scope,
                    name@,
                ),
            decreases current_scope.spec_get(),
        {
            if let Some(id) = self.lookup_in_scope(name, current_scope) {
                return Some(id);
            }
            match scope_table.get_scope(current_scope) {
                None => return None,
                Some(scope) => match scope.parent() {
                    Some(parent) => {
                        current_scope = parent;
                    },
                    None => return None,
                },
            }
        }
    }

    /// The last symbol declared under `name` in `scope` itself.
    pub fn lookup_in_scope(&self, name: &str, scope: ScopeId) -> (r: Option<SymbolId>)
        requires
            self.wf(),
        ensures
            r == latest_symbol(self.spec_symbols(), scope, name@),
    {
        let r = symbols_by_name_get(&self.by_name, scope, name);
        assert(symbols_by_name(self.by_name).dom().contains((scope, name@)) ==> true);
        r
    }

    /// The symbol with id `id`, if any.
    pub fn lookup(&self, id: SymbolId) -> (r: Option<&Symbol>)
        ensures
            id.spec_get() < self.spec_symbols().len() ==> r == Some(&self.symbol_at(id)),
            id.spec_get() >= self.spec_symbols().len() ==> r is None,
    {
        let i = id.get() as usize;
        if i < self.symbols.len() {
            Some(&self.symbols[i])
        } else {
            None
        }
    }

    /// Mutable access to the symbol with id `id`, if any.
    pub fn lookup_mut(&mut self, id: SymbolId) -> (r: Option<&mut Symbol>)
        ensures
            id.spec_get() < old(self).spec_symbols().len() ==> (r matches Some(s) && *s == old(
                self,
            ).symbol_at(id) && final(self).spec_symbols() == old(self).spec_symbols().update(
                id.spec_get() as int,
                *final(s),
            )),
            id.spec_get() < old(self).spec_symbols().len() ==> (r matches Some(s) && (old(self).wf()
                && final(s).spec_id() == old(self).symbol_at(id).spec_id()
                && final(s).spec_name() == old(self).symbol_at(id).spec_name()
                && final(s).spec_scope() == old(self).symbol_at(id).spec_scope()
                ==> final(self).wf())),
            id.spec_get() >= old(self).spec_symbols().len() ==> r is None,
    {
        let i = id.get() as usize;
        if i < self.symbols.len() {
            proof {
                lemma_latest_update_all(self.symbols@, i as int);
            }
            let r = &mut self.symbols[i];
            Some(r)
        } else {
            None
        }
    }

    /// The symbols, symbol `i` at index `i`.
    pub fn symbols(&self) -> (r: &[Symbol])
        ensures
            r@ == self.spec_symbols(),
    {
        self.symbols.as_slice()
    }

    /// In a well-formed table, symbol `i` has id `i`.
    pub proof fn lemma_ids(self)
        requires
            self.wf(),
        ensures
            forall|i: int| 0 <= i < self.spec_symbols().len() ==> (#[trigger] self.spec_symbols()[i]).spec_id().spec_get() == i,
    {
    }

    /// A lexical lookup in a well-formed table answers the id of a symbol of the table.
    pub proof fn lemma_lexical_valid(self, scopes: Seq<Scope>, s: ScopeId, name: Seq<char>)
        requires
            self.wf(),
        ensures
            lexical_symbol(self.spec_symbols(), scopes, s, name) matches Some(id) ==> id.spec_get()
                < self.spec_symbols().len(),
        decreases s.spec_get(),
    {
        lemma_latest_in(self.symbols@, s, name);
        if latest_symbol(self.symbols@, s, name) is None && s.spec_get() < scopes.len() {
            if let Some(p) = scopes[s.spec_get() as int].spec_parent() {
                if p.spec_get() < s.spec_get() {
                    self.lemma_lexical_valid(scopes, p, name);
                }
            }
        }
    }

    /// A lexical lookup in a well-formed table answers the id of a symbol of the
    /// name looked up.
    pub proof fn lemma_lexical_named(self, scopes: Seq<Scope>, s: ScopeId, name: Seq<char>)
        requires
            self.wf(),
        ensures
            lexical_symbol(self.spec_symbols(), scopes, s, name) matches Some(id) ==> id.spec_get()
                < self.spec_symbols().len() && self.symbol_at(id).spec_name() == name,
        decreases s.spec_get(),
    {
        lemma_latest_named(self.symbols@, s, name);
        if latest_symbol(self.symbols@, s, name) is None && s.spec_get() < scopes.len() {
            if let Some(p) = scopes[s.spec_get() as int].spec_parent() {
                if p.spec_get() < s.spec_get() {
                    self.lemma_lexical_named(scopes, p, name);
                }
            }
        }
        if let Some(id) = lexical_symbol(self.spec_symbols(), scopes, s, name) {
            if let Some(id2) = latest_symbol(self.symbols@, s, name) {
                let j = choose|j: int| 0 <= j < self.symbols@.len() && (#[trigger] self.symbols@[j]).spec_id() == id2
                    && self.symbols@[j].spec_name() == name;
                SymbolId::lemma_eq(self.symbols@[j].spec_id(), id);
            }
        }
    }

    /// Number of symbols.
    pub fn symbol_count(&self) -> (r: usize)
        ensures
            r == self.spec_symbols().len(),
    {
        self.symbols.len()
    }
}

/// Read after write, and shadowing: after a symbol is added, looking up its name in
/// its scope answers it (a later symbol of the same name in the same scope takes
/// the place of an earlier one), and every other lookup answers what it did before.
pub proof fn lemma_insert_then_lookup(symbols: Seq<Symbol>, x: Symbol, scope: ScopeId, name: Seq<char>)
    ensures
        latest_symbol(symbols.push(x), x.spec_scope(), x.spec_name()) == Some(x.spec_id()),
        !(scope == x.spec_scope() && name == x.spec_name()) ==> latest_symbol(symbols.push(x), scope, name)
            == latest_symbol(symbols, scope, name),
{
    assert(symbols.push(x).drop_last() =~= symbols);
}

impl Default for SymbolTable {
    /// An empty table.
    fn default() -> (r: Self)
        ensures
            r.wf(),
            r.spec_symbols().len() == 0,
    {
        SymbolTable::new()
    }
}

} // verus!
