//! The semantic analyzer: runs the scope pass and the type pass over a tree and
//! collects what they find in a module.

use vstd::prelude::*;
use vstd::string::StringExecFns;
use vstd::std_specs::convert::FromSpecImpl;
use bumpalo::Bump;
use crate::parser::ast::node::AstNode;
use crate::parser::ast::span::Span;
use crate::semantic::ir::module::SemanticModule;
use crate::semantic::scope::analyzer::{declared_at, declared_by, opened, scopes_made, symbols_made, variable_at, ScopeAnalyzer};
use crate::semantic::scope::scope::{ScopeId, ScopeKind, ScopeTable};
use crate::semantic::symbol::table::{lexical_symbol, SymbolTable};
use crate::semantic::types::resolver::{scope_numbered, statement_typed_from};
use crate::semantic::types::interner::{type_at, valid_id, TypeInterner};
use crate::semantic::types::representation::type_view;
use crate::semantic::types::resolver::{declaration_typed_in, declares_any, function_typed_in, unrepeated, symbol_types_stored, ResolutionError, TypeResolver};
use crate::semantic::symbol::table::latest_symbol;
use crate::parser::ast::types::NodeKind;

verus! {

/// Error that can occur during semantic analysis.
#[derive(Debug)]
pub enum SemanticError {
    /// Type resolution error
    TypeError(ResolutionError),
}

impl From<ResolutionError> for SemanticError {
    fn from(e: ResolutionError) -> (r: Self) {
        SemanticError::TypeError(e)
    }
}

impl FromSpecImpl<ResolutionError> for SemanticError {
    open spec fn obeys_from_spec() -> bool {
        true
    }

    open spec fn from_spec(e: ResolutionError) -> Self {
        SemanticError::TypeError(e)
    }
}

/// What analysis records of a variable statement `node` in the tables `symbols` and
/// `scopes` and the stored types `types`, with the statements `later` after it in
/// the same block: each declaration whose name no later declaration of the
/// statement, nothing within its children and nothing within `later` declares is
/// found by lexical lookup from `scope`, typed as `declaration_typed_in` says.
pub open spec fn statement_found<'a>(
    symbols: SymbolTable,
    scopes: ScopeTable,
    scope: ScopeId,
    types: Seq<crate::semantic::types::representation::Type>,
    node: &'a AstNode<'a>,
    later: Seq<&'a AstNode<'a>>,
) -> bool {
    node.spec_kind() matches NodeKind::VariableStatement { declarations } ==> (types.len() < u32::MAX ==> forall|i: int|
        #![trigger unrepeated(declarations@, i, declarations@.len() as int)]
        0 <= i < declarations@.len() && unrepeated(declarations@, i, declarations@.len() as int) && !declares_any(
            node.spec_children(),
            declarations@[i].name@,
        ) && !declares_any(later, declarations@[i].name@) ==> (lexical_symbol(
            symbols.spec_symbols(),
            scopes.spec_scopes(),
            scope,
            declarations@[i].name@,
        ) matches Some(id) && declaration_typed_in(symbols, types, id, declarations@[i])))
}

/// Runs the analysis passes over trees allocated in one arena, keeping the types
/// they find from one analysis to the next.
pub struct SemanticAnalyzer<'a> {
    /// Bump allocator for AST nodes
    _arena: &'a Bump,
    /// Type interner for type management
    type_interner: TypeInterner,
}

impl<'a> SemanticAnalyzer<'a> {
    /// The types stored so far.
    pub closed spec fn spec_types(self) -> Seq<crate::semantic::types::representation::Type> {
        self.type_interner.spec_types()
    }

    /// An analyzer for trees in `arena`, with no types stored yet.
    pub fn new(arena: &'a Bump) -> (r: Self)
        ensures
            r.spec_types().len() == 0,
    {
        SemanticAnalyzer { _arena: arena, type_interner: TypeInterner::new() }
    }

    /// Analyzes `ast`: the scope pass builds the scope tree and declares the symbols
    /// (the root scope spans the tree), then the type pass records the types of
    /// declared variables and functions. The module, named `main`, holds both tables
    /// and the stored types; it has no functions yet. Where `ast` is itself a function
    /// declaration or a variable statement, its names are found in the root scope with
    /// the types `function_typed_in` and `declaration_typed_in` describe (a name
    /// declared again further in is left out). Where `ast` is a block, the first scope
    /// below the root is its block scope, what each statement directly in it declares
    /// is found from there (see `declared_by`), and the variables of its variable
    /// statements are typed as `statement_found` says.
    pub fn analyze(&mut self, ast: &'a AstNode<'a>) -> (r: Result<SemanticModule, SemanticError>)
        requires
            1 + scopes_made(ast) < u32::MAX,
            symbols_made(ast) < u32::MAX,
        ensures
            r matches Ok(m) && {
                &&& m.name@ == "main"@
                &&& m.functions@.len() == 0
                &&& m.scopes.wf()
                &&& m.scopes.spec_scopes().len() == 1 + scopes_made(ast)
                &&& m.symbols.wf()
                &&& m.symbols.spec_symbols().len() <= symbols_made(ast)
                &&& m.types.spec_types().len() == final(self).spec_types().len()
                &&& forall|i: int| 0 <= i < m.types.spec_types().len() ==> type_view(#[trigger] m.types.spec_types()[i])
                    == type_view(final(self).spec_types()[i])
                &&& symbol_types_stored(m.symbols.spec_symbols(), m.types.spec_types())
                &&& ast.spec_kind() matches NodeKind::FunctionDeclaration { name, params, return_type, .. } ==> (
                m.types.spec_types().len() < u32::MAX && !declares_any(ast.spec_children(), name@) ==> (latest_symbol(
                    m.symbols.spec_symbols(),
                    m.scopes.spec_root(),
                    name@,
                ) matches Some(id) && function_typed_in(m.symbols, m.types.spec_types(), id, params@, return_type)))
                &&& ast.spec_kind() matches NodeKind::VariableStatement { declarations } ==> (m.types.spec_types().len()
                    < u32::MAX ==> forall|i: int|
                    #![trigger unrepeated(declarations@, i, declarations@.len() as int)]
                    0 <= i < declarations@.len() && unrepeated(declarations@, i, declarations@.len() as int)
                        && !declares_any(ast.spec_children(), declarations@[i].name@) ==> (latest_symbol(
                        m.symbols.spec_symbols(),
                        m.scopes.spec_root(),
                        declarations@[i].name@,
                    ) matches Some(id) && declaration_typed_in(m.symbols, m.types.spec_types(), id, declarations@[i])))
                &&& ast.spec_kind() is Block ==> {
                    &&& opened(m.scopes.spec_scopes(), 1, ScopeKind::Block, m.scopes.spec_root())
                    &&& forall|k: int|
                        0 <= k < ast.spec_children().len() ==> declared_by(
                            m.symbols.spec_symbols(),
                            m.scopes.spec_scopes(),
                            m.scopes.spec_scopes()[1].spec_id(),
                            #[trigger] ast.spec_children()[k],
                        )
                    &&& forall|k: int|
                        0 <= k < ast.spec_children().len() ==> statement_found(
                            m.symbols,
                            m.scopes,
                            m.scopes.spec_scopes()[1].spec_id(),
                            m.types.spec_types(),
                            #[trigger] ast.spec_children()[k],
                            ast.spec_children().subrange(k + 1, ast.spec_children().len() as int),
                        )
                }
            },
    {
        let root_span = Self::get_span(ast);
        let mut module = SemanticModule::new(String::from_str("main"));
        let mut scope_analyzer = ScopeAnalyzer::new(self._arena, &mut self.type_interner, root_span);
        let ghost s0 = scope_analyzer;
        scope_analyzer.visit_node(ast);
        let ghost s1 = scope_analyzer;
        let (scopes, symbols) = scope_analyzer.into_tables();
        proof {
            reveal_strlit("main");
            assert(s1.adds_untyped(s0));
            assert forall|i: int| 0 <= i < symbols.spec_symbols().len() implies
                ((#[trigger] symbols.spec_symbols()[i]).spec_type_id() matches Some(t) ==> valid_id(self.spec_types(), t)) by {
                assert(s1.spec_symbol_table().spec_symbols()[i].spec_type_id() is None);
            }
        }
        module.scopes = scopes;
        let root = module.scopes.root();
        let mut interner = TypeInterner::new();
        std::mem::swap(&mut interner, &mut self.type_interner);
        let mut type_resolver = TypeResolver::new(symbols, &module.scopes, interner, root);
        let ghost r0 = type_resolver;
        type_resolver.visit_node(ast);
        let ghost r1 = type_resolver;
        let (symbols, interner) = type_resolver.into_parts();
        self.type_interner = interner;
        module.symbols = symbols;
        proof {
            assert(r1.retypes(r0));
            if ast.spec_kind() is Block {
                assert(s1.records(s0, ast));
                let inner = scopes.spec_scopes()[1].spec_id();
                assert forall|sc: ScopeId, nm: Seq<char>| declared_at(s1.spec_symbol_table().spec_symbols(), nm, sc) implies declared_at(
                    r1.spec_symbols().spec_symbols(),
                    nm,
                    sc,
                ) by {
                    crate::semantic::types::resolver::lemma_latest_same(
                        r1.spec_symbols().spec_symbols(),
                        r0.spec_symbols().spec_symbols(),
                        sc,
                        nm,
                    );
                }
                assert forall|k: int| 0 <= k < ast.spec_children().len() implies declared_by(
                    r1.spec_symbols().spec_symbols(),
                    scopes.spec_scopes(),
                    inner,
                    #[trigger] ast.spec_children()[k],
                ) by {
                    let c = ast.spec_children()[k];
                    assert(declared_by(s1.spec_symbol_table().spec_symbols(), scopes.spec_scopes(), inner, c));
                    if let NodeKind::VariableStatement { declarations } = c.spec_kind() {
                        assert forall|i: int| 0 <= i < declarations@.len() implies variable_at(
                            r1.spec_symbols().spec_symbols(),
                            #[trigger] declarations@[i],
                            scopes.spec_scopes(),
                            inner,
                        ) by {
                            assert(variable_at(s1.spec_symbol_table().spec_symbols(), declarations@[i], scopes.spec_scopes(), inner));
                        }
                    }
                }
            }
            if let NodeKind::FunctionDeclaration { name, params, return_type, .. } = ast.spec_kind() {
                assert(s1.records(s0, ast));
                crate::semantic::types::resolver::lemma_latest_same(
                    r1.spec_symbols().spec_symbols(),
                    r0.spec_symbols().spec_symbols(),
                    root,
                    name@,
                );
            }
            if let NodeKind::VariableStatement { declarations } = ast.spec_kind() {
                assert(s1.records(s0, ast));
                assert(crate::semantic::scope::analyzer::hoist_target(s0.spec_scope_table().spec_scopes(), root) == Some(root));
                assert forall|i: int| 0 <= i < declarations@.len() implies #[trigger] latest_symbol(
                    r1.spec_symbols().spec_symbols(),
                    root,
                    declarations@[i].name@,
                ) is Some && latest_symbol(r1.spec_symbols().spec_symbols(), root, declarations@[i].name@) == r0.target(declarations@[i].name@) by {
                    assert(crate::semantic::scope::analyzer::variable_at(
                        s1.spec_symbol_table().spec_symbols(),
                        declarations@[i],
                        s0.spec_scope_table().spec_scopes(),
                        root,
                    ));
                    crate::semantic::types::resolver::lemma_latest_same(
                        r1.spec_symbols().spec_symbols(),
                        r0.spec_symbols().spec_symbols(),
                        root,
                        declarations@[i].name@,
                    );
                }
            }
        }
        let _ = self.build_cfgs_for_functions(&mut module, ast);
        module.types = self.type_interner.copy();
        proof {
            if ast.spec_kind() is Block {
                let inner = module.scopes.spec_scopes()[1].spec_id();
                ScopeId::lemma_eq(inner, scope_numbered(1));
                assert(inner == scope_numbered(1));
                let ch = ast.spec_children();
                assert forall|k: int| 0 <= k < ch.len() implies statement_found(
                    module.symbols,
                    module.scopes,
                    inner,
                    module.types.spec_types(),
                    #[trigger] ch[k],
                    ch.subrange(k + 1, ch.len() as int),
                ) by {
                    let c = ch[k];
                    assert(statement_typed_from(r0.spec_symbols(), r0.spec_scopes(), scope_numbered(1), r1, c, ch.subrange(k + 1, ch.len() as int)));
                    assert(declared_by(s1.spec_symbol_table().spec_symbols(), module.scopes.spec_scopes(), inner, c));
                    if let NodeKind::VariableStatement { declarations } = c.spec_kind() {
                        if module.types.spec_types().len() < u32::MAX {
                            assert forall|i: int|
                                #![trigger unrepeated(declarations@, i, declarations@.len() as int)]
                                0 <= i < declarations@.len() && unrepeated(declarations@, i, declarations@.len() as int)
                                    && !declares_any(c.spec_children(), declarations@[i].name@) && !declares_any(
                                    ch.subrange(k + 1, ch.len() as int),
                                    declarations@[i].name@,
                                ) implies (lexical_symbol(
                                    module.symbols.spec_symbols(),
                                    module.scopes.spec_scopes(),
                                    inner,
                                    declarations@[i].name@,
                                ) matches Some(id) && declaration_typed_in(module.symbols, module.types.spec_types(), id, declarations@[i])) by {
                                let nm = declarations@[i].name@;
                                let s1s = s1.spec_symbol_table().spec_symbols();
                                assert(variable_at(s1s, declarations@[i], module.scopes.spec_scopes(), inner));
                                if declarations@[i].kind == crate::parser::ast::types::VariableKind::Var {
                                    crate::semantic::scope::analyzer::lemma_hoisted_found(s1s, module.scopes.spec_scopes(), inner, nm);
                                }
                                crate::semantic::types::resolver::lemma_lexical_same(
                                    r1.spec_symbols().spec_symbols(),
                                    r0.spec_symbols().spec_symbols(),
                                    module.scopes.spec_scopes(),
                                    inner,
                                    nm,
                                );
                                let id = lexical_symbol(module.symbols.spec_symbols(), module.scopes.spec_scopes(), inner, nm)->0;
                                if let Some(t) = module.symbols.symbol_at(id).spec_type_id() {
                                    if t.spec_id() < module.types.spec_types().len() {
                                        assert(type_view(module.types.spec_types()[t.spec_id() as int])
                                            == type_view(self.spec_types()[t.spec_id() as int]));
                                    }
                                }
                            }
                        }
                    }
                }
            }
            assert forall|i: int| 0 <= i < module.symbols.spec_symbols().len() implies
                ((#[trigger] module.symbols.spec_symbols()[i]).spec_type_id() matches Some(t) ==> valid_id(module.types.spec_types(), t)) by {
            }
            if let NodeKind::FunctionDeclaration { name, params, return_type, .. } = ast.spec_kind() {
                if module.types.spec_types().len() < u32::MAX && !declares_any(ast.spec_children(), name@) {
                    let id = latest_symbol(module.symbols.spec_symbols(), module.scopes.spec_root(), name@)->0;
                    let t = module.symbols.symbol_at(id).spec_type_id()->0;
                    assert(type_view(module.types.spec_types()[t.spec_id() as int]) == type_view(self.spec_types()[t.spec_id() as int]));
                }
            }
            if let NodeKind::VariableStatement { declarations } = ast.spec_kind() {
                if module.types.spec_types().len() < u32::MAX {
                    assert forall|i: int|
                        #![trigger unrepeated(declarations@, i, declarations@.len() as int)]
                        0 <= i < declarations@.len() && unrepeated(declarations@, i, declarations@.len() as int)
                            && !declares_any(ast.spec_children(), declarations@[i].name@) implies (latest_symbol(
                            module.symbols.spec_symbols(),
                            module.scopes.spec_root(),
                            declarations@[i].name@,
                        ) matches Some(id) && declaration_typed_in(module.symbols, module.types.spec_types(), id, declarations@[i])) by {
                        let nm = declarations@[i].name@;
                        assert(latest_symbol(r1.spec_symbols().spec_symbols(), root, nm) is Some);
                        let id = latest_symbol(module.symbols.spec_symbols(), module.scopes.spec_root(), nm)->0;
                        if let Some(t) = module.symbols.symbol_at(id).spec_type_id() {
                            if t.spec_id() < module.types.spec_types().len() {
                                assert(type_view(module.types.spec_types()[t.spec_id() as int])
                                    == type_view(self.spec_types()[t.spec_id() as int]));
                            }
                        }
                    }
                }
            }
        }
        Ok(module)
    }

    /// Builds control flow graphs for the functions of `module`; none are built yet,
    /// so the module is left as it is.
    fn build_cfgs_for_functions(&mut self, module: &mut SemanticModule, ast: &'a AstNode<'a>) -> (r: Result<(), SemanticError>)
        ensures
            r is Ok,
            *final(module) == *old(module),
            *final(self) == *old(self),
    {
        Ok(())
    }

    /// The span of `node`, or the empty span at 0 where it has none.
    fn get_span(node: &'a AstNode<'a>) -> (r: Span)
        ensures
            node.spec_span() matches Some(s) ==> r == s,
    {
        match node.span() {
            Some(s) => s,
            None => Span::new(0, 0),
        }
    }
}

} // verus!
