//! The entry point of semantic analysis.

use vstd::prelude::*;
use bumpalo::Bump;
use crate::parser::ast::node::AstNode;
use crate::semantic::analyzer::{statement_found, SemanticAnalyzer, SemanticError};
use crate::semantic::ir::module::SemanticModule;
use crate::parser::ast::types::NodeKind;
use crate::semantic::scope::analyzer::{declared_by, opened, scopes_made, symbols_made};
use crate::semantic::scope::scope::ScopeKind;
use crate::semantic::symbol::table::latest_symbol;
use crate::semantic::types::resolver::{declaration_typed_in, declares_any, function_typed_in, symbol_types_stored, unrepeated};

verus! {

/// Analyzes `ast`, whose nodes live in `arena`, with a fresh analyzer (see
/// `SemanticAnalyzer::analyze`).
pub fn analyze<'a>(ast: &'a AstNode<'a>, arena: &'a Bump) -> (r: Result<SemanticModule, SemanticError>)
    requires
        1 + scopes_made(ast) < u32::MAX,
        symbols_made(ast) < u32::MAX,
    ensures
        r matches Ok(m) && {
            &&& m.name@ == "main"@
            &&& m.functions@.len() == 0
            &&& m.scopes.wf()
            &&& m.scopes.spec_scopes().len() == 1 + scopes_made(ast)
            &&& m.symbols.wf()
            &&& m.symbols.spec_symbols().len() <= symbols_made(ast)
            &&& symbol_types_stored(m.symbols.spec_symbols(), m.types.spec_types())
            &&& ast.spec_kind() matches NodeKind::FunctionDeclaration { name, params, return_type, .. } ==> (
            m.types.spec_types().len() < u32::MAX && !declares_any(ast.spec_children(), name@) ==> (latest_symbol(
                m.symbols.spec_symbols(),
                m.scopes.spec_root(),
                name@,
            ) matches Some(id) && function_typed_in(m.symbols, m.types.spec_types(), id, params@, return_type)))
            &&& ast.spec_kind() matches NodeKind::VariableStatement { declarations } ==> (m.types.spec_types().len()
                < u32::MAX ==> forall|i: int|
                #![trigger unrepeated(declarations@, i, declarations@.len() as int)]
                0 <= i < declarations@.len() && unrepeated(declarations@, i, declarations@.len() as int)
                    && !declares_any(ast.spec_children(), declarations@[i].name@) ==> (latest_symbol(
                    m.symbols.spec_symbols(),
                    m.scopes.spec_root(),
                    declarations@[i].name@,
                ) matches Some(id) && declaration_typed_in(m.symbols, m.types.spec_types(), id, declarations@[i])))
            &&& ast.spec_kind() is Block ==> {
                &&& opened(m.scopes.spec_scopes(), 1, ScopeKind::Block, m.scopes.spec_root())
                &&& forall|k: int|
                    0 <= k < ast.spec_children().len() ==> declared_by(
                        m.symbols.spec_symbols(),
                        m.scopes.spec_scopes(),
                        m.scopes.spec_scopes()[1].spec_id(),
                        #[trigger] ast.spec_children()[k],
                    )
                &&& forall|k: int|
                    0 <= k < ast.spec_children().len() ==> statement_found(
                        m.symbols,
                        m.scopes,
                        m.scopes.spec_scopes()[1].spec_id(),
                        m.types.spec_types(),
                        #[trigger] ast.spec_children()[k],
                        ast.spec_children().subrange(k + 1, ast.spec_children().len() as int),
                    )
            }
        },
{
    let mut analyzer = SemanticAnalyzer::new(arena);
    analyzer.analyze(ast)
}

} // verus!
