//! Symbols: program identifiers and their metadata.

use vstd::prelude::*;
use vstd::string::StringExecFns;
use crate::parser::ast::span::Span;
use crate::semantic::scope::ScopeId;
use crate::semantic::types::TypeId;
use crate::text::{decimal, wrap_decimal};

verus! {

/// Identifier of a symbol.
#[derive(Debug, Clone, Copy, PartialEq, Eq, PartialOrd, Ord, Hash, Structural)]
pub struct SymbolId(u32);

impl SymbolId {
    /// The id with the given number.
    pub fn new(id: u32) -> (r: SymbolId)
        ensures
            r.spec_get() == id,
    {
        SymbolId(id)
    }

    /// The number of the id.
    pub closed spec fn spec_get(self) -> u32 {
        self.0
    }

    /// The number of the id.
    pub fn get(self) -> (r: u32)
        ensures
            r == self.spec_get(),
    {
        self.0
    }

    /// Two ids are equal exactly when their numbers are.
    pub proof fn lemma_eq(a: SymbolId, b: SymbolId)
        ensures
            (a == b) <==> (a.spec_get() == b.spec_get()),
    {
    }

    /// Textual form `Symbol(n)`.
    pub fn to_string(&self) -> (r: String)
        ensures
            r@ == "Symbol("@ + decimal(self.spec_get() as nat) + ")"@,
    {
        wrap_decimal("Symbol(", self.0 as u64, ")")
    }
}

/// The kind of a symbol.
#[derive(Debug, Clone, Copy, PartialEq, Eq, Hash, Structural)]
pub enum SymbolKind {
    /// Function declaration or expression
    Function,
    /// Variable declaration (let, const, var)
    Variable,
    /// Class declaration
    Class,
    /// Interface declaration
    Interface,
    /// Type alias declaration
    TypeAlias,
    /// Enum declaration
    Enum,
    /// Imported symbol
    Import,
}

/// Textual form of a symbol kind.
pub open spec fn symbol_kind_text(k: SymbolKind) -> Seq<char> {
    match k {
        SymbolKind::Function => "function"@,
        SymbolKind::Variable => "variable"@,
        SymbolKind::Class => "class"@,
        SymbolKind::Interface => "interface"@,
        SymbolKind::TypeAlias => "type alias"@,
        SymbolKind::Enum => "enum"@,
        SymbolKind::Import => "import"@,
    }
}

impl SymbolKind {
    /// Textual form of the kind.
    pub fn as_str(&self) -> (r: &'static str)
        ensures
            r@ == symbol_kind_text(*self),
    {
        match self {
            SymbolKind::Function => "function",
            SymbolKind::Variable => "variable",
            SymbolKind::Class => "class",
            SymbolKind::Interface => "interface",
            SymbolKind::TypeAlias => "type alias",
            SymbolKind::Enum => "enum",
            SymbolKind::Import => "import",
        }
    }

    /// Textual form of the kind, as an owned string.
    pub fn to_string(&self) -> (r: String)
        ensures
            r@ == symbol_kind_text(*self),
    {
        String::from_str(self.as_str())
    }
}

/// A declared identifier with its metadata.
#[derive(Debug, Clone)]
pub struct Symbol {
    id: SymbolId,
    name: String,
    kind: SymbolKind,
    span: Span,
    scope: ScopeId,
    is_export: bool,
    type_id: Option<TypeId>,
}

impl Symbol {
    /// Id of the symbol.
    pub closed spec fn spec_id(self) -> SymbolId {
        self.id
    }

    /// Name of the symbol.
    pub closed spec fn spec_name(self) -> Seq<char> {
        self.name@
    }

    /// Kind of the symbol.
    pub closed spec fn spec_kind(self) -> SymbolKind {
        self.kind
    }

    /// Declaration span of the symbol.
    pub closed spec fn spec_span(self) -> Span {
        self.span
    }

    /// Scope that declares the symbol.
    pub closed spec fn spec_scope(self) -> ScopeId {
        self.scope
    }

    /// Whether the symbol is exported.
    pub closed spec fn spec_is_export(self) -> bool {
        self.is_export
    }

    /// Type of the symbol, when known.
    pub closed spec fn spec_type_id(self) -> Option<TypeId> {
        self.type_id
    }

    /// A new symbol: not exported, with no type.
    pub fn new(id: SymbolId, name: String, kind: SymbolKind, span: Span, scope: ScopeId) -> (r:
        Symbol)
        ensures
            r.spec_id() == id,
            r.spec_name() == name@,
            r.spec_kind() == kind,
            r.spec_span() == span,
            r.spec_scope() == scope,
            !r.spec_is_export(),
            r.spec_type_id() is None,
    {
        Symbol { id, name, kind, span, scope, is_export: false, type_id: None }
    }

    /// Id of the symbol.
    pub fn id(&self) -> (r: SymbolId)
        ensures
            r == self.spec_id(),
    {
        self.id
    }

    /// Name of the symbol.
    pub fn name(&self) -> (r: &str)
        ensures
            r@ == self.spec_name(),
    {
        self.name.as_str()
    }

    /// Kind of the symbol.
    pub fn kind(&self) -> (r: SymbolKind)
        ensures
            r == self.spec_kind(),
    {
        self.kind
    }

    /// Declaration span of the symbol.
    pub fn span(&self) -> (r: Span)
        ensures
            r == self.spec_span(),
    {
        self.span
    }

    /// Scope that declares the symbol.
    pub fn scope(&self) -> (r: ScopeId)
        ensures
            r == self.spec_scope(),
    {
        self.scope
    }

    /// Whether the symbol is exported.
    pub fn is_export(&self) -> (r: bool)
        ensures
            r == self.spec_is_export(),
    {
        self.is_export
    }

    /// Marks the symbol exported or not; nothing else changes.
    pub fn set_export(&mut self, is_export: bool)
        ensures
            final(self).spec_is_export() == is_export,
            final(self).spec_id() == old(self).spec_id(),
            final(self).spec_name() == old(self).spec_name(),
            final(self).spec_kind() == old(self).spec_kind(),
            final(self).spec_span() == old(self).spec_span(),
            final(self).spec_scope() == old(self).spec_scope(),
            final(self).spec_type_id() == old(self).spec_type_id(),
    {
        self.is_export = is_export;
    }

    /// Type of the symbol, when known.
    pub fn type_id(&self) -> (r: Option<TypeId>)
        ensures
            r == self.spec_type_id(),
    {
        self.type_id
    }

    /// Records the type of the symbol; nothing else changes.
    pub fn set_type_id(&mut self, type_id: TypeId)
        ensures
            final(self).spec_type_id() == Some(type_id),
            final(self).spec_id() == old(self).spec_id(),
            final(self).spec_name() == old(self).spec_name(),
            final(self).spec_kind() == old(self).spec_kind(),
            final(self).spec_span() == old(self).spec_span(),
            final(self).spec_scope() == old(self).spec_scope(),
            final(self).spec_is_export() == old(self).spec_is_export(),
    {
        self.type_id = Some(type_id);
    }

    /// Forgets the type of the symbol; nothing else changes.
    pub fn clear_type_id(&mut self)
        ensures
            final(self).spec_type_id() is None,
            final(self).spec_id() == old(self).spec_id(),
            final(self).spec_name() == old(self).spec_name(),
            final(self).spec_kind() == old(self).spec_kind(),
            final(self).spec_span() == old(self).spec_span(),
            final(self).spec_scope() == old(self).spec_scope(),
            final(self).spec_is_export() == old(self).spec_is_export(),
    {
        self.type_id = None;
    }

    /// Textual form `kind 'name' [Symbol(n)] at start..end`.
    pub fn to_string(&self) -> (r: String)
        ensures
            r@ == symbol_kind_text(self.spec_kind()) + " '"@ + self.spec_name() + "' ["@
                + "Symbol("@ + decimal(self.spec_id().spec_get() as nat) + ")"@ + "] at "@
                + decimal(self.spec_span().spec_start() as nat) + ".."@ + decimal(
                self.spec_span().spec_end() as nat,
            ),
    {
        let mut s = self.kind.to_string();
        s.append(" '");
        s.append(self.name.as_str());
        s.append("' [");
        let id = self.id.to_string();
        s.append(id.as_str());
        s.append("] at ");
        let sp = self.span.to_string();
        s.append(sp.as_str());
        s
    }
}

} // verus!
