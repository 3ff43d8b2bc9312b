//! Lexical scopes: the scope tree, identifier resolution along it, and the pass
//! that builds it.

pub mod scope;
pub mod analyzer;

pub use scope::{Scope, ScopeId, ScopeKind, ScopeTable};
pub use analyzer::ScopeAnalyzer;
