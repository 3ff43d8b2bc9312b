//! Semantic analysis: scopes, symbols, types, control flow and IR.

pub mod scope;
pub mod symbol;
pub mod types;
pub mod flow;
pub mod ir;
pub mod analyzer;
pub mod entry;

pub use entry::analyze;
