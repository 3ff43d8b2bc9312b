//! Symbols: declared identifiers and the table that stores them.

pub mod symbol;
pub mod table;

pub use symbol::{Symbol, SymbolId, SymbolKind};
pub use table::SymbolTable;
