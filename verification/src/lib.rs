//! Transmute: a TypeScript front end that derives Rust semantics.
//!
//! The library holds the source-location model, the abstract syntax tree, and the
//! semantic passes (scopes, symbols, types, control flow, dominators and IR).

mod text;
mod hashers;
pub mod parser;
pub mod semantic;
