//! Parser-side data: source spans, the abstract syntax tree, parse errors and the
//! decisions of the Deno parser backend.

pub mod ast;
pub mod error;
pub mod backend;

pub use error::ParseError;
pub use backend::{DenoBackend, DenoBackendConfig};
pub use ast::AstArena;
