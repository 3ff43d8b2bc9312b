//! Abstract syntax tree: spans and line maps, node kinds, arena-allocated nodes and
//! the tree walkers built on them.

pub mod span;
pub mod types;
pub mod node;

pub use node::{AstArena, AstNode, NodeBuilder};
pub use span::{LineMap, Span};
pub use types::NodeKind;
pub mod visitor;
