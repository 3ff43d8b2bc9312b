//! Control flow: graphs of basic blocks, their construction from the AST, and
//! dominators.

pub mod cfg;

pub use cfg::{BasicBlock, BasicBlockId, ControlFlowGraph};
pub mod dominance;
pub mod builder;
