//! The intermediate representation: instructions, functions and modules.

pub mod instruction;
pub mod function;
pub mod module;

pub use instruction::{BinaryOp, ConstantValue, Instruction, UnaryOp, ValueId};
pub use function::Function;
pub use module::SemanticModule;
