//! IR instructions.

use vstd::prelude::*;
use crate::semantic::flow::cfg::BasicBlockId;
use crate::semantic::types::TypeId;
use crate::text::{decimal, wrap_decimal};

verus! {

/// Identifier of an SSA value.
#[derive(Debug, Clone, Copy, PartialEq, Eq, PartialOrd, Ord, Hash, Structural)]
pub struct ValueId(pub u32);

impl ValueId {
    /// Textual form `%n`.
    pub fn to_string(&self) -> (r: String)
        ensures
            r@ == "%"@ + decimal(self.0 as nat),
    {
        let r = wrap_decimal("%", self.0 as u64, "");
        proof {
            reveal_strlit("");
            assert(r@ =~= "%"@ + decimal(self.0 as nat));
        }
        r
    }
}

/// Binary operations.
#[derive(Debug, Clone, Copy, PartialEq, Eq, Hash, Structural)]
pub enum BinaryOp {
    /// Addition
    Add,
    /// Subtraction
    Sub,
    /// Multiplication
    Mul,
    /// Division
    Div,
    /// Remainder
    Rem,
    /// Bitwise AND
    And,
    /// Bitwise OR
    Or,
    /// Bitwise XOR
    Xor,
    /// Left shift
    Shl,
    /// Right shift
    Shr,
    /// Equality
    Eq,
    /// Inequality
    Ne,
    /// Less than
    Lt,
    /// Less than or equal
    Le,
    /// Greater than
    Gt,
    /// Greater than or equal
    Ge,
}

/// Unary operations.
#[derive(Debug, Clone, Copy, PartialEq, Eq, Hash, Structural)]
pub enum UnaryOp {
    /// Negation
    Neg,
    /// Bitwise NOT
    Not,
    /// Logical NOT
    LNot,
}

/// An IR instruction.
#[derive(Debug, Clone, PartialEq)]
pub enum Instruction {
    /// Binary operation
    Binary { op: BinaryOp, left: ValueId, right: ValueId },
    /// Unary operation
    Unary { op: UnaryOp, operand: ValueId },
    /// Load from memory
    Load { address: ValueId },
    /// Store to memory
    Store { address: ValueId, value: ValueId },
    /// Function call
    Call { function: ValueId, args: Vec<ValueId> },
    /// Unconditional branch
    Br { target: BasicBlockId },
    /// Conditional branch
    CondBr { condition: ValueId, true_target: BasicBlockId, false_target: BasicBlockId },
    /// Return
    Ret { value: Option<ValueId> },
    /// Phi node
    Phi { incoming: Vec<(ValueId, BasicBlockId)> },
    /// Stack allocation
    Alloca { ty: TypeId },
    /// Element address computation
    GetElementPtr { base: ValueId, indices: Vec<ValueId> },
    /// Constant
    Constant { ty: TypeId, value: ConstantValue },
}

/// A constant. A float is held by its IEEE-754 bit pattern.
#[derive(Debug, Clone, PartialEq)]
pub enum ConstantValue {
    /// Integer constant
    Int(i64),
    /// Floating point constant, as the bits of an `f64`
    Float(u64),
    /// Boolean constant
    Bool(bool),
    /// String constant (index into a string table)
    String(u32),
    /// Null pointer
    Null,
    /// Undefined value
    Undef,
}

} // verus!
