//! IR functions: a signature and a control flow graph.

use vstd::prelude::*;
use crate::semantic::flow::cfg::{block_at, blocks_with_edge, has_block, BasicBlock, BasicBlockId, ControlFlowGraph};
use crate::semantic::ir::instruction::{Instruction, ValueId};
use crate::semantic::symbol::SymbolId;
use crate::semantic::types::TypeId;

verus! {

/// A function of the IR.
#[derive(Debug, Clone, PartialEq)]
pub struct Function {
    /// Symbol of the function
    pub id: SymbolId,
    /// Name of the function
    pub name: String,
    /// Parameters: name and type
    pub params: Vec<(String, TypeId)>,
    /// Return type
    pub return_type: TypeId,
    /// Control flow graph of the body
    pub cfg: ControlFlowGraph,
    /// Number that the next created value gets
    pub next_value_id: u32,
}

impl Function {
    /// A function with a fresh graph (empty entry block 0 and exit block 1) and no
    /// values yet.
    pub fn new(id: SymbolId, name: String, params: Vec<(String, TypeId)>, return_type: TypeId) -> (r:
        Function)
        ensures
            r.id == id,
            r.name@ == name@,
            r.params@ == params@,
            r.return_type == return_type,
            r.cfg.wf(),
            r.cfg.blocks@.len() == 2,
            r.cfg.entry == BasicBlockId(0),
            r.cfg.exit == BasicBlockId(1),
            forall|i: int|
                0 <= i < 2 ==> (#[trigger] r.cfg.blocks@[i]).instructions@.len() == 0
                    && r.cfg.blocks@[i].terminator is None && r.cfg.blocks@[i].predecessors@.len()
                    == 0 && r.cfg.blocks@[i].successors@.len() == 0,
            r.next_value_id == 0,
    {
        Function { id, name, params, return_type, cfg: ControlFlowGraph::new(), next_value_id: 0 }
    }

    /// A fresh value: the next unused number.
    pub fn create_value(&mut self) -> (r: ValueId)
        requires
            old(self).next_value_id < u32::MAX,
        ensures
            r == ValueId(old(self).next_value_id),
            final(self).next_value_id == old(self).next_value_id + 1,
            final(self).cfg == old(self).cfg,
            final(self).id == old(self).id,
            final(self).name == old(self).name,
            final(self).params == old(self).params,
            final(self).return_type == old(self).return_type,
    {
        let id = ValueId(self.next_value_id);
        self.next_value_id = self.next_value_id + 1;
        id
    }

    /// The entry block.
    pub fn entry_block(&self) -> (r: BasicBlockId)
        ensures
            r == self.cfg.entry,
    {
        self.cfg.entry
    }

    /// The exit block.
    pub fn exit_block(&self) -> (r: BasicBlockId)
        ensures
            r == self.cfg.exit,
    {
        self.cfg.exit
    }

    /// Appends a fresh empty block to the graph and returns its id.
    pub fn create_block(&mut self) -> (r: BasicBlockId)
        requires
            old(self).cfg.next_block_id < u32::MAX,
        ensures
            r.0 == old(self).cfg.next_block_id,
            final(self).cfg.next_block_id == old(self).cfg.next_block_id + 1,
            final(self).cfg.blocks@.drop_last() == old(self).cfg.blocks@,
            final(self).cfg.blocks@.len() == old(self).cfg.blocks@.len() + 1,
            final(self).cfg.blocks@.last().id == r,
            final(self).cfg.blocks@.last().instructions@.len() == 0,
            final(self).cfg.blocks@.last().terminator is None,
            final(self).cfg.blocks@.last().predecessors@.len() == 0,
            final(self).cfg.blocks@.last().successors@.len() == 0,
            final(self).cfg.entry == old(self).cfg.entry,
            final(self).cfg.exit == old(self).cfg.exit,
            old(self).cfg.wf() ==> final(self).cfg.wf(),
            final(self).next_value_id == old(self).next_value_id,
    {
        self.cfg.create_block()
    }

    /// Appends `inst` to the block `block_id`, when it exists.
    pub fn add_instruction(&mut self, block_id: BasicBlockId, inst: Instruction)
        ensures
            has_block(old(self).cfg.blocks@, block_id) ==> ({
                let b = block_at(final(self).cfg.blocks@, block_id);
                let b0 = block_at(old(self).cfg.blocks@, block_id);
                &&& b.instructions@ == b0.instructions@.push(inst)
                &&& b.id == b0.id
                &&& b.terminator == b0.terminator
                &&& b.predecessors == b0.predecessors
                &&& b.successors == b0.successors
            }),
            final(self).cfg.blocks@.len() == old(self).cfg.blocks@.len(),
            forall|i: int|
                0 <= i < old(self).cfg.blocks@.len() && i != block_id.0 ==> final(self).cfg.blocks@[i]
                    == old(self).cfg.blocks@[i],
            final(self).cfg.entry == old(self).cfg.entry,
            final(self).cfg.exit == old(self).cfg.exit,
            final(self).cfg.next_block_id == old(self).cfg.next_block_id,
            final(self).next_value_id == old(self).next_value_id,
    {
        if let Some(block) = self.cfg.get_block_mut(block_id) {
            block.add_instruction(inst);
        }
    }

    /// Sets the terminator of the block `block_id`, when it exists; that block must not
    /// have one yet.
    pub fn set_terminator(&mut self, block_id: BasicBlockId, terminator: Instruction)
        requires
            has_block(old(self).cfg.blocks@, block_id) ==> block_at(old(self).cfg.blocks@, block_id).terminator is None,
        ensures
            has_block(old(self).cfg.blocks@, block_id) ==> ({
                let b = block_at(final(self).cfg.blocks@, block_id);
                let b0 = block_at(old(self).cfg.blocks@, block_id);
                &&& b.terminator == Some(terminator)
                &&& b.id == b0.id
                &&& b.instructions == b0.instructions
                &&& b.predecessors == b0.predecessors
                &&& b.successors == b0.successors
            }),
            final(self).cfg.blocks@.len() == old(self).cfg.blocks@.len(),
            forall|i: int|
                0 <= i < old(self).cfg.blocks@.len() && i != block_id.0 ==> final(self).cfg.blocks@[i]
                    == old(self).cfg.blocks@[i],
            final(self).cfg.entry == old(self).cfg.entry,
            final(self).cfg.exit == old(self).cfg.exit,
            final(self).cfg.next_block_id == old(self).cfg.next_block_id,
            final(self).next_value_id == old(self).next_value_id,
    {
        if let Some(block) = self.cfg.get_block_mut(block_id) {
            block.set_terminator(terminator);
        }
    }

    /// Adds the edge `from -> to` to the graph, as `ControlFlowGraph::add_edge` does.
    pub fn add_edge(&mut self, from: BasicBlockId, to: BasicBlockId)
        ensures
            final(self).cfg.blocks@.len() == old(self).cfg.blocks@.len(),
            forall|i: int|
                0 <= i < old(self).cfg.blocks@.len() ==> {
                    &&& (#[trigger] final(self).cfg.blocks@[i]).successors@ == blocks_with_edge(old(self).cfg.blocks@, from, to, i).0
                    &&& final(self).cfg.blocks@[i].predecessors@ == blocks_with_edge(old(self).cfg.blocks@, from, to, i).1
                    &&& final(self).cfg.blocks@[i].id == old(self).cfg.blocks@[i].id
                    &&& final(self).cfg.blocks@[i].instructions == old(self).cfg.blocks@[i].instructions
                    &&& final(self).cfg.blocks@[i].terminator == old(self).cfg.blocks@[i].terminator
                },
            final(self).cfg.entry == old(self).cfg.entry,
            final(self).cfg.exit == old(self).cfg.exit,
            final(self).cfg.next_block_id == old(self).cfg.next_block_id,
            final(self).next_value_id == old(self).next_value_id,
    {
        self.cfg.add_edge(from, to);
    }
}

} // verus!
