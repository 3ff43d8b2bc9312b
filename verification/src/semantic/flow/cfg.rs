//! Control flow graphs: basic blocks linked by edges.

use vstd::prelude::*;
use crate::semantic::ir::instruction::Instruction;
use crate::text::{decimal, wrap_decimal};

verus! {

/// Identifier of a basic block.
#[derive(Debug, Clone, Copy, PartialEq, Eq, PartialOrd, Ord, Hash, Structural)]
pub struct BasicBlockId(pub u32);

impl BasicBlockId {
    /// Textual form `bbN`.
    pub fn to_string(&self) -> (r: String)
        ensures
            r@ == "bb"@ + decimal(self.0 as nat),
    {
        let r = wrap_decimal("bb", self.0 as u64, "");
        proof {
            reveal_strlit("");
            assert(r@ =~= "bb"@ + decimal(self.0 as nat));
        }
        r
    }
}

/// A straight-line sequence of instructions ended by at most one terminator.
#[derive(Debug, Clone, PartialEq)]
pub struct BasicBlock {
    /// Id of the block
    pub id: BasicBlockId,
    /// Instructions, terminator excluded
    pub instructions: Vec<Instruction>,
    /// The instruction that ends the block
    pub terminator: Option<Instruction>,
    /// Blocks with an edge into this one
    pub predecessors: Vec<BasicBlockId>,
    /// Blocks this one has an edge into
    pub successors: Vec<BasicBlockId>,
}

impl BasicBlock {
    /// An empty block with id `id`.
    pub fn new(id: BasicBlockId) -> (r: BasicBlock)
        ensures
            r.id == id,
            r.instructions@.len() == 0,
            r.terminator is None,
            r.predecessors@.len() == 0,
            r.successors@.len() == 0,
    {
        BasicBlock {
            id,
            instructions: Vec::new(),
            terminator: None,
            predecessors: Vec::new(),
            successors: Vec::new(),
        }
    }

    /// Appends `inst` to the instructions.
    pub fn add_instruction(&mut self, inst: Instruction)
        ensures
            final(self).instructions@ == old(self).instructions@.push(inst),
            final(self).id == old(self).id,
            final(self).terminator == old(self).terminator,
            final(self).predecessors == old(self).predecessors,
            final(self).successors == old(self).successors,
    {
        self.instructions.push(inst);
    }

    /// Sets the terminator; the block must not have one yet.
    pub fn set_terminator(&mut self, terminator: Instruction)
        requires
            old(self).terminator is None,
        ensures
            final(self).terminator == Some(terminator),
            final(self).id == old(self).id,
            final(self).instructions == old(self).instructions,
            final(self).predecessors == old(self).predecessors,
            final(self).successors == old(self).successors,
    {
        self.terminator = Some(terminator);
    }

    /// Whether the block has a terminator.
    pub fn has_terminator(&self) -> (r: bool)
        ensures
            r == self.terminator is Some,
    {
        self.terminator.is_some()
    }
}

/// Whether `v` holds `b`.
pub fn contains_block(v: &Vec<BasicBlockId>, b: BasicBlockId) -> (r: bool)
    ensures
        r == v@.contains(b),
{
    let mut i: usize = 0;
    while i < v.len()
        invariant
            i <= v@.len(),
            forall|j: int| 0 <= j < i ==> v@[j] != b,
        decreases v@.len() - i,
    {
        if v[i] == b {
            return true;
        }
        i = i + 1;
    }
    false
}

/// A control flow graph: blocks, an entry block and an exit block.
#[derive(Debug, Clone, PartialEq)]
pub struct ControlFlowGraph {
    /// The blocks
    pub blocks: Vec<BasicBlock>,
    /// Entry block id
    pub entry: BasicBlockId,
    /// Exit block id
    pub exit: BasicBlockId,
    /// Id that the next created block gets
    pub next_block_id: u32,
}

/// Blocks `b` with id `id` at index `id`.
pub open spec fn block_at(blocks: Seq<BasicBlock>, id: BasicBlockId) -> BasicBlock {
    blocks[id.0 as int]
}

/// Whether `blocks` holds a block at index `id`.
pub open spec fn has_block(blocks: Seq<BasicBlock>, id: BasicBlockId) -> bool {
    id.0 < blocks.len()
}

/// Successor lists after adding the edge `from -> to`: `to` is appended to the
/// successors of `from` unless already there, and `from` to the predecessors of `to`.
pub open spec fn blocks_with_edge(blocks: Seq<BasicBlock>, from: BasicBlockId, to: BasicBlockId, i: int) -> (Seq<BasicBlockId>, Seq<BasicBlockId>) {
    let succ = blocks[i].successors@;
    let pred = blocks[i].predecessors@;
    let succ2 = if i == from.0 && !succ.contains(to) { succ.push(to) } else { succ };
    let pred2 = if i == to.0 && !pred.contains(from) { pred.push(from) } else { pred };
    (succ2, pred2)
}

impl ControlFlowGraph {
    /// The id the next created block gets.
    pub open spec fn spec_next_block_id(self) -> u32 {
        self.next_block_id
    }

    /// The blocks.
    pub open spec fn spec_blocks(self) -> Seq<BasicBlock> {
        self.blocks@
    }

    /// The entry block id.
    pub open spec fn spec_entry(self) -> BasicBlockId {
        self.entry
    }

    /// The exit block id.
    pub open spec fn spec_exit(self) -> BasicBlockId {
        self.exit
    }

    /// Block `i` has id `i`, the next id is the block count, and the entry and exit
    /// blocks exist.
    pub open spec fn wf(self) -> bool {
        &&& self.spec_next_block_id() == self.spec_blocks().len()
        &&& forall|i: int| 0 <= i < self.spec_blocks().len() ==> (#[trigger] self.spec_blocks()[i]).id.0 == i
        &&& has_block(self.spec_blocks(), self.spec_entry())
        &&& has_block(self.spec_blocks(), self.spec_exit())
    }

    /// A graph holding only a fresh entry block (id 0) and exit block (id 1).
    pub fn new() -> (r: ControlFlowGraph)
        ensures
            r.wf(),
            r.spec_blocks().len() == 2,
            r.spec_entry() == BasicBlockId(0),
            r.spec_exit() == BasicBlockId(1),
            forall|i: int|
                0 <= i < 2 ==> (#[trigger] r.spec_blocks()[i]).instructions@.len() == 0
                    && r.spec_blocks()[i].terminator is None && r.spec_blocks()[i].predecessors@.len() == 0
                    && r.spec_blocks()[i].successors@.len() == 0,
    {
        let mut cfg = ControlFlowGraph {
            blocks: Vec::new(),
            entry: BasicBlockId(0),
            exit: BasicBlockId(0),
            next_block_id: 0,
        };
        let entry_id = cfg.create_block();
        let exit_id = cfg.create_block();
        cfg.entry = entry_id;
        cfg.exit = exit_id;
        cfg
    }

    /// Appends a fresh empty block and returns its id, the next unused id.
    pub fn create_block(&mut self) -> (r: BasicBlockId)
        requires
            old(self).spec_next_block_id() < u32::MAX,
        ensures
            r.0 == old(self).spec_next_block_id(),
            final(self).spec_next_block_id() == old(self).spec_next_block_id() + 1,
            final(self).spec_blocks().len() == old(self).spec_blocks().len() + 1,
            final(self).spec_blocks().drop_last() == old(self).spec_blocks(),
            final(self).spec_blocks().last().id == r,
            final(self).spec_blocks().last().instructions@.len() == 0,
            final(self).spec_blocks().last().terminator is None,
            final(self).spec_blocks().last().predecessors@.len() == 0,
            final(self).spec_blocks().last().successors@.len() == 0,
            final(self).spec_entry() == old(self).spec_entry(),
            final(self).spec_exit() == old(self).spec_exit(),
            old(self).wf() ==> final(self).wf(),
    {
        let id = BasicBlockId(self.next_block_id);
        self.next_block_id = self.next_block_id + 1;
        self.blocks.push(BasicBlock::new(id));
        proof {
            assert(self.spec_blocks().drop_last() =~= old(self).spec_blocks());
        }
        id
    }

    /// The block with id `id`, if any.
    pub fn get_block(&self, id: BasicBlockId) -> (r: Option<&BasicBlock>)
        ensures
            has_block(self.spec_blocks(), id) ==> r == Some(&block_at(self.spec_blocks(), id)),
            !has_block(self.spec_blocks(), id) ==> r is None,
    {
        let i = id.0 as usize;
        if i < self.blocks.len() {
            Some(&self.blocks[i])
        } else {
            None
        }
    }

    /// Mutable access to the block with id `id`, if any.
    pub fn get_block_mut(&mut self, id: BasicBlockId) -> (r: Option<&mut BasicBlock>)
        ensures
            has_block(old(self).spec_blocks(), id) ==> (r matches Some(b) && *b == block_at(old(self).spec_blocks(), id)
                && final(self).spec_blocks() == old(self).spec_blocks().update(id.0 as int, *final(b))),
            !has_block(old(self).spec_blocks(), id) ==> r is None && final(self).spec_blocks() == old(self).spec_blocks(),
            final(self).spec_entry() == old(self).spec_entry(),
            final(self).spec_exit() == old(self).spec_exit(),
            final(self).spec_next_block_id() == old(self).spec_next_block_id(),
    {
        let i = id.0 as usize;
        if i < self.blocks.len() {
            Some(&mut self.blocks[i])
        } else {
            None
        }
    }

    /// Adds the edge `from -> to`: `to` joins the successors of `from` and `from` the
    /// predecessors of `to`, each only if not already there and only where the block
    /// exists. Everything else is kept.
    pub fn add_edge(&mut self, from: BasicBlockId, to: BasicBlockId)
        ensures
            final(self).spec_blocks().len() == old(self).spec_blocks().len(),
            forall|i: int|
                0 <= i < old(self).spec_blocks().len() ==> {
                    &&& (#[trigger] final(self).spec_blocks()[i]).successors@ == blocks_with_edge(old(self).spec_blocks(), from, to, i).0
                    &&& final(self).spec_blocks()[i].predecessors@ == blocks_with_edge(old(self).spec_blocks(), from, to, i).1
                    &&& final(self).spec_blocks()[i].id == old(self).spec_blocks()[i].id
                    &&& final(self).spec_blocks()[i].instructions == old(self).spec_blocks()[i].instructions
                    &&& final(self).spec_blocks()[i].terminator == old(self).spec_blocks()[i].terminator
                },
            final(self).spec_entry() == old(self).spec_entry(),
            final(self).spec_exit() == old(self).spec_exit(),
            final(self).spec_next_block_id() == old(self).spec_next_block_id(),
    {
        let fi = from.0 as usize;
        if fi < self.blocks.len() {
            if !contains_block(&self.blocks[fi].successors, to) {
                let b = &mut self.blocks[fi];
                b.successors.push(to);
            }
        }
        let ti = to.0 as usize;
        if ti < self.blocks.len() {
            if !contains_block(&self.blocks[ti].predecessors, from) {
                let b = &mut self.blocks[ti];
                b.predecessors.push(from);
            }
        }
    }

    /// Number of blocks.
    pub fn block_count(&self) -> (r: usize)
        ensures
            r == self.spec_blocks().len(),
    {
        self.blocks.len()
    }
}

/// Adding an edge is idempotent: on the successor and predecessor lists that
/// `add_edge(from, to)` leaves, adding the same edge again changes nothing.
pub proof fn lemma_add_edge_idempotent(blocks: Seq<BasicBlock>, after: Seq<BasicBlock>, from: BasicBlockId, to: BasicBlockId)
    requires
        after.len() == blocks.len(),
        forall|i: int|
            0 <= i < blocks.len() ==> (#[trigger] after[i]).successors@ == blocks_with_edge(blocks, from, to, i).0
                && after[i].predecessors@ == blocks_with_edge(blocks, from, to, i).1,
    ensures
        forall|i: int|
            0 <= i < after.len() ==> #[trigger] blocks_with_edge(after, from, to, i) == (
                after[i].successors@,
                after[i].predecessors@,
            ),
{
    assert forall|i: int| 0 <= i < after.len() implies #[trigger] blocks_with_edge(after, from, to, i) == (
        after[i].successors@,
        after[i].predecessors@,
    ) by {
        let succ = blocks[i].successors@;
        let pred = blocks[i].predecessors@;
        if i == from.0 && !succ.contains(to) {
            assert(succ.push(to)[succ.len() as int] == to);
        }
        if i == to.0 && !pred.contains(from) {
            assert(pred.push(from)[pred.len() as int] == from);
        }
    }
}

/// After `add_edge(from, to)` between existing blocks, `to` is a successor of
/// `from` and `from` a predecessor of `to`.
pub proof fn lemma_add_edge_present(blocks: Seq<BasicBlock>, from: BasicBlockId, to: BasicBlockId)
    requires
        has_block(blocks, from),
        has_block(blocks, to),
    ensures
        blocks_with_edge(blocks, from, to, from.0 as int).0.contains(to),
        blocks_with_edge(blocks, from, to, to.0 as int).1.contains(from),
{
    let succ = blocks[from.0 as int].successors@;
    let pred = blocks[to.0 as int].predecessors@;
    if !succ.contains(to) {
        assert(succ.push(to)[succ.len() as int] == to);
    }
    if !pred.contains(from) {
        assert(pred.push(from)[pred.len() as int] == from);
    }
}

impl Default for ControlFlowGraph {
    /// A graph holding only a fresh entry block (id 0) and exit block (id 1).
    fn default() -> (r: Self)
        ensures
            r.wf(),
            r.spec_blocks().len() == 2,
            r.spec_entry() == BasicBlockId(0),
            r.spec_exit() == BasicBlockId(1),
    {
        ControlFlowGraph::new()
    }
}

} // verus!
