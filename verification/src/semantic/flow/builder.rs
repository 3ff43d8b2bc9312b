//! Construction of a function's control flow graph from its AST.

use vstd::prelude::*;
use rustc_hash::FxHashMap;
use crate::parser::ast::node::AstNode;
use crate::semantic::flow::cfg::{block_at, has_block, BasicBlock, BasicBlockId};
use crate::semantic::ir::function::Function;
use crate::semantic::ir::instruction::{Instruction, ValueId};

verus! {

/// Current values of named variables.
pub type VariableMap = FxHashMap<String, ValueId>;

/// An empty variable map: `FxHashMap::default`.
#[verifier::external_body]
fn variable_map_new() -> (r: VariableMap)
{
    FxHashMap::default()
}

/// Blocks of an enclosing loop that `break` and `continue` jump to.
#[derive(Debug, Clone, Copy)]
pub struct LoopContext {
    /// Header block of the loop
    pub header: BasicBlockId,
    /// Exit block of the loop (where break jumps to)
    pub exit: BasicBlockId,
    /// Continue block of the loop (where continue jumps to)
    pub continue_block: BasicBlockId,
}

/// `blocks` has an edge from `a` to `b`.
pub open spec fn edge(blocks: Seq<BasicBlock>, a: BasicBlockId, b: BasicBlockId) -> bool {
    has_block(blocks, a) && block_at(blocks, a).successors@.contains(b)
}

/// The terminator of block `b`.
pub open spec fn terminator_of(blocks: Seq<BasicBlock>, b: BasicBlockId) -> Option<Instruction> {
    block_at(blocks, b).terminator
}

/// Builds the control flow graph of a function from its AST.
#[derive(Debug)]
pub struct CFGBuilder<'a> {
    /// The function being built
    function: &'a mut Function,
    /// Current basic block being written to
    current_block: BasicBlockId,
    /// Stack of loop headers for break/continue handling
    loop_stack: Vec<LoopContext>,
    /// Map from variable names to their current SSA value
    variable_map: VariableMap,
    /// Next available value ID
    next_value_id: u32,
}

impl<'a> CFGBuilder<'a> {
    /// The function being built.
    pub closed spec fn spec_function(self) -> Function {
        *self.function
    }

    /// The block instructions go to.
    pub closed spec fn spec_current(self) -> BasicBlockId {
        self.current_block
    }

    /// The enclosing loops, innermost last.
    pub closed spec fn spec_loops(self) -> Seq<LoopContext> {
        self.loop_stack@
    }

    /// The number the next value gets.
    pub closed spec fn spec_next_value(self) -> u32 {
        self.next_value_id
    }

    /// The blocks of the graph being built.
    pub open spec fn blocks(self) -> Seq<BasicBlock> {
        self.spec_function().cfg.blocks@
    }

    /// The graph is well formed, the current block exists and has no terminator yet,
    /// and the blocks of every enclosing loop exist.
    pub open spec fn wf(self) -> bool {
        &&& self.spec_function().cfg.wf()
        &&& has_block(self.blocks(), self.spec_current())
        &&& terminator_of(self.blocks(), self.spec_current()) is None
        &&& forall|i: int|
            0 <= i < self.spec_loops().len() ==> has_block(self.blocks(), (#[trigger] self.spec_loops()[i]).exit)
                && has_block(self.blocks(), self.spec_loops()[i].continue_block)
    }

    /// Room for `n` more blocks.
    pub open spec fn room(self, n: nat) -> bool {
        self.spec_function().cfg.next_block_id + n < u32::MAX
    }

    /// A builder for `function`, writing to its entry block first.
    pub fn new(function: &'a mut Function) -> (r: Self)
        ensures
            r.spec_function() == *old(function),
            r.spec_current() == old(function).cfg.entry,
            r.spec_loops().len() == 0,
            r.spec_next_value() == 0,
    {
        let entry_block = function.entry_block();
        CFGBuilder {
            function,
            current_block: entry_block,
            loop_stack: Vec::new(),
            variable_map: variable_map_new(),
            next_value_id: 0,
        }
    }

    /// A fresh value: the next unused number.
    fn create_value(&mut self) -> (r: ValueId)
        requires
            old(self).spec_next_value() < u32::MAX,
        ensures
            r == ValueId(old(self).spec_next_value()),
            final(self).spec_next_value() == old(self).spec_next_value() + 1,
            final(self).spec_function() == old(self).spec_function(),
            final(self).spec_current() == old(self).spec_current(),
            final(self).spec_loops() == old(self).spec_loops(),
    {
        let id = ValueId(self.next_value_id);
        self.next_value_id = self.next_value_id + 1;
        id
    }

    /// A fresh empty block.
    fn create_block(&mut self) -> (r: BasicBlockId)
        requires
            old(self).spec_function().cfg.wf(),
            old(self).room(1),
        ensures
            r.0 == old(self).spec_function().cfg.next_block_id,
            r.0 == old(self).blocks().len(),
            final(self).spec_function().cfg.wf(),
            final(self).spec_function().cfg.next_block_id == old(self).spec_function().cfg.next_block_id + 1,
            final(self).blocks() == old(self).blocks().push(final(self).blocks().last()),
            final(self).blocks().last().terminator is None,
            final(self).blocks().last().id == r,
            final(self).spec_function().cfg.exit == old(self).spec_function().cfg.exit,
            final(self).spec_current() == old(self).spec_current(),
            final(self).spec_loops() == old(self).spec_loops(),
            final(self).spec_next_value() == old(self).spec_next_value(),
    {
        let r = self.function.create_block();
        proof {
            assert(self.blocks() =~= old(self).blocks().push(self.blocks().last()));
        }
        r
    }

    /// Makes `block_id` the block instructions go to.
    fn set_current_block(&mut self, block_id: BasicBlockId)
        ensures
            final(self).spec_current() == block_id,
            final(self).spec_function() == old(self).spec_function(),
            final(self).spec_loops() == old(self).spec_loops(),
            final(self).spec_next_value() == old(self).spec_next_value(),
    {
        self.current_block = block_id;
    }

    /// Ends the current block with `terminator`.
    fn set_terminator(&mut self, terminator: Instruction)
        requires
            has_block(old(self).blocks(), old(self).spec_current()),
            terminator_of(old(self).blocks(), old(self).spec_current()) is None,
            old(self).spec_function().cfg.wf(),
        ensures
            final(self).spec_function().cfg.wf(),
            final(self).blocks().len() == old(self).blocks().len(),
            terminator_of(final(self).blocks(), old(self).spec_current()) == Some(terminator),
            forall|i: int|
                0 <= i < old(self).blocks().len() && i != old(self).spec_current().0 ==> #[trigger] final(self).blocks()[i]
                    == old(self).blocks()[i],
            forall|a: BasicBlockId, b: BasicBlockId| edge(old(self).blocks(), a, b) ==> edge(final(self).blocks(), a, b),
            final(self).spec_function().cfg.exit == old(self).spec_function().cfg.exit,
            final(self).spec_function().cfg.next_block_id == old(self).spec_function().cfg.next_block_id,
            final(self).spec_current() == old(self).spec_current(),
            final(self).spec_loops() == old(self).spec_loops(),
            final(self).spec_next_value() == old(self).spec_next_value(),
    {
        self.function.set_terminator(self.current_block, terminator);
        proof {
            let b0 = old(self).blocks();
            let b1 = self.blocks();
            assert forall|i: int| 0 <= i < b1.len() implies (#[trigger] b1[i]).id.0 == i by {
                if i != old(self).spec_current().0 {
                    assert(b1[i] == b0[i]);
                }
            }
            assert forall|a: BasicBlockId, b: BasicBlockId| edge(b0, a, b) implies edge(b1, a, b) by {
                if a != old(self).spec_current() {
                    assert(b1[a.0 as int] == b0[a.0 as int]);
                }
            }
        }
    }

    /// Adds the edge `from -> to`.
    fn add_edge(&mut self, from: BasicBlockId, to: BasicBlockId)
        requires
            old(self).spec_function().cfg.wf(),
        ensures
            final(self).spec_function().cfg.wf(),
            final(self).blocks().len() == old(self).blocks().len(),
            has_block(old(self).blocks(), from) ==> edge(final(self).blocks(), from, to),
            forall|a: BasicBlockId, b: BasicBlockId| edge(old(self).blocks(), a, b) ==> edge(final(self).blocks(), a, b),
            forall|i: int|
                0 <= i < old(self).blocks().len() ==> (#[trigger] final(self).blocks()[i]).terminator == old(
                    self,
                ).blocks()[i].terminator,
            final(self).spec_function().cfg.exit == old(self).spec_function().cfg.exit,
            final(self).spec_function().cfg.next_block_id == old(self).spec_function().cfg.next_block_id,
            final(self).spec_current() == old(self).spec_current(),
            final(self).spec_loops() == old(self).spec_loops(),
            final(self).spec_next_value() == old(self).spec_next_value(),
    {
        self.function.add_edge(from, to);
        proof {
            let b0 = old(self).blocks();
            let b1 = self.blocks();
            assert forall|i: int| 0 <= i < b1.len() implies (#[trigger] b1[i]).id.0 == i by {
                assert(b1[i].id == b0[i].id);
            }
            if has_block(b0, from) {
                let s = b0[from.0 as int].successors@;
                if !s.contains(to) {
                    assert(s.push(to)[s.len() as int] == to);
                }
            }
            assert forall|a: BasicBlockId, b: BasicBlockId| edge(b0, a, b) implies edge(b1, a, b) by {
                let s = b0[a.0 as int].successors@;
                let k = choose|k: int| 0 <= k < s.len() && s[k] == b;
                if a == from && !s.contains(to) {
                    assert(s.push(to)[k] == b);
                }
            }
            assert forall|i: int| 0 <= i < b0.len() implies (#[trigger] b1[i]).terminator == b0[i].terminator by {
                assert(b1[i].terminator == b0[i].terminator);
            }
        }
    }

    /// Enters a loop.
    fn push_loop(&mut self, header: BasicBlockId, exit: BasicBlockId, continue_block: BasicBlockId)
        ensures
            final(self).spec_loops() == old(self).spec_loops().push(LoopContext { header, exit, continue_block }),
            final(self).spec_function() == old(self).spec_function(),
            final(self).spec_current() == old(self).spec_current(),
            final(self).spec_next_value() == old(self).spec_next_value(),
    {
        self.loop_stack.push(LoopContext { header, exit, continue_block });
    }

    /// Leaves the innermost loop.
    fn pop_loop(&mut self) -> (r: Option<LoopContext>)
        ensures
            old(self).spec_loops().len() > 0 ==> r == Some(old(self).spec_loops().last())
                && final(self).spec_loops() == old(self).spec_loops().drop_last(),
            old(self).spec_loops().len() == 0 ==> r is None && final(self).spec_loops() == old(self).spec_loops(),
            final(self).spec_function() == old(self).spec_function(),
            final(self).spec_current() == old(self).spec_current(),
            final(self).spec_next_value() == old(self).spec_next_value(),
    {
        self.loop_stack.pop()
    }

    /// The innermost loop, if any.
    fn current_loop(&self) -> (r: Option<&LoopContext>)
        ensures
            self.spec_loops().len() > 0 ==> r == Some(&self.spec_loops().last()),
            self.spec_loops().len() == 0 ==> r is None,
    {
        self.loop_stack.last()
    }
}

/// `b1` keeps every block and edge of `b0`.
pub open spec fn keeps(b1: Seq<BasicBlock>, b0: Seq<BasicBlock>) -> bool {
    &&& b1.len() >= b0.len()
    &&& forall|a: BasicBlockId, b: BasicBlockId| edge(b0, a, b) ==> edge(b1, a, b)
}

impl<'a> CFGBuilder<'a> {
    /// The state of the builder, but for the graph's blocks.
    pub open spec fn same_state(self, other: Self) -> bool {
        &&& self.spec_function() == other.spec_function()
        &&& self.spec_current() == other.spec_current()
        &&& self.spec_loops() == other.spec_loops()
        &&& self.spec_next_value() == other.spec_next_value()
    }

    /// Visits `node`: the walk reaches every node below it and changes nothing, the
    /// graph included (the statement handlers are called by name, not from here).
    pub fn visit_node(&mut self, node: &'a AstNode<'a>)
        ensures
            *final(self) == *old(self),
        decreases node, 1nat,
    {
        self.default_visit_node(node);
    }

    /// Visits the children of `node`, in order.
    pub fn default_visit_node(&mut self, node: &'a AstNode<'a>)
        ensures
            *final(self) == *old(self),
        decreases node, 0nat,
    {
        let children = node.children();
        let mut i: usize = 0;
        while i < children.len()
            invariant
                i <= children@.len(),
                children@ == node.spec_children(),
                *self == *old(self),
            decreases children@.len() - i,
        {
            proof {
                node.lemma_child_decreases(i as int);
            }
            self.visit_node(children[i]);
            i = i + 1;
        }
    }

    /// Visits the statements of a block.
    pub fn visit_block(&mut self, node: &'a AstNode<'a>)
        ensures
            *final(self) == *old(self),
    {
        self.default_visit_node(node);
    }

    /// Visits the expression of an expression statement.
    pub fn visit_expression_statement(&mut self, node: &'a AstNode<'a>)
        ensures
            *final(self) == *old(self),
    {
        self.default_visit_node(node);
    }

    /// Visits the declarations of a variable statement.
    pub fn visit_variable_statement(&mut self, node: &'a AstNode<'a>)
        ensures
            *final(self) == *old(self),
    {
        self.default_visit_node(node);
    }

    /// An `if`: the current block branches on a fresh value to a new `then` block
    /// and a new `else` block, each of which jumps to a new merge block, where the
    /// walk goes on.
    pub fn visit_if(&mut self, node: &'a AstNode<'a>)
        requires
            old(self).wf(),
            old(self).room(3),
            old(self).spec_next_value() < u32::MAX,
        ensures
            final(self).wf(),
            keeps(final(self).blocks(), old(self).blocks()),
            final(self).blocks().len() == old(self).blocks().len() + 3,
            ({
                let c = old(self).spec_current();
                let n = old(self).blocks().len();
                let then_block = BasicBlockId(n as u32);
                let else_block = BasicBlockId((n + 1) as u32);
                let merge_block = BasicBlockId((n + 2) as u32);
                &&& terminator_of(final(self).blocks(), c) == Some(
                    Instruction::CondBr {
                        condition: ValueId(old(self).spec_next_value()),
                        true_target: then_block,
                        false_target: else_block,
                    },
                )
                &&& terminator_of(final(self).blocks(), then_block) == Some(Instruction::Br { target: merge_block })
                &&& terminator_of(final(self).blocks(), else_block) == Some(Instruction::Br { target: merge_block })
                &&& edge(final(self).blocks(), c, then_block)
                &&& edge(final(self).blocks(), c, else_block)
                &&& edge(final(self).blocks(), then_block, merge_block)
                &&& edge(final(self).blocks(), else_block, merge_block)
                &&& final(self).spec_current() == merge_block
            }),
            final(self).spec_loops() == old(self).spec_loops(),
            final(self).spec_next_value() == old(self).spec_next_value() + 1,
    {
        let ghost b0 = self.blocks();
        let cond_val = self.create_value();
        let then_block = self.create_block();
        let else_block = self.create_block();
        let merge_block = self.create_block();
        let c = self.current_block;
        let ghost b1 = self.blocks();
        proof {
            assert(b1.take(b0.len() as int) =~= b0);
            assert(b1[then_block.0 as int].terminator is None);
            assert(b1[else_block.0 as int].terminator is None);
            assert(b1[merge_block.0 as int].terminator is None);
            assert(b1[c.0 as int] == b0[c.0 as int]);
        }
        self.set_terminator(Instruction::CondBr { condition: cond_val, true_target: then_block, false_target: else_block });
        proof {
            assert(self.blocks()[then_block.0 as int] == b1[then_block.0 as int]);
            assert(self.blocks()[else_block.0 as int] == b1[else_block.0 as int]);
            assert(self.blocks()[merge_block.0 as int] == b1[merge_block.0 as int]);
        }
        let ghost e0 = self.blocks();
        self.add_edge(c, then_block);
        self.add_edge(c, else_block);
        proof {
            assert(self.blocks()[c.0 as int].terminator == e0[c.0 as int].terminator);
            assert(self.blocks()[then_block.0 as int].terminator == e0[then_block.0 as int].terminator);
            assert(self.blocks()[else_block.0 as int].terminator == e0[else_block.0 as int].terminator);
            assert(self.blocks()[merge_block.0 as int].terminator == e0[merge_block.0 as int].terminator);
        }
        self.set_current_block(then_block);
        let children = node.children();
        if children.len() > 1 {
            self.visit_node(children[1]);
        }
        let ghost b2 = self.blocks();
        assert(terminator_of(b2, then_block) is None);
        if self.function.cfg.get_block(then_block).unwrap().terminator.is_none() {
            self.set_terminator(Instruction::Br { target: merge_block });
            proof {
                assert(self.blocks()[c.0 as int] == b2[c.0 as int]);
                assert(self.blocks()[else_block.0 as int] == b2[else_block.0 as int]);
                assert(self.blocks()[merge_block.0 as int] == b2[merge_block.0 as int]);
            }
            let ghost e1 = self.blocks();
            self.add_edge(then_block, merge_block);
            proof {
                assert(self.blocks()[c.0 as int].terminator == e1[c.0 as int].terminator);
                assert(self.blocks()[then_block.0 as int].terminator == e1[then_block.0 as int].terminator);
                assert(self.blocks()[else_block.0 as int].terminator == e1[else_block.0 as int].terminator);
                assert(self.blocks()[merge_block.0 as int].terminator == e1[merge_block.0 as int].terminator);
            }
        }
        self.set_current_block(else_block);
        if children.len() > 2 {
            self.visit_node(children[2]);
        }
        let ghost b3 = self.blocks();
        assert(terminator_of(b3, else_block) is None);
        if self.function.cfg.get_block(else_block).unwrap().terminator.is_none() {
            self.set_terminator(Instruction::Br { target: merge_block });
            proof {
                assert(self.blocks()[c.0 as int] == b3[c.0 as int]);
                assert(self.blocks()[then_block.0 as int] == b3[then_block.0 as int]);
                assert(self.blocks()[merge_block.0 as int] == b3[merge_block.0 as int]);
            }
            let ghost e2 = self.blocks();
            self.add_edge(else_block, merge_block);
            proof {
                assert(self.blocks()[c.0 as int].terminator == e2[c.0 as int].terminator);
                assert(self.blocks()[then_block.0 as int].terminator == e2[then_block.0 as int].terminator);
                assert(self.blocks()[else_block.0 as int].terminator == e2[else_block.0 as int].terminator);
                assert(self.blocks()[merge_block.0 as int].terminator == e2[merge_block.0 as int].terminator);
            }
        }
        self.set_current_block(merge_block);
        proof {
            assert forall|a: BasicBlockId, b: BasicBlockId| edge(b0, a, b) implies edge(self.blocks(), a, b) by {
                assert(b1[a.0 as int] == b0[a.0 as int]);
                assert(edge(b1, a, b));
            }
        }
    }

    /// A `while` loop: the current block jumps to a new header, which branches on a
    /// fresh value to a new body or a new exit; the body jumps to a new latch, the
    /// latch back to the header, and the walk goes on in the exit block. Inside the
    /// body, `break` goes to the exit and `continue` to the latch.
    pub fn visit_while(&mut self, node: &'a AstNode<'a>)
        requires
            old(self).wf(),
            old(self).room(4),
            old(self).spec_next_value() < u32::MAX,
        ensures
            final(self).wf(),
            keeps(final(self).blocks(), old(self).blocks()),
            final(self).blocks().len() == old(self).blocks().len() + 4,
            ({
                let c = old(self).spec_current();
                let n = old(self).blocks().len();
                let header = BasicBlockId(n as u32);
                let body = BasicBlockId((n + 1) as u32);
                let latch = BasicBlockId((n + 2) as u32);
                let exit = BasicBlockId((n + 3) as u32);
                &&& terminator_of(final(self).blocks(), c) == Some(Instruction::Br { target: header })
                &&& terminator_of(final(self).blocks(), header) == Some(
                    Instruction::CondBr { condition: ValueId(old(self).spec_next_value()), true_target: body, false_target: exit },
                )
                &&& terminator_of(final(self).blocks(), body) == Some(Instruction::Br { target: latch })
                &&& terminator_of(final(self).blocks(), latch) == Some(Instruction::Br { target: header })
                &&& edge(final(self).blocks(), c, header)
                &&& edge(final(self).blocks(), header, body)
                &&& edge(final(self).blocks(), header, exit)
                &&& edge(final(self).blocks(), body, latch)
                &&& edge(final(self).blocks(), latch, header)
                &&& final(self).spec_current() == exit
            }),
            final(self).spec_loops() == old(self).spec_loops(),
            final(self).spec_next_value() == old(self).spec_next_value() + 1,
    {
        self.build_loop(node, 1)
    }

    /// A `for` loop: its initializer is walked in the current block, then the loop is
    /// laid out as a `while` loop whose latch also walks the update.
    pub fn visit_for(&mut self, node: &'a AstNode<'a>)
        requires
            old(self).wf(),
            old(self).room(4),
            old(self).spec_next_value() < u32::MAX,
        ensures
            final(self).wf(),
            keeps(final(self).blocks(), old(self).blocks()),
            final(self).blocks().len() == old(self).blocks().len() + 4,
            ({
                let c = old(self).spec_current();
                let n = old(self).blocks().len();
                let header = BasicBlockId(n as u32);
                let body = BasicBlockId((n + 1) as u32);
                let latch = BasicBlockId((n + 2) as u32);
                let exit = BasicBlockId((n + 3) as u32);
                &&& terminator_of(final(self).blocks(), c) == Some(Instruction::Br { target: header })
                &&& terminator_of(final(self).blocks(), header) == Some(
                    Instruction::CondBr { condition: ValueId(old(self).spec_next_value()), true_target: body, false_target: exit },
                )
                &&& terminator_of(final(self).blocks(), body) == Some(Instruction::Br { target: latch })
                &&& terminator_of(final(self).blocks(), latch) == Some(Instruction::Br { target: header })
                &&& edge(final(self).blocks(), c, header)
                &&& edge(final(self).blocks(), header, body)
                &&& edge(final(self).blocks(), header, exit)
                &&& edge(final(self).blocks(), body, latch)
                &&& edge(final(self).blocks(), latch, header)
                &&& final(self).spec_current() == exit
            }),
            final(self).spec_loops() == old(self).spec_loops(),
            final(self).spec_next_value() == old(self).spec_next_value() + 1,
    {
        let children = node.children();
        if children.len() > 0 {
            self.visit_node(children[0]);
        }
        self.build_loop(node, 2)
    }

    /// Lays out a loop whose body is child `body_index` of `node`; for a `for` loop
    /// the update (child 1) is walked in the latch.
    fn build_loop(&mut self, node: &'a AstNode<'a>, body_index: usize)
        requires
            old(self).wf(),
            old(self).room(4),
            old(self).spec_next_value() < u32::MAX,
        ensures
            final(self).wf(),
            keeps(final(self).blocks(), old(self).blocks()),
            final(self).blocks().len() == old(self).blocks().len() + 4,
            ({
                let c = old(self).spec_current();
                let n = old(self).blocks().len();
                let header = BasicBlockId(n as u32);
                let body = BasicBlockId((n + 1) as u32);
                let latch = BasicBlockId((n + 2) as u32);
                let exit = BasicBlockId((n + 3) as u32);
                &&& terminator_of(final(self).blocks(), c) == Some(Instruction::Br { target: header })
                &&& terminator_of(final(self).blocks(), header) == Some(
                    Instruction::CondBr { condition: ValueId(old(self).spec_next_value()), true_target: body, false_target: exit },
                )
                &&& terminator_of(final(self).blocks(), body) == Some(Instruction::Br { target: latch })
                &&& terminator_of(final(self).blocks(), latch) == Some(Instruction::Br { target: header })
                &&& edge(final(self).blocks(), c, header)
                &&& edge(final(self).blocks(), header, body)
                &&& edge(final(self).blocks(), header, exit)
                &&& edge(final(self).blocks(), body, latch)
                &&& edge(final(self).blocks(), latch, header)
                &&& final(self).spec_current() == exit
            }),
            final(self).spec_loops() == old(self).spec_loops(),
            final(self).spec_next_value() == old(self).spec_next_value() + 1,
    {
        let ghost b0 = self.blocks();
        let pre_header = self.current_block;
        let header = self.create_block();
        let body = self.create_block();
        let latch = self.create_block();
        let exit = self.create_block();
        let ghost b1 = self.blocks();
        proof {
            assert(b1.take(b0.len() as int) =~= b0);
            assert(b1[pre_header.0 as int] == b0[pre_header.0 as int]);
            assert(b1[header.0 as int].terminator is None);
            assert(b1[body.0 as int].terminator is None);
            assert(b1[latch.0 as int].terminator is None);
            assert(b1[exit.0 as int].terminator is None);
        }
        self.set_terminator(Instruction::Br { target: header });
        proof {
            assert(self.blocks()[header.0 as int] == b1[header.0 as int]);
            assert(self.blocks()[body.0 as int] == b1[body.0 as int]);
            assert(self.blocks()[latch.0 as int] == b1[latch.0 as int]);
            assert(self.blocks()[exit.0 as int] == b1[exit.0 as int]);
        }
        let ghost e0 = self.blocks();
        self.add_edge(pre_header, header);
        proof {
            assert(self.blocks()[pre_header.0 as int].terminator == e0[pre_header.0 as int].terminator);
            assert(self.blocks()[header.0 as int].terminator == e0[header.0 as int].terminator);
            assert(self.blocks()[body.0 as int].terminator == e0[body.0 as int].terminator);
            assert(self.blocks()[latch.0 as int].terminator == e0[latch.0 as int].terminator);
            assert(self.blocks()[exit.0 as int].terminator == e0[exit.0 as int].terminator);
        }
        self.push_loop(header, exit, latch);
        self.set_current_block(header);
        let cond_val = self.create_value();
        let ghost b2 = self.blocks();
        assert(terminator_of(b2, header) is None);
        self.set_terminator(Instruction::CondBr { condition: cond_val, true_target: body, false_target: exit });
        proof {
            assert(self.blocks()[pre_header.0 as int] == b2[pre_header.0 as int]);
            assert(self.blocks()[body.0 as int] == b2[body.0 as int]);
            assert(self.blocks()[latch.0 as int] == b2[latch.0 as int]);
            assert(self.blocks()[exit.0 as int] == b2[exit.0 as int]);
        }
        let ghost e1 = self.blocks();
        self.add_edge(header, body);
        self.add_edge(header, exit);
        proof {
            assert(self.blocks()[pre_header.0 as int].terminator == e1[pre_header.0 as int].terminator);
            assert(self.blocks()[header.0 as int].terminator == e1[header.0 as int].terminator);
            assert(self.blocks()[body.0 as int].terminator == e1[body.0 as int].terminator);
            assert(self.blocks()[latch.0 as int].terminator == e1[latch.0 as int].terminator);
            assert(self.blocks()[exit.0 as int].terminator == e1[exit.0 as int].terminator);
        }
        self.set_current_block(body);
        let children = node.children();
        if body_index < children.len() {
            self.visit_node(children[body_index]);
        }
        let ghost b3 = self.blocks();
        assert(terminator_of(b3, body) is None);
        if self.function.cfg.get_block(body).unwrap().terminator.is_none() {
            self.set_terminator(Instruction::Br { target: latch });
            proof {
                assert(self.blocks()[pre_header.0 as int] == b3[pre_header.0 as int]);
                assert(self.blocks()[header.0 as int] == b3[header.0 as int]);
                assert(self.blocks()[latch.0 as int] == b3[latch.0 as int]);
                assert(self.blocks()[exit.0 as int] == b3[exit.0 as int]);
            }
            let ghost e2 = self.blocks();
            self.add_edge(body, latch);
            proof {
                assert(self.blocks()[pre_header.0 as int].terminator == e2[pre_header.0 as int].terminator);
                assert(self.blocks()[header.0 as int].terminator == e2[header.0 as int].terminator);
                assert(self.blocks()[body.0 as int].terminator == e2[body.0 as int].terminator);
                assert(self.blocks()[latch.0 as int].terminator == e2[latch.0 as int].terminator);
                assert(self.blocks()[exit.0 as int].terminator == e2[exit.0 as int].terminator);
            }
        }
        self.set_current_block(latch);
        if body_index == 2 && children.len() > 1 {
            self.visit_node(children[1]);
        }
        let ghost b4 = self.blocks();
        assert(terminator_of(b4, latch) is None);
        self.set_terminator(Instruction::Br { target: header });
        proof {
            assert(self.blocks()[pre_header.0 as int] == b4[pre_header.0 as int]);
            assert(self.blocks()[header.0 as int] == b4[header.0 as int]);
            assert(self.blocks()[body.0 as int] == b4[body.0 as int]);
            assert(self.blocks()[exit.0 as int] == b4[exit.0 as int]);
        }
        let ghost e3 = self.blocks();
        self.add_edge(latch, header);
        proof {
            assert(self.blocks()[pre_header.0 as int].terminator == e3[pre_header.0 as int].terminator);
            assert(self.blocks()[header.0 as int].terminator == e3[header.0 as int].terminator);
            assert(self.blocks()[body.0 as int].terminator == e3[body.0 as int].terminator);
            assert(self.blocks()[latch.0 as int].terminator == e3[latch.0 as int].terminator);
            assert(self.blocks()[exit.0 as int].terminator == e3[exit.0 as int].terminator);
        }
        self.pop_loop();
        self.set_current_block(exit);
        proof {
            assert(self.spec_loops() =~= old(self).spec_loops());
            assert forall|a: BasicBlockId, b: BasicBlockId| edge(b0, a, b) implies edge(self.blocks(), a, b) by {
                assert(b1[a.0 as int] == b0[a.0 as int]);
                assert(edge(b1, a, b));
            }
        }
    }

    /// A `return`: the current block returns, with an edge to the exit block, and the
    /// walk goes on in a new, unreachable block.
    pub fn visit_return(&mut self, node: &'a AstNode<'a>)
        requires
            old(self).wf(),
            old(self).room(1),
        ensures
            final(self).wf(),
            keeps(final(self).blocks(), old(self).blocks()),
            final(self).blocks().len() == old(self).blocks().len() + 1,
            terminator_of(final(self).blocks(), old(self).spec_current()) == Some(Instruction::Ret { value: None }),
            edge(final(self).blocks(), old(self).spec_current(), old(self).spec_function().cfg.exit),
            final(self).spec_current() == BasicBlockId(old(self).blocks().len() as u32),
            final(self).spec_loops() == old(self).spec_loops(),
            final(self).spec_next_value() == old(self).spec_next_value(),
    {
        self.set_terminator(Instruction::Ret { value: None });
        let exit_block = self.function.exit_block();
        let c = self.current_block;
        let ghost e0 = self.blocks();
        self.add_edge(c, exit_block);
        let ghost e1 = self.blocks();
        assert(e1[c.0 as int].terminator == e0[c.0 as int].terminator);
        self.jump_to_fresh_block();
        assert(self.blocks()[c.0 as int] == e1[c.0 as int]);
    }

    /// Continues in a fresh block, which nothing reaches.
    fn jump_to_fresh_block(&mut self)
        requires
            old(self).spec_function().cfg.wf(),
            old(self).room(1),
            forall|i: int|
                0 <= i < old(self).spec_loops().len() ==> has_block(old(self).blocks(), (#[trigger] old(self).spec_loops()[i]).exit)
                    && has_block(old(self).blocks(), old(self).spec_loops()[i].continue_block),
        ensures
            final(self).wf(),
            keeps(final(self).blocks(), old(self).blocks()),
            final(self).blocks().drop_last() == old(self).blocks(),
            final(self).blocks().len() == old(self).blocks().len() + 1,
            final(self).spec_current() == BasicBlockId(old(self).blocks().len() as u32),
            final(self).spec_loops() == old(self).spec_loops(),
            final(self).spec_next_value() == old(self).spec_next_value(),
            final(self).spec_function().cfg.exit == old(self).spec_function().cfg.exit,
    {
        let ghost b0 = self.blocks();
        let dead_block = self.create_block();
        self.set_current_block(dead_block);
        proof {
            let b1 = self.blocks();
            assert(b1.drop_last() =~= b0);
            assert forall|a: BasicBlockId, b: BasicBlockId| edge(b0, a, b) implies edge(b1, a, b) by {
                assert(b1[a.0 as int] == b0[a.0 as int]);
            }
        }
    }

    /// A `break`: inside a loop, the current block jumps to the loop's exit and the
    /// walk goes on in a new, unreachable block; outside any loop nothing happens.
    pub fn visit_break(&mut self, node: &'a AstNode<'a>)
        requires
            old(self).wf(),
            old(self).room(1),
        ensures
            final(self).wf(),
            keeps(final(self).blocks(), old(self).blocks()),
            final(self).spec_loops() == old(self).spec_loops(),
            final(self).spec_next_value() == old(self).spec_next_value(),
            old(self).spec_loops().len() == 0 ==> final(self).same_state(*old(self)),
            old(self).spec_loops().len() > 0 ==> {
                let target = old(self).spec_loops().last().exit;
                &&& terminator_of(final(self).blocks(), old(self).spec_current()) == Some(Instruction::Br { target })
                &&& edge(final(self).blocks(), old(self).spec_current(), target)
                &&& final(self).spec_current() == BasicBlockId(old(self).blocks().len() as u32)
            },
    {
        let target = match self.current_loop() {
            Some(ctx) => Some(ctx.exit),
            None => None,
        };
        self.jump_out(target);
    }

    /// A `continue`: inside a loop, the current block jumps to the loop's continue
    /// block and the walk goes on in a new, unreachable block; outside any loop
    /// nothing happens.
    pub fn visit_continue(&mut self, node: &'a AstNode<'a>)
        requires
            old(self).wf(),
            old(self).room(1),
        ensures
            final(self).wf(),
            keeps(final(self).blocks(), old(self).blocks()),
            final(self).spec_loops() == old(self).spec_loops(),
            final(self).spec_next_value() == old(self).spec_next_value(),
            old(self).spec_loops().len() == 0 ==> final(self).same_state(*old(self)),
            old(self).spec_loops().len() > 0 ==> {
                let target = old(self).spec_loops().last().continue_block;
                &&& terminator_of(final(self).blocks(), old(self).spec_current()) == Some(Instruction::Br { target })
                &&& edge(final(self).blocks(), old(self).spec_current(), target)
                &&& final(self).spec_current() == BasicBlockId(old(self).blocks().len() as u32)
            },
    {
        let target = match self.current_loop() {
            Some(ctx) => Some(ctx.continue_block),
            None => None,
        };
        self.jump_out(target);
    }

    /// Jumps from the current block to `target`, if given, and goes on in a fresh
    /// block.
    fn jump_out(&mut self, target: Option<BasicBlockId>)
        requires
            old(self).wf(),
            old(self).room(1),
        ensures
            final(self).wf(),
            keeps(final(self).blocks(), old(self).blocks()),
            final(self).spec_loops() == old(self).spec_loops(),
            final(self).spec_next_value() == old(self).spec_next_value(),
            target is None ==> final(self).same_state(*old(self)),
            target matches Some(t) ==> {
                &&& terminator_of(final(self).blocks(), old(self).spec_current()) == Some(Instruction::Br { target: t })
                &&& edge(final(self).blocks(), old(self).spec_current(), t)
                &&& final(self).spec_current() == BasicBlockId(old(self).blocks().len() as u32)
            },
    {
        proof {
            assert(self.blocks().len() >= self.blocks().len());
        }
        if let Some(t) = target {
            self.set_terminator(Instruction::Br { target: t });
            let c = self.current_block;
            let ghost e0 = self.blocks();
            self.add_edge(c, t);
            let ghost e1 = self.blocks();
            assert(e1[c.0 as int].terminator == e0[c.0 as int].terminator);
            self.jump_to_fresh_block();
            assert(self.blocks()[c.0 as int] == e1[c.0 as int]);
        } else {
            proof {
                assert(self.blocks().len() >= old(self).blocks().len());
            }
        }
    }

    /// Walks the function body `node`, then makes sure the exit block returns.
    pub fn build(&mut self, node: &'a AstNode<'a>)
        requires
            old(self).spec_function().cfg.wf(),
        ensures
            final(self).spec_function().cfg.wf(),
            keeps(final(self).blocks(), old(self).blocks()),
            final(self).blocks().len() == old(self).blocks().len(),
            ({
                let exit = old(self).spec_function().cfg.exit;
                terminator_of(final(self).blocks(), exit) == if terminator_of(old(self).blocks(), exit) is None {
                    Some(Instruction::Ret { value: None })
                } else {
                    terminator_of(old(self).blocks(), exit)
                }
            }),
    {
        self.visit_node(node);
        let exit_block = self.function.exit_block();
        if self.function.cfg.get_block(exit_block).unwrap().terminator.is_none() {
            self.set_current_block(exit_block);
            self.set_terminator(Instruction::Ret { value: None });
        }
    }
}

} // verus!
