use bumpalo::Bump;
use rustify_ts::parser::ast::node::NodeBuilder;
use rustify_ts::parser::ast::types::{NodeId, NodeKind};
use rustify_ts::semantic::flow::builder::CFGBuilder;
use rustify_ts::semantic::flow::cfg::{BasicBlock, BasicBlockId, ControlFlowGraph};
use rustify_ts::semantic::flow::dominance::DominatorTree;
use rustify_ts::semantic::ir::function::Function;
use rustify_ts::semantic::ir::instruction::{BinaryOp, Instruction, ValueId};
use rustify_ts::semantic::symbol::symbol::SymbolId;
use rustify_ts::semantic::types::representation::TypeId;

#[test]
fn test_basic_block_id_display() {
    let bb_id = BasicBlockId(42);
    assert_eq!(bb_id.to_string(), "bb42");
}

#[test]
fn test_basic_block_creation() {
    let bb_id = BasicBlockId(0);
    let mut block = BasicBlock::new(bb_id);

    assert_eq!(block.id, bb_id);
    assert!(block.instructions.is_empty());
    assert!(block.terminator.is_none());
    assert!(block.predecessors.is_empty());
    assert!(block.successors.is_empty());
    assert!(!block.has_terminator());

    // Add an instruction
    let inst = Instruction::Binary {
        op: BinaryOp::Add,
        left: ValueId(0),
        right: ValueId(1),
    };
    block.add_instruction(inst.clone());
    assert_eq!(block.instructions.len(), 1);
    assert_eq!(block.instructions[0], inst);

    // Set terminator
    let terminator = Instruction::Br { target: BasicBlockId(1) };
    block.set_terminator(terminator.clone());
    assert_eq!(block.terminator, Some(terminator));
    assert!(block.has_terminator());
}

#[test]
fn test_cfg_creation() {
    let mut cfg = ControlFlowGraph::new();

    // Entry and exit blocks are created automatically
    assert_eq!(cfg.block_count(), 2);

    let entry = cfg.entry;
    let exit = cfg.exit;
    assert_ne!(entry, exit);

    // Create a new block
    let bb1 = cfg.create_block();
    assert_eq!(cfg.block_count(), 3);
    assert_eq!(bb1, BasicBlockId(2));

    // Add edges
    cfg.add_edge(entry, bb1);
    cfg.add_edge(bb1, exit);

    let entry_block = cfg.get_block(entry).unwrap();
    assert_eq!(entry_block.successors, vec![bb1]);

    let bb1_block = cfg.get_block(bb1).unwrap();
    assert_eq!(bb1_block.predecessors, vec![entry]);
    assert_eq!(bb1_block.successors, vec![exit]);

    let exit_block = cfg.get_block(exit).unwrap();
    assert_eq!(exit_block.predecessors, vec![bb1]);
}

#[test]
fn test_cfg_edge_duplication() {
    let mut cfg = ControlFlowGraph::new();
    let entry = cfg.entry;
    let exit = cfg.exit;

    // Add the same edge multiple times
    cfg.add_edge(entry, exit);
    cfg.add_edge(entry, exit);
    cfg.add_edge(entry, exit);

    // Edge should only appear once
    let entry_block = cfg.get_block(entry).unwrap();
    assert_eq!(entry_block.successors, vec![exit]);

    let exit_block = cfg.get_block(exit).unwrap();
    assert_eq!(exit_block.predecessors, vec![entry]);
}

#[test]
fn test_dominator_tree_diamond() {
    let mut cfg = ControlFlowGraph::new();
    let entry = cfg.entry;
    let exit = cfg.exit;

    // Diamond-shaped CFG
    let bb1 = cfg.create_block();
    let bb2 = cfg.create_block();
    let bb3 = cfg.create_block();

    cfg.add_edge(entry, bb1);
    cfg.add_edge(entry, bb2);
    cfg.add_edge(bb1, bb3);
    cfg.add_edge(bb2, bb3);
    cfg.add_edge(bb3, exit);

    let dt = DominatorTree::compute(&cfg);

    // Entry dominates everything
    assert!(dt.dominates(entry, entry));
    assert!(dt.dominates(entry, bb1));
    assert!(dt.dominates(entry, bb2));
    assert!(dt.dominates(entry, bb3));
    assert!(dt.dominates(entry, exit));

    // bb1 only dominates itself
    assert!(dt.dominates(bb1, bb1));
    assert!(!dt.dominates(bb1, bb2));
    assert!(!dt.dominates(bb1, bb3));
    assert!(!dt.dominates(bb1, exit));

    // bb2 only dominates itself
    assert!(dt.dominates(bb2, bb2));
    assert!(!dt.dominates(bb2, bb1));
    assert!(!dt.dominates(bb2, bb3));
    assert!(!dt.dominates(bb2, exit));

    // bb3 dominates exit
    assert!(dt.dominates(bb3, bb3));
    assert!(dt.dominates(bb3, exit));
    assert!(!dt.dominates(bb3, bb1));
    assert!(!dt.dominates(bb3, bb2));

    // Exit only dominates itself
    assert!(dt.dominates(exit, exit));

    // Test common dominator
    let common = dt.common_dominator(bb1, bb2);
    assert_eq!(common, Some(entry));
}

#[test]
fn tests_test_dominator_tree_loop() {
    let mut cfg = ControlFlowGraph::new();
    let entry = cfg.entry;
    let exit = cfg.exit;

    // Loop structure
    let header = cfg.create_block();
    let body = cfg.create_block();
    let latch = cfg.create_block();

    cfg.add_edge(entry, header);
    cfg.add_edge(header, body);
    cfg.add_edge(header, exit);
    cfg.add_edge(body, latch);
    cfg.add_edge(latch, header);

    let dt = DominatorTree::compute(&cfg);

    // Entry dominates everything
    assert!(dt.dominates(entry, header));
    assert!(dt.dominates(entry, body));
    assert!(dt.dominates(entry, latch));
    assert!(dt.dominates(entry, exit));

    // Header dominates body and latch
    assert!(dt.dominates(header, body));
    assert!(dt.dominates(header, latch));
    assert!(dt.dominates(header, exit));

    // Body dominates latch
    assert!(dt.dominates(body, latch));
    assert!(!dt.dominates(body, header));
    assert!(!dt.dominates(body, exit));

    // Latch doesn't dominate anyone except itself
    assert!(dt.dominates(latch, latch));
    assert!(!dt.dominates(latch, header));
    assert!(!dt.dominates(latch, exit));

    // Immediate dominators
    assert_eq!(dt.idom(header), Some(entry));
    assert_eq!(dt.idom(body), Some(header));
    assert_eq!(dt.idom(latch), Some(body));
    assert_eq!(dt.idom(exit), Some(header));
}

#[test]
fn test_cfg_builder_creation() {
    let mut func = Function::new(
        SymbolId::new(1),
        "test".to_string(),
        Vec::new(),
        TypeId::new(0)
    );

    let builder = CFGBuilder::new(&mut func);
    // Builder is initialized with entry block as current
    assert_eq!(func.cfg.block_count(), 2); // Entry + Exit
}


#[test]
fn test_dominator_tree_simple() {
    let mut cfg = ControlFlowGraph::new();
    let entry = cfg.entry;
    let exit = cfg.exit;

    // Create a simple diamond CFG:
    // entry -> bb1 -> bb2 -> exit
    //       -> bb3 ->
    let bb1 = cfg.create_block();
    let bb2 = cfg.create_block();
    let bb3 = cfg.create_block();

    cfg.add_edge(entry, bb1);
    cfg.add_edge(entry, bb3);
    cfg.add_edge(bb1, bb2);
    cfg.add_edge(bb3, bb2);
    cfg.add_edge(bb2, exit);

    let dt = DominatorTree::compute(&cfg);

    // Entry dominates everything
    assert!(dt.dominates(entry, entry));
    assert!(dt.dominates(entry, bb1));
    assert!(dt.dominates(entry, bb3));
    assert!(dt.dominates(entry, bb2));
    assert!(dt.dominates(entry, exit));

    // bb1 only dominates itself
    assert!(dt.dominates(bb1, bb1));
    assert!(!dt.dominates(bb1, bb3));
    assert!(!dt.dominates(bb1, bb2));

    // bb3 only dominates itself
    assert!(dt.dominates(bb3, bb3));
    assert!(!dt.dominates(bb3, bb1));
    assert!(!dt.dominates(bb3, bb2));

    // bb2 dominates exit
    assert!(dt.dominates(bb2, bb2));
    assert!(dt.dominates(bb2, exit));

    // Exit only dominates itself
    assert!(dt.dominates(exit, exit));
}

#[test]
fn dominance_test_dominator_tree_loop() {
    let mut cfg = ControlFlowGraph::new();
    let entry = cfg.entry;
    let exit = cfg.exit;

    // Create a CFG with a loop:
    // entry -> header -> body -> latch -> header
    //                          -> exit
    let header = cfg.create_block();
    let body = cfg.create_block();
    let latch = cfg.create_block();

    cfg.add_edge(entry, header);
    cfg.add_edge(header, body);
    cfg.add_edge(header, exit);
    cfg.add_edge(body, latch);
    cfg.add_edge(latch, header);
    cfg.add_edge(latch, exit);

    let dt = DominatorTree::compute(&cfg);

    // Entry dominates everything
    assert!(dt.dominates(entry, header));
    assert!(dt.dominates(entry, body));
    assert!(dt.dominates(entry, latch));
    assert!(dt.dominates(entry, exit));

    // Header dominates body, latch, and exit
    assert!(dt.dominates(header, body));
    assert!(dt.dominates(header, latch));
    assert!(dt.dominates(header, exit));

    // Body dominates latch
    assert!(dt.dominates(body, latch));
    assert!(!dt.dominates(body, header));
    assert!(!dt.dominates(body, exit));

    // Latch doesn't dominate anything except itself
    assert!(dt.dominates(latch, latch));
    assert!(!dt.dominates(latch, header));
    assert!(!dt.dominates(latch, exit));
}

#[test]
fn dominator_depths_children_and_strictness() {
    let mut cfg = ControlFlowGraph::new();
    let entry = cfg.entry;
    let exit = cfg.exit;
    let a = cfg.create_block();
    let b = cfg.create_block();
    cfg.add_edge(entry, a);
    cfg.add_edge(a, b);
    cfg.add_edge(a, exit);
    let dt = DominatorTree::compute(&cfg);
    assert_eq!(dt.idom(entry), Some(entry));
    assert_eq!(dt.depth(entry), Some(0));
    assert_eq!(dt.depth(a), Some(1));
    assert_eq!(dt.depth(b), Some(2));
    assert_eq!(dt.children(a).len(), 2);
    assert!(dt.strictly_dominates(a, b));
    assert!(!dt.strictly_dominates(b, b));
    assert_eq!(dt.common_dominator(b, exit), Some(a));
    // An unreachable block has no dominator information.
    let mut cfg2 = ControlFlowGraph::new();
    let lone = cfg2.create_block();
    let dt2 = DominatorTree::compute(&cfg2);
    assert_eq!(dt2.idom(lone), None);
    assert_eq!(dt2.depth(lone), None);
}

#[test]
fn cfg_builder_builds_if_and_loops() {
    let arena = Bump::new();
    let builder = NodeBuilder::new(&arena);
    let cond = builder.alloc_node(NodeKind::This);
    let then_branch = builder.alloc_node(NodeKind::Return { value: None });
    let if_node = builder.alloc_with_children(
        NodeKind::If { condition: NodeId::new(0), then_statement: NodeId::new(1), else_statement: None },
        vec![cond, then_branch],
    );
    let brk = builder.alloc_node(NodeKind::Break { label: None });
    let while_node =
        builder.alloc_with_children(NodeKind::While { condition: NodeId::new(0), body: NodeId::new(1) }, vec![cond, brk]);
    let body = builder.alloc_with_children(NodeKind::Block { statements: vec![] }, vec![]);
    let mut func = Function::new(SymbolId::new(0), "f".to_string(), Vec::new(), TypeId::new(0));
    {
        let mut cfg_builder = CFGBuilder::new(&mut func);
        cfg_builder.visit_if(if_node);
        cfg_builder.visit_while(while_node);
        cfg_builder.build(body);
    }
    assert!(func.cfg.block_count() > 2);
    let exit = func.cfg.exit;
    let exit_block = func.cfg.get_block(exit).unwrap();
    assert_eq!(exit_block.terminator, Some(Instruction::Ret { value: None }));
}
