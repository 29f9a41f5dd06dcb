use cfg_construct::{BasicBlock, BlockId, Instruction};

#[test]
fn test_block_creation() {
    let block = BasicBlock::new(BlockId(0));
    assert!(block.is_empty());
    assert_eq!(block.id, BlockId::entry());
}

#[test]
fn test_push_instruction() {
    let mut block = BasicBlock::new(BlockId(0));
    block.push(Instruction::Assign { target: "x".into(), value: "1".into() });
    assert_eq!(block.len(), 1);
}

#[test]
fn test_terminated() {
    let mut block = BasicBlock::new(BlockId(0));
    assert!(!block.is_terminated());
    block.push(Instruction::Return { value: None });
    assert!(block.is_terminated());
}

#[test]
fn test_predecessor_successor() {
    let mut block = BasicBlock::new(BlockId(0));
    block.add_successor(BlockId(1));
    block.add_predecessor(BlockId(2));
    assert_eq!(block.successors.len(), 1);
    assert_eq!(block.predecessors.len(), 1);
}

#[test]
fn test_no_duplicate_edges() {
    let mut block = BasicBlock::new(BlockId(0));
    block.add_successor(BlockId(1));
    block.add_successor(BlockId(1));
    assert_eq!(block.successors.len(), 1);
}

#[test]
fn block_id_index_is_raw_value() {
    assert_eq!(BlockId(7).index(), 7);
    assert_eq!(BlockId::entry().index(), 0);
}

#[test]
fn terminators_are_branch_jump_return() {
    let mut block = BasicBlock::new(BlockId(3));
    block.push(Instruction::Nop);
    assert!(!block.is_terminated());
    block.push(Instruction::Branch { cond: "c".into() });
    assert!(block.is_terminated());
    block.push(Instruction::BinOp {
        dest: "d".into(),
        op: "+".into(),
        lhs: "a".into(),
        rhs: "b".into(),
    });
    assert!(!block.is_terminated());
    block.push(Instruction::Jump { target: BlockId(1) });
    assert!(block.is_terminated());
    block.push(Instruction::Phi { dest: "p".into(), sources: vec![(BlockId(1), "x".into())] });
    assert!(!block.is_terminated());
    assert_eq!(block.len(), 5);
    assert!(!block.is_empty());
}

#[test]
fn edges_keep_insertion_order_without_repeats() {
    let mut block = BasicBlock::new(BlockId(0));
    block.add_successor(BlockId(4));
    block.add_successor(BlockId(2));
    block.add_successor(BlockId(4));
    block.add_successor(BlockId(1));
    assert_eq!(block.successors, vec![BlockId(4), BlockId(2), BlockId(1)]);
    block.add_predecessor(BlockId(9));
    block.add_predecessor(BlockId(9));
    assert_eq!(block.predecessors, vec![BlockId(9)]);
    assert!(block.instructions.is_empty());
}
