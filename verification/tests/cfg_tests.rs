use cfg_construct::{BlockId, Cfg, Instruction};

#[test]
fn test_cfg_creation() {
    let cfg = Cfg::new();
    assert_eq!(cfg.len(), 1);
    assert_eq!(cfg.entry(), BlockId::entry());
}

#[test]
fn test_add_block() {
    let mut cfg = Cfg::new();
    let b1 = cfg.add_block();
    assert_eq!(b1, BlockId(1));
    assert_eq!(cfg.len(), 2);
}

#[test]
fn test_add_edge() {
    let mut cfg = Cfg::new();
    let b1 = cfg.add_block();
    cfg.add_edge(BlockId::entry(), b1);
    assert_eq!(cfg.get(BlockId::entry()).unwrap().successors.len(), 1);
    assert_eq!(cfg.get(b1).unwrap().predecessors.len(), 1);
}

#[test]
fn test_reverse_postorder() {
    let mut cfg = Cfg::new();
    let b1 = cfg.add_block();
    let b2 = cfg.add_block();
    cfg.add_edge(BlockId::entry(), b1);
    cfg.add_edge(b1, b2);
    let rpo = cfg.reverse_postorder();
    assert_eq!(rpo[0], BlockId::entry());
}

#[test]
fn test_exit_blocks() {
    let mut cfg = Cfg::new();
    cfg.get_mut(BlockId::entry()).unwrap().push(Instruction::Return { value: None });
    let exits = cfg.exit_blocks();
    assert!(exits.contains(&BlockId::entry()));
}

#[test]
fn default_is_new() {
    let cfg = Cfg::default();
    assert_eq!(cfg.len(), 1);
    assert!(!cfg.is_empty());
    assert_eq!(cfg.entry(), BlockId(0));
}

#[test]
fn get_outside_is_none() {
    let mut cfg = Cfg::new();
    assert!(cfg.get(BlockId(1)).is_none());
    assert!(cfg.get_mut(BlockId(5)).is_none());
    assert_eq!(cfg.blocks().len(), 1);
    assert_eq!(cfg.blocks()[0].id, BlockId(0));
}

#[test]
fn edge_to_missing_block_is_recorded_on_source_only() {
    let mut cfg = Cfg::new();
    cfg.add_edge(BlockId(0), BlockId(3));
    assert_eq!(cfg.get(BlockId(0)).unwrap().successors, vec![BlockId(3)]);
    cfg.add_edge(BlockId(4), BlockId(0));
    assert_eq!(cfg.get(BlockId(0)).unwrap().predecessors, vec![BlockId(4)]);
}

#[test]
fn reverse_postorder_of_diamond() {
    let mut cfg = Cfg::new();
    let left = cfg.add_block();
    let right = cfg.add_block();
    let merge = cfg.add_block();
    let unreachable = cfg.add_block();
    cfg.add_edge(BlockId(0), left);
    cfg.add_edge(BlockId(0), right);
    cfg.add_edge(left, merge);
    cfg.add_edge(right, merge);
    cfg.add_edge(unreachable, merge);
    let rpo = cfg.reverse_postorder();
    // depth first: 0 -> left -> merge, then right
    assert_eq!(rpo, vec![BlockId(0), right, left, merge]);
    assert!(!rpo.contains(&unreachable));
}

#[test]
fn reverse_postorder_with_cycle() {
    let mut cfg = Cfg::new();
    let h = cfg.add_block();
    let b = cfg.add_block();
    let exit = cfg.add_block();
    cfg.add_edge(BlockId(0), h);
    cfg.add_edge(h, b);
    cfg.add_edge(b, h);
    cfg.add_edge(h, exit);
    assert_eq!(cfg.reverse_postorder(), vec![BlockId(0), h, exit, b]);
}

#[test]
fn exit_blocks_in_block_order() {
    let mut cfg = Cfg::new();
    let b1 = cfg.add_block();
    let b2 = cfg.add_block();
    let b3 = cfg.add_block();
    cfg.add_edge(BlockId(0), b1);
    cfg.add_edge(b1, b3);
    assert_eq!(cfg.exit_blocks(), vec![b2, b3]);
}

#[test]
fn reverse_postorder_is_topological_on_acyclic_graph() {
    // 0 -> 2, 0 -> 1, 1 -> 3, 2 -> 3, 2 -> 4, 3 -> 4
    let mut cfg = Cfg::new();
    for _ in 0..4 {
        cfg.add_block();
    }
    cfg.add_edge(BlockId(0), BlockId(2));
    cfg.add_edge(BlockId(0), BlockId(1));
    cfg.add_edge(BlockId(1), BlockId(3));
    cfg.add_edge(BlockId(2), BlockId(3));
    cfg.add_edge(BlockId(2), BlockId(4));
    cfg.add_edge(BlockId(3), BlockId(4));
    let rpo = cfg.reverse_postorder();
    assert_eq!(rpo, vec![BlockId(0), BlockId(1), BlockId(2), BlockId(3), BlockId(4)]);
    let pos = |b: BlockId| rpo.iter().position(|x| *x == b).unwrap();
    for block in cfg.blocks() {
        for s in &block.successors {
            assert!(pos(block.id) < pos(*s));
        }
    }
}

#[test]
fn get_mut_changes_only_that_block() {
    let mut cfg = Cfg::new();
    let b1 = cfg.add_block();
    cfg.get_mut(b1).unwrap().push(Instruction::Nop);
    assert_eq!(cfg.get(b1).unwrap().len(), 1);
    assert_eq!(cfg.get(BlockId(0)).unwrap().len(), 0);
}

#[test]
fn edges_are_recorded_on_both_ends() {
    let mut cfg = Cfg::new();
    let b1 = cfg.add_block();
    let b2 = cfg.add_block();
    cfg.add_edge(b1, b2);
    cfg.add_edge(b1, b2);
    cfg.add_edge(BlockId(0), b2);
    assert_eq!(cfg.get(b1).unwrap().successors, vec![b2]);
    assert_eq!(cfg.get(b2).unwrap().predecessors, vec![b1, BlockId(0)]);
    assert!(cfg.get(b2).unwrap().successors.is_empty());
}

#[test]
fn returning_block_with_successor_is_an_exit() {
    let mut cfg = Cfg::new();
    let b1 = cfg.add_block();
    let b2 = cfg.add_block();
    cfg.add_edge(BlockId(0), b1);
    cfg.add_edge(b1, b2);
    cfg.get_mut(BlockId(0)).unwrap().push(Instruction::Return { value: None });
    cfg.add_edge(b2, b1);
    assert_eq!(cfg.exit_blocks(), vec![BlockId(0)]);
    cfg.get_mut(b2).unwrap().push(Instruction::Nop);
    cfg.get_mut(b1).unwrap().push(Instruction::Jump { target: b2 });
    assert_eq!(cfg.exit_blocks(), vec![BlockId(0)]);
}
