use cfg_construct::{BlockId, Cfg, DominanceTree};

fn linear_cfg() -> Cfg {
    let mut cfg = Cfg::new();
    let b1 = cfg.add_block();
    let b2 = cfg.add_block();
    cfg.add_edge(BlockId::entry(), b1);
    cfg.add_edge(b1, b2);
    cfg
}

#[test]
fn test_linear_dominance() {
    let cfg = linear_cfg();
    let dom = DominanceTree::compute(&cfg);
    assert!(dom.dominates(BlockId::entry(), BlockId(1)));
    assert!(dom.dominates(BlockId::entry(), BlockId(2)));
    assert!(dom.dominates(BlockId(1), BlockId(2)));
    assert!(!dom.dominates(BlockId(2), BlockId(1)));
}

#[test]
fn test_idom() {
    let cfg = linear_cfg();
    let dom = DominanceTree::compute(&cfg);
    assert_eq!(dom.idom(BlockId(1)), Some(BlockId::entry()));
    assert_eq!(dom.idom(BlockId(2)), Some(BlockId(1)));
}

#[test]
fn test_entry_has_no_idom() {
    let cfg = Cfg::new();
    let dom = DominanceTree::compute(&cfg);
    assert_eq!(dom.idom(BlockId::entry()), None);
}

#[test]
fn test_dominated_by() {
    let cfg = linear_cfg();
    let dom = DominanceTree::compute(&cfg);
    let dominated = dom.dominated_by(BlockId::entry());
    assert!(dominated.contains(&BlockId(1)));
    assert!(dominated.contains(&BlockId(2)));
}

#[test]
fn test_diamond_cfg() {
    let mut cfg = Cfg::new();
    let left = cfg.add_block();
    let right = cfg.add_block();
    let merge = cfg.add_block();
    cfg.add_edge(BlockId::entry(), left);
    cfg.add_edge(BlockId::entry(), right);
    cfg.add_edge(left, merge);
    cfg.add_edge(right, merge);
    let dom = DominanceTree::compute(&cfg);
    assert!(dom.dominates(BlockId::entry(), merge));
}

fn diamond() -> Cfg {
    let mut cfg = Cfg::new();
    let left = cfg.add_block();
    let right = cfg.add_block();
    let merge = cfg.add_block();
    cfg.add_edge(BlockId(0), left);
    cfg.add_edge(BlockId(0), right);
    cfg.add_edge(left, merge);
    cfg.add_edge(right, merge);
    cfg
}

#[test]
fn diamond_sides_do_not_dominate_merge() {
    let dom = DominanceTree::compute(&diamond());
    assert!(!dom.dominates(BlockId(1), BlockId(3)));
    assert!(!dom.dominates(BlockId(2), BlockId(3)));
    assert_eq!(dom.idom(BlockId(3)), Some(BlockId(0)));
    assert_eq!(dom.children(BlockId(0)), vec![BlockId(1), BlockId(2), BlockId(3)]);
    assert_eq!(dom.children(BlockId(1)), Vec::<BlockId>::new());
    assert_eq!(dom.dominated_by(BlockId(0)), vec![BlockId(1), BlockId(2), BlockId(3)]);
    assert_eq!(dom.dominated_by(BlockId(1)), Vec::<BlockId>::new());
}

#[test]
fn dominance_is_reflexive_and_entry_dominates_all() {
    let cfg = diamond();
    let dom = DominanceTree::compute(&cfg);
    for i in 0..4 {
        assert!(dom.dominates(BlockId(i), BlockId(i)));
        assert!(dom.dominates(BlockId(0), BlockId(i)));
    }
}

#[test]
fn idom_chain_in_loop() {
    // 0 -> 1 -> 2 -> 3, 2 -> 1 (back edge), 1 -> 4
    let mut cfg = Cfg::new();
    for _ in 0..4 {
        cfg.add_block();
    }
    cfg.add_edge(BlockId(0), BlockId(1));
    cfg.add_edge(BlockId(1), BlockId(2));
    cfg.add_edge(BlockId(2), BlockId(3));
    cfg.add_edge(BlockId(2), BlockId(1));
    cfg.add_edge(BlockId(1), BlockId(4));
    let dom = DominanceTree::compute(&cfg);
    assert_eq!(dom.idom(BlockId(1)), Some(BlockId(0)));
    assert_eq!(dom.idom(BlockId(2)), Some(BlockId(1)));
    assert_eq!(dom.idom(BlockId(3)), Some(BlockId(2)));
    assert_eq!(dom.idom(BlockId(4)), Some(BlockId(1)));
    assert!(dom.dominates(BlockId(1), BlockId(3)));
    assert!(!dom.dominates(BlockId(2), BlockId(4)));
    // transitivity on this chain
    assert!(dom.dominates(BlockId(0), BlockId(3)));
    assert_eq!(dom.children(BlockId(1)), vec![BlockId(2), BlockId(4)]);
}

#[test]
fn unreachable_block_is_dominated_by_every_block() {
    let mut cfg = Cfg::new();
    let b1 = cfg.add_block();
    let lone = cfg.add_block();
    cfg.add_edge(BlockId(0), b1);
    let dom = DominanceTree::compute(&cfg);
    assert!(dom.dominates(b1, lone));
    assert!(dom.dominates(BlockId(0), lone));
    assert!(!dom.dominates(lone, b1));
    // the unreachable block's immediate dominator is the closest candidate
    assert_eq!(dom.idom(lone), Some(b1));
}

#[test]
fn queries_outside_the_graph() {
    let dom = DominanceTree::compute(&Cfg::new());
    assert!(!dom.dominates(BlockId(0), BlockId(1)));
    assert!(!dom.dominates(BlockId(1), BlockId(0)));
    assert_eq!(dom.idom(BlockId(9)), None);
    assert_eq!(dom.dominated_by(BlockId(9)), Vec::<BlockId>::new());
    assert_eq!(dom.children(BlockId(9)), Vec::<BlockId>::new());
}

#[test]
fn block_left_out_of_the_order_is_dominated_by_every_block() {
    // 0 -> 1, and 2 -> 1 where block 2 cannot be reached from the entry.
    let mut cfg = Cfg::new();
    let b1 = cfg.add_block();
    let b2 = cfg.add_block();
    cfg.add_edge(BlockId::entry(), b1);
    cfg.add_edge(b2, b1);
    assert_eq!(cfg.reverse_postorder(), vec![BlockId(0), BlockId(1)]);
    let dom = DominanceTree::compute(&cfg);
    assert!(dom.dominates(b1, b2));
    assert!(dom.dominates(BlockId::entry(), b2));
    assert!(!dom.dominates(b2, b1));
    assert_eq!(dom.idom(b1), Some(BlockId::entry()));
}
