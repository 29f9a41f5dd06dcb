use cfg_construct::{BlockId, Cfg, DominanceFrontier, DominanceTree};

#[test]
fn test_simple_frontier() {
    let mut cfg = Cfg::new();
    let b1 = cfg.add_block();
    let b2 = cfg.add_block();
    let b3 = cfg.add_block();
    cfg.add_edge(BlockId::entry(), b1);
    cfg.add_edge(BlockId::entry(), b2);
    cfg.add_edge(b1, b3);
    cfg.add_edge(b2, b3);

    let dom = DominanceTree::compute(&cfg);
    let df = DominanceFrontier::compute(&cfg, &dom);

    // b3 is a join point, should be in the frontier of b1 and b2
    assert!(df.in_frontier(b1, b3));
    assert!(df.in_frontier(b2, b3));
}

#[test]
fn test_linear_no_frontier() {
    let mut cfg = Cfg::new();
    let b1 = cfg.add_block();
    cfg.add_edge(BlockId::entry(), b1);

    let dom = DominanceTree::compute(&cfg);
    let df = DominanceFrontier::compute(&cfg, &dom);

    assert_eq!(df.total_size(), 0);
}

#[test]
fn test_frontier_set() {
    let mut cfg = Cfg::new();
    let b1 = cfg.add_block();
    let b2 = cfg.add_block();
    let merge = cfg.add_block();
    cfg.add_edge(BlockId::entry(), b1);
    cfg.add_edge(BlockId::entry(), b2);
    cfg.add_edge(b1, merge);
    cfg.add_edge(b2, merge);

    let dom = DominanceTree::compute(&cfg);
    let df = DominanceFrontier::compute(&cfg, &dom);

    assert!(!df.frontier_set(b1).is_empty());
}

#[test]
fn diamond_frontier_sets_exactly() {
    let mut cfg = Cfg::new();
    let b1 = cfg.add_block();
    let b2 = cfg.add_block();
    let merge = cfg.add_block();
    cfg.add_edge(BlockId(0), b1);
    cfg.add_edge(BlockId(0), b2);
    cfg.add_edge(b1, merge);
    cfg.add_edge(b2, merge);
    let dom = DominanceTree::compute(&cfg);
    let df = DominanceFrontier::compute(&cfg, &dom);
    assert_eq!(df.frontier_set(b1), vec![merge]);
    assert_eq!(df.frontier_set(b2), vec![merge]);
    assert_eq!(df.frontier_set(BlockId(0)), Vec::<BlockId>::new());
    assert_eq!(df.frontier_set(merge), Vec::<BlockId>::new());
    assert_eq!(df.total_size(), 2);
    assert!(!df.in_frontier(BlockId(0), merge));
    assert_eq!(df.frontier_set(BlockId(9)), Vec::<BlockId>::new());
    assert!(!df.in_frontier(BlockId(9), merge));
}

#[test]
fn loop_header_is_in_its_own_frontier() {
    // 0 -> 1 -> 2 -> 1, 1 -> 3: the header 1 joins 0 and 2.
    let mut cfg = Cfg::new();
    for _ in 0..3 {
        cfg.add_block();
    }
    cfg.add_edge(BlockId(0), BlockId(1));
    cfg.add_edge(BlockId(1), BlockId(2));
    cfg.add_edge(BlockId(2), BlockId(1));
    cfg.add_edge(BlockId(1), BlockId(3));
    let dom = DominanceTree::compute(&cfg);
    let df = DominanceFrontier::compute(&cfg, &dom);
    // 2 dominates a predecessor of 1 (itself) and does not dominate 1
    assert_eq!(df.frontier_set(BlockId(2)), vec![BlockId(1)]);
    // 1 dominates its predecessor 2 and does not strictly dominate itself
    assert_eq!(df.frontier_set(BlockId(1)), vec![BlockId(1)]);
    assert!(df.in_frontier(BlockId(1), BlockId(1)));
    assert!(!df.in_frontier(BlockId(0), BlockId(1)));
    assert_eq!(df.total_size(), 2);
}

#[test]
fn entry_with_back_edge_is_in_frontiers() {
    // 0 -> 1 -> 0: the entry is entered from outside and from 1.
    let mut cfg = Cfg::new();
    let b1 = cfg.add_block();
    cfg.add_edge(BlockId(0), b1);
    cfg.add_edge(b1, BlockId(0));
    let dom = DominanceTree::compute(&cfg);
    let df = DominanceFrontier::compute(&cfg, &dom);
    assert_eq!(df.frontier_set(b1), vec![BlockId(0)]);
    assert_eq!(df.frontier_set(BlockId(0)), vec![BlockId(0)]);
    assert_eq!(df.total_size(), 2);
}

#[test]
fn single_unreachable_predecessor_of_a_join_still_computes() {
    // 0 -> 2 and 1 -> 2, where block 1 cannot be reached from the entry.
    let mut cfg = Cfg::new();
    let b1 = cfg.add_block();
    let b2 = cfg.add_block();
    cfg.add_edge(BlockId::entry(), b2);
    cfg.add_edge(b1, b2);
    let dom = DominanceTree::compute(&cfg);
    assert_eq!(dom.idom(b1), Some(b2));
    let df = DominanceFrontier::compute(&cfg, &dom);
    assert!(df.in_frontier(b1, b2));
    assert!(df.in_frontier(b2, b2));
    assert!(!df.in_frontier(BlockId::entry(), b2));
    assert_eq!(df.total_size(), 2);
}
