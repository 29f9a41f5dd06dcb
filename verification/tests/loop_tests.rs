use cfg_construct::{BlockId, Cfg, LoopInfo};

#[test]
fn test_no_loops() {
    let mut cfg = Cfg::new();
    let b1 = cfg.add_block();
    cfg.add_edge(BlockId::entry(), b1);
    let info = LoopInfo::detect(&cfg);
    assert!(info.is_empty());
}

#[test]
fn test_simple_loop() {
    let mut cfg = Cfg::new();
    let header = cfg.add_block(); // BlockId(1)
    let body = cfg.add_block(); // BlockId(2)
    cfg.add_edge(BlockId::entry(), header);
    cfg.add_edge(header, body);
    cfg.add_edge(body, header); // back edge

    let info = LoopInfo::detect(&cfg);
    assert_eq!(info.len(), 1);
    assert_eq!(info.loops[0].header, header);
}

#[test]
fn test_loop_body() {
    let mut cfg = Cfg::new();
    let header = cfg.add_block(); // 1
    let body = cfg.add_block(); // 2
    cfg.add_edge(BlockId::entry(), header);
    cfg.add_edge(header, body);
    cfg.add_edge(body, header);

    let info = LoopInfo::detect(&cfg);
    let l = &info.loops[0];
    assert!(l.contains(header));
    assert!(l.contains(body));
}

#[test]
fn test_innermost_loop() {
    let mut cfg = Cfg::new();
    let h1 = cfg.add_block();
    let b1 = cfg.add_block();
    cfg.add_edge(BlockId::entry(), h1);
    cfg.add_edge(h1, b1);
    cfg.add_edge(b1, h1);

    let info = LoopInfo::detect(&cfg);
    let inner = info.innermost_loop(b1);
    assert!(inner.is_some());
}

#[test]
fn test_loop_nesting_depth() {
    let mut cfg = Cfg::new();
    let h1 = cfg.add_block();
    let body = cfg.add_block();
    cfg.add_edge(BlockId::entry(), h1);
    cfg.add_edge(h1, body);
    cfg.add_edge(body, h1);

    let info = LoopInfo::detect(&cfg);
    assert!(info.nesting.depth(h1).unwrap_or(0) >= 1);
}

/// 0 -> 1 -> 2 -> 3 -> 2 (inner back edge), 3 -> 4 -> 1 (outer back edge), 4 -> 5
fn nested() -> Cfg {
    let mut cfg = Cfg::new();
    for _ in 0..5 {
        cfg.add_block();
    }
    cfg.add_edge(BlockId(0), BlockId(1));
    cfg.add_edge(BlockId(1), BlockId(2));
    cfg.add_edge(BlockId(2), BlockId(3));
    cfg.add_edge(BlockId(3), BlockId(2));
    cfg.add_edge(BlockId(3), BlockId(4));
    cfg.add_edge(BlockId(4), BlockId(1));
    cfg.add_edge(BlockId(4), BlockId(5));
    cfg
}

fn sorted(mut v: Vec<BlockId>) -> Vec<BlockId> {
    v.sort();
    v
}

#[test]
fn nested_loops_bodies_and_depths() {
    let info = LoopInfo::detect(&nested());
    assert_eq!(info.len(), 2);
    // block 3's back edge comes first (blocks in order)
    assert_eq!(info.loops[0].header, BlockId(2));
    assert_eq!(info.loops[0].back_edge, BlockId(3));
    assert_eq!(sorted(info.loops[0].body.clone()), vec![BlockId(2), BlockId(3)]);
    assert_eq!(info.loops[1].header, BlockId(1));
    assert_eq!(info.loops[1].back_edge, BlockId(4));
    assert_eq!(
        sorted(info.loops[1].body.clone()),
        vec![BlockId(1), BlockId(2), BlockId(3), BlockId(4)]
    );
    assert_eq!(info.nesting.depth(BlockId(2)), Some(2));
    assert_eq!(info.nesting.depth(BlockId(1)), Some(1));
    assert_eq!(info.nesting.depth(BlockId(3)), Some(2));
    assert_eq!(info.nesting.depth(BlockId(4)), Some(1));
    assert_eq!(info.nesting.depth(BlockId(5)), None);
    assert_eq!(info.nesting.depth(BlockId(0)), None);
    assert_eq!(info.loops[0].depth(&info.nesting), 2);
    assert_eq!(info.loops[1].depth(&info.nesting), 1);
    assert_eq!(info.loops[0].len(), 2);
    assert!(!info.loops[0].is_empty());
}

#[test]
fn innermost_loop_is_smallest_body() {
    let info = LoopInfo::detect(&nested());
    assert_eq!(info.innermost_loop(BlockId(3)).unwrap().header, BlockId(2));
    assert_eq!(info.innermost_loop(BlockId(4)).unwrap().header, BlockId(1));
    assert!(info.innermost_loop(BlockId(5)).is_none());
}

#[test]
fn self_loop_body_is_header_only() {
    let mut cfg = Cfg::new();
    let h = cfg.add_block();
    cfg.add_edge(BlockId(0), h);
    cfg.add_edge(h, h);
    let info = LoopInfo::detect(&cfg);
    assert_eq!(info.len(), 1);
    assert_eq!(info.loops[0].body, vec![h]);
    assert_eq!(info.loops[0].back_edge, h);
}

#[test]
fn edge_into_non_dominator_is_not_a_loop() {
    // 0 -> 1, 0 -> 2, 1 -> 2, 2 -> 1: a cycle without a dominating header
    let mut cfg = Cfg::new();
    cfg.add_block();
    cfg.add_block();
    cfg.add_edge(BlockId(0), BlockId(1));
    cfg.add_edge(BlockId(0), BlockId(2));
    cfg.add_edge(BlockId(1), BlockId(2));
    cfg.add_edge(BlockId(2), BlockId(1));
    let info = LoopInfo::detect(&cfg);
    assert!(info.is_empty());
    assert_eq!(info.len(), 0);
}

#[test]
fn loop_body_comes_out_in_increasing_order() {
    let info = LoopInfo::detect(&nested());
    assert_eq!(info.loops[0].body, vec![BlockId(2), BlockId(3)]);
    assert_eq!(info.loops[1].body, vec![BlockId(1), BlockId(2), BlockId(3), BlockId(4)]);
}

#[test]
fn same_loop_from_edges_added_in_another_order_is_equal() {
    // 0 -> 1, 1 -> 2, 1 -> 3, 2 -> 4, 3 -> 4, 4 -> 1 (back edge)
    let build = |swap: bool| {
        let mut cfg = Cfg::new();
        for _ in 0..4 {
            cfg.add_block();
        }
        cfg.add_edge(BlockId(0), BlockId(1));
        if swap {
            cfg.add_edge(BlockId(1), BlockId(3));
            cfg.add_edge(BlockId(1), BlockId(2));
            cfg.add_edge(BlockId(3), BlockId(4));
            cfg.add_edge(BlockId(2), BlockId(4));
        } else {
            cfg.add_edge(BlockId(1), BlockId(2));
            cfg.add_edge(BlockId(1), BlockId(3));
            cfg.add_edge(BlockId(2), BlockId(4));
            cfg.add_edge(BlockId(3), BlockId(4));
        }
        cfg.add_edge(BlockId(4), BlockId(1));
        cfg
    };
    let a = LoopInfo::detect(&build(false));
    let b = LoopInfo::detect(&build(true));
    assert_eq!(a.len(), 1);
    assert_eq!(a.loops, b.loops);
    assert_eq!(a.loops[0].body, vec![BlockId(1), BlockId(2), BlockId(3), BlockId(4)]);
}
