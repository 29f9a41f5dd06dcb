//! Laws of natural loop detection: the detected loops are exactly the back
//! edges of the graph, and the header of a natural loop dominates every
//! block of its body.

use vstd::prelude::*;
use crate::basic_block::{BasicBlock, BlockId};
use crate::cfg::Cfg;
use crate::loop_detect::{
    back_edges, back_edges_upto, back_step, back_walk, block_back_edges, count_containing, depth_spec,
    dominates_in, in_loop_body, in_some_body, is_innermost, is_natural_loop, same_depth, LoopInfo,
    NaturalLoop,
};
use crate::paths::{
    is_path_to, is_walk, lemma_walk_concat, lemma_walk_subrange, on_every_path, pred_step, succ_edge,
};

verus! {

/// An entry of the back-edge list is an edge `latch -> header` of the
/// successor lists whose header dominates its latch.
pub open spec fn is_back_edge(g: Seq<BasicBlock>, latch: int, header: int) -> bool {
    &&& succ_edge(g, latch, header)
    &&& dominates_in(g, header, latch)
}

proof fn lemma_block_back_edges(g: Seq<BasicBlock>, i: int, kk: int)
    requires
        0 <= i < g.len(),
        0 <= kk <= g[i].successors@.len(),
    ensures
        forall|e: int| 0 <= e < block_back_edges(g, i, kk).len() ==> {
            let p = #[trigger] block_back_edges(g, i, kk)[e];
            p.0 == i && is_back_edge(g, p.0, p.1)
        },
        forall|k: int|
            0 <= k < kk && dominates_in(g, (#[trigger] g[i].successors@[k]).0 as int, i) ==> block_back_edges(
                g,
                i,
                kk,
            ).contains((i, g[i].successors@[k].0 as int)),
    decreases kk,
{
    broadcast use vstd::seq_lib::lemma_seq_concat_contains_all_elements;

    if kk > 0 {
        lemma_block_back_edges(g, i, kk - 1);
        let s = g[i].successors@[kk - 1].0 as int;
        let prev = block_back_edges(g, i, kk - 1);
        let last: Seq<(int, int)> = if dominates_in(g, s, i) {
            seq![(i, s)]
        } else {
            Seq::empty()
        };
        assert(block_back_edges(g, i, kk) == prev + last);
        assert forall|e: int| 0 <= e < block_back_edges(g, i, kk).len() implies {
            let p = #[trigger] block_back_edges(g, i, kk)[e];
            p.0 == i && is_back_edge(g, p.0, p.1)
        } by {
            if e < prev.len() {
                assert(block_back_edges(g, i, kk)[e] == prev[e]);
            } else {
                assert(block_back_edges(g, i, kk)[e] == (i, s));
                assert(g[i].successors@[kk - 1].0 == s);
            }
        }
        assert forall|k: int|
            0 <= k < kk && dominates_in(g, (#[trigger] g[i].successors@[k]).0 as int, i) implies block_back_edges(
            g,
            i,
            kk,
        ).contains((i, g[i].successors@[k].0 as int)) by {
            if k == kk - 1 {
                assert(last[0] == (i, s));
                assert(last.contains((i, s)));
            }
        }
    }
}

proof fn lemma_back_edges_upto(g: Seq<BasicBlock>, ii: int)
    requires
        0 <= ii <= g.len(),
    ensures
        forall|e: int| 0 <= e < back_edges_upto(g, ii).len() ==> {
            let p = #[trigger] back_edges_upto(g, ii)[e];
            0 <= p.0 < ii && is_back_edge(g, p.0, p.1)
        },
        forall|i: int, k: int|
            0 <= i < ii && 0 <= k < g[i].successors@.len() && dominates_in(
                g,
                (#[trigger] g[i].successors@[k]).0 as int,
                i,
            ) ==> back_edges_upto(g, ii).contains((i, g[i].successors@[k].0 as int)),
    decreases ii,
{
    broadcast use vstd::seq_lib::lemma_seq_concat_contains_all_elements;

    if ii > 0 {
        lemma_back_edges_upto(g, ii - 1);
        let len = g[ii - 1].successors@.len() as int;
        lemma_block_back_edges(g, ii - 1, len);
        let prev = back_edges_upto(g, ii - 1);
        let blk = block_back_edges(g, ii - 1, len);
        assert(back_edges_upto(g, ii) == prev + blk);
        assert forall|e: int| 0 <= e < back_edges_upto(g, ii).len() implies {
            let p = #[trigger] back_edges_upto(g, ii)[e];
            0 <= p.0 < ii && is_back_edge(g, p.0, p.1)
        } by {
            if e < prev.len() {
                assert(back_edges_upto(g, ii)[e] == prev[e]);
            } else {
                assert(back_edges_upto(g, ii)[e] == blk[e - prev.len()]);
            }
        }
    }
}

/// Law: every detected loop comes from a back edge: its latch lists its
/// header as a successor, and the header dominates the latch.
pub proof fn law_loop_is_back_edge(cfg: &Cfg, info: &LoopInfo, idx: int)
    requires
        info.is_loop_info_of(cfg@),
        0 <= idx < info.loops@.len(),
    ensures
        is_back_edge(cfg@, info.loops@[idx].back_edge.0 as int, info.loops@[idx].header.0 as int),
{
    lemma_back_edges_upto(cfg@, cfg@.len() as int);
    let p = back_edges(cfg@)[idx];
    assert(is_natural_loop(cfg@, info.loops@[idx], p.0, p.1));
}

/// Law: every back edge of the graph has its detected loop.
pub proof fn law_every_back_edge_has_loop(cfg: &Cfg, info: &LoopInfo, i: int, k: int)
    requires
        info.is_loop_info_of(cfg@),
        0 <= i < cfg@.len(),
        0 <= k < cfg@[i].successors@.len(),
        dominates_in(cfg@, cfg@[i].successors@[k].0 as int, i),
    ensures
        exists|idx: int|
            0 <= idx < info.loops@.len() && (#[trigger] info.loops@[idx]).back_edge.0 == i
                && info.loops@[idx].header == cfg@[i].successors@[k],
{
    let g = cfg@;
    lemma_back_edges_upto(g, g.len() as int);
    let s = g[i].successors@[k];
    assert(back_edges(g).contains((i, s.0 as int)));
    let idx = choose|idx: int| 0 <= idx < back_edges(g).len() && back_edges(g)[idx] == (i, s.0 as int);
    assert(is_natural_loop(g, info.loops@[idx], i, s.0 as int));
    assert(info.loops@[idx].header == s);
}

/// Law: the body of a detected loop holds its header and its latch.
pub proof fn law_loop_body_holds_header_and_latch(cfg: &Cfg, info: &LoopInfo, idx: int)
    requires
        info.is_loop_info_of(cfg@),
        0 <= idx < info.loops@.len(),
    ensures
        info.loops@[idx].body@.contains(info.loops@[idx].header),
        info.loops@[idx].body@.contains(info.loops@[idx].back_edge),
{
    let g = cfg@;
    let p = back_edges(g)[idx];
    let l = info.loops@[idx];
    assert(is_natural_loop(g, l, p.0, p.1));
    assert(in_loop_body(g, p.1, p.0, l.header.0 as int));
    assert(l.body@.contains(BlockId(l.header.0)));
    if p.0 != p.1 {
        let w = seq![p.0];
        assert(back_walk(g, p.1, p.0, w));
    }
    assert(in_loop_body(g, p.1, p.0, l.back_edge.0 as int));
    assert(l.body@.contains(BlockId(l.back_edge.0)));
}

/// A backward walk read forwards is a walk along predecessor-list edges.
proof fn lemma_back_walk_reversed(g: Seq<BasicBlock>, h: int, l: int, w: Seq<int>)
    requires
        back_walk(g, h, l, w),
        0 <= w.last() < g.len(),
    ensures
        is_walk(g, w.reverse()),
        w.reverse()[0] == w.last(),
        w.reverse().last() == l,
        !w.reverse().contains(h),
{
    let m = w.len() as int;
    let r = w.reverse();
    assert forall|i: int| 0 <= i < r.len() implies 0 <= #[trigger] r[i] < g.len() by {
        let j = m - 1 - i;
        assert(r[i] == w[j]);
        if j < m - 1 {
            assert(back_step(g, w, j));
        }
    }
    assert forall|i: int| 0 <= i < r.len() - 1 implies #[trigger] pred_step(g, r, i) by {
        let j = m - 2 - i;
        assert(back_step(g, w, j));
        assert(r[i] == w[j + 1]);
        assert(r[i + 1] == w[j]);
        let k = choose|k: int|
            0 <= k < g[w[j]].predecessors@.len() && (#[trigger] g[w[j]].predecessors@[k]).0 == w[j + 1];
        assert(g[r[i + 1]].predecessors@[k].0 == r[i]);
    }
    if r.contains(h) {
        let i = choose|i: int| 0 <= i < r.len() && r[i] == h;
        assert(w[m - 1 - i] != h);
    }
}

/// Law: the header of a detected loop dominates every block of its body.
pub proof fn law_header_dominates_loop_body(cfg: &Cfg, info: &LoopInfo, idx: int, x: usize)
    requires
        info.is_loop_info_of(cfg@),
        0 <= idx < info.loops@.len(),
        x < cfg@.len(),
        info.loops@[idx].body@.contains(BlockId(x)),
    ensures
        dominates_in(cfg@, info.loops@[idx].header.0 as int, x as int),
{
    let g = cfg@;
    let p = back_edges(g)[idx];
    let lp = info.loops@[idx];
    assert(is_natural_loop(g, lp, p.0, p.1));
    law_loop_is_back_edge(cfg, info, idx);
    let h = p.1;
    let l = p.0;
    assert(in_loop_body(g, h, l, x as int));
    assert(on_every_path(g, h, l));
    if x as int == h {
        assert forall|q: Seq<int>| #[trigger] is_path_to(g, q, x as int) implies q.contains(h) by {
            assert(q[q.len() - 1] == h);
        }
    } else {
        let w = choose|w: Seq<int>| #[trigger] back_walk(g, h, l, w) && w.last() == x as int;
        lemma_back_walk_reversed(g, h, l, w);
        let rev = w.reverse();
        assert forall|q: Seq<int>| #[trigger] is_path_to(g, q, x as int) implies q.contains(h) by {
            if !q.contains(h) {
                let full = if rev.len() == 1 {
                    q
                } else {
                    lemma_walk_subrange(g, rev, 1, rev.len() as int);
                    let tail = rev.subrange(1, rev.len() as int);
                    assert(pred_step(g, rev, 0));
                    lemma_walk_concat(g, q, tail);
                    q + tail
                };
                assert(is_path_to(g, full, l));
                assert(full.contains(h));
                let j = choose|j: int| 0 <= j < full.len() && full[j] == h;
                if j < q.len() {
                    assert(q[j] == h);
                } else {
                    assert(rev[j - q.len() + 1] == h);
                    assert(rev.contains(h));
                }
            }
        }
    }
}

/// The back edges out of block `i` among its first `kk` successors: each
/// leaves `i` for a block named in that part of its successor list, and no
/// pair occurs twice when the list names no block twice.
proof fn lemma_block_back_edges_distinct(g: Seq<BasicBlock>, i: int, kk: int)
    requires
        0 <= i < g.len(),
        0 <= kk <= g[i].successors@.len(),
        g[i].successors@.no_duplicates(),
    ensures
        forall|e: int|
            0 <= e < block_back_edges(g, i, kk).len() ==> (#[trigger] block_back_edges(g, i, kk)[e]).0 == i
                && exists|k: int|
                0 <= k < kk && (#[trigger] g[i].successors@[k]).0 == block_back_edges(g, i, kk)[e].1,
        block_back_edges(g, i, kk).no_duplicates(),
    decreases kk,
{
    if kk > 0 {
        lemma_block_back_edges_distinct(g, i, kk - 1);
        let sl = g[i].successors@;
        let s = sl[kk - 1].0 as int;
        let prev = block_back_edges(g, i, kk - 1);
        let last: Seq<(int, int)> = if dominates_in(g, s, i) {
            seq![(i, s)]
        } else {
            Seq::empty()
        };
        let cur = block_back_edges(g, i, kk);
        assert(cur == prev + last);
        assert forall|e: int| 0 <= e < cur.len() implies (#[trigger] cur[e]).0 == i && exists|k: int|
            0 <= k < kk && (#[trigger] sl[k]).0 == cur[e].1 by {
            if e < prev.len() {
                assert(cur[e] == prev[e]);
                let k = choose|k: int| 0 <= k < kk - 1 && (#[trigger] sl[k]).0 == prev[e].1;
                assert(sl[k].0 == cur[e].1);
            } else {
                assert(cur[e] == (i, s));
                assert(sl[kk - 1].0 == cur[e].1);
            }
        }
        assert forall|a: int, b: int| 0 <= a < cur.len() && 0 <= b < cur.len() && a != b implies cur[a]
            != cur[b] by {
            if a < prev.len() && b < prev.len() {
                assert(cur[a] == prev[a] && cur[b] == prev[b]);
            } else if a < prev.len() || b < prev.len() {
                let (x, y) = if a < prev.len() {
                    (a, b)
                } else {
                    (b, a)
                };
                assert(cur[x] == prev[x]);
                assert(cur[y] == (i, s));
                let k = choose|k: int| 0 <= k < kk - 1 && (#[trigger] sl[k]).0 == prev[x].1;
                if prev[x].1 == s {
                    assert(sl[k] == sl[kk - 1]);
                }
            }
        }
    }
}

/// Up to block `ii`, no back edge occurs twice, when no successor list
/// names a block twice.
proof fn lemma_back_edges_upto_distinct(g: Seq<BasicBlock>, ii: int)
    requires
        0 <= ii <= g.len(),
        forall|i: int| 0 <= i < g.len() ==> (#[trigger] g[i]).successors@.no_duplicates(),
    ensures
        back_edges_upto(g, ii).no_duplicates(),
    decreases ii,
{
    if ii > 0 {
        lemma_back_edges_upto_distinct(g, ii - 1);
        lemma_back_edges_upto(g, ii - 1);
        let len = g[ii - 1].successors@.len() as int;
        assert(g[ii - 1].successors@.no_duplicates());
        lemma_block_back_edges_distinct(g, ii - 1, len);
        let prev = back_edges_upto(g, ii - 1);
        let blk = block_back_edges(g, ii - 1, len);
        let cur = back_edges_upto(g, ii);
        assert(cur == prev + blk);
        assert forall|a: int, b: int| 0 <= a < cur.len() && 0 <= b < cur.len() && a != b implies cur[a]
            != cur[b] by {
            if a < prev.len() && b < prev.len() {
                assert(cur[a] == prev[a] && cur[b] == prev[b]);
            } else if a >= prev.len() && b >= prev.len() {
                assert(cur[a] == blk[a - prev.len()] && cur[b] == blk[b - prev.len()]);
            } else if a < prev.len() {
                assert(cur[a] == prev[a] && cur[b] == blk[b - prev.len()]);
                assert(prev[a].0 < ii - 1);
            } else {
                assert(cur[b] == prev[b] && cur[a] == blk[a - prev.len()]);
                assert(prev[b].0 < ii - 1);
            }
        }
    }
}

/// Law: each back edge gives one loop: no two detected loops have both the
/// same back edge source and the same header (for a graph whose successor
/// lists name no block twice, as `add_edge` keeps them).
pub proof fn law_one_loop_per_back_edge(cfg: &Cfg, info: &LoopInfo, a: int, b: int)
    requires
        info.is_loop_info_of(cfg@),
        forall|i: int| 0 <= i < cfg@.len() ==> (#[trigger] cfg@[i]).successors@.no_duplicates(),
        0 <= a < b < info.loops@.len(),
    ensures
        info.loops@[a].back_edge != info.loops@[b].back_edge || info.loops@[a].header != info.loops@[b].header,
{
    let g = cfg@;
    lemma_back_edges_upto_distinct(g, g.len() as int);
    let be = back_edges(g);
    assert(is_natural_loop(g, info.loops@[a], be[a].0, be[a].1));
    assert(is_natural_loop(g, info.loops@[b], be[b].0, be[b].1));
    if info.loops@[a].back_edge == info.loops@[b].back_edge && info.loops@[a].header == info.loops@[b].header {
        assert(be[a] == be[b]);
    }
}

/// The indices below `kk` of the loops whose body holds `b`.
pub open spec fn loops_holding(loops: Seq<NaturalLoop>, b: BlockId, kk: int) -> Set<int> {
    Set::new(|i: int| 0 <= i < kk && loops[i].body@.contains(b))
}

proof fn lemma_count_is_size(loops: Seq<NaturalLoop>, b: BlockId, kk: int)
    requires
        0 <= kk <= loops.len(),
    ensures
        loops_holding(loops, b, kk).finite(),
        count_containing(loops, b, kk) == loops_holding(loops, b, kk).len(),
    decreases kk,
{
    let s = loops_holding(loops, b, kk);
    if kk == 0 {
        assert(s =~= Set::empty());
    } else {
        lemma_count_is_size(loops, b, kk - 1);
        let s0 = loops_holding(loops, b, kk - 1);
        if loops[kk - 1].body@.contains(b) {
            assert(s =~= s0.insert(kk - 1));
            assert(!s0.contains(kk - 1));
        } else {
            assert(s =~= s0);
        }
    }
}

/// Law: the nesting depth of a block is the number of detected loops whose
/// body holds it, so at least 1 for a block in some loop; a block in no
/// loop has no depth.
pub proof fn law_depth_counts_loops(cfg: &Cfg, info: &LoopInfo, b: BlockId)
    requires
        info.is_loop_info_of(cfg@),
    ensures
        match info.nesting.depth_of(b) {
            Some(d) => {
                &&& d == loops_holding(info.loops@, b, info.loops@.len() as int).len()
                &&& d >= 1
            },
            None => forall|i: int| 0 <= i < info.loops@.len() ==> !(#[trigger] info.loops@[i]).body@.contains(b),
        },
{
    let loops = info.loops@;
    lemma_count_is_size(loops, b, loops.len() as int);
    assert(same_depth(info.nesting.depth_of(b), depth_spec(loops, b)));
    if in_some_body(loops, b) {
        let i = choose|i: int| 0 <= i < loops.len() && (#[trigger] loops[i]).body@.contains(b);
        let s = loops_holding(loops, b, loops.len() as int);
        assert(s.contains(i));
        vstd::set_lib::lemma_set_empty_equivalency_len(s);
    }
}

/// Law: the depth of a detected loop (that of its header) is the number of
/// detected loops whose body holds the header, and at least 1.
pub proof fn law_loop_depth(cfg: &Cfg, info: &LoopInfo, k: int)
    requires
        info.is_loop_info_of(cfg@),
        0 <= k < info.loops@.len(),
    ensures
        ({
            let h = info.loops@[k].header;
            &&& info.nesting.depth_of(h) is Some
            &&& info.nesting.depth_of(h).unwrap() == loops_holding(info.loops@, h, info.loops@.len() as int).len()
            &&& info.nesting.depth_of(h).unwrap() >= 1
        }),
{
    let h = info.loops@[k].header;
    law_loop_body_holds_header_and_latch(cfg, info, k);
    law_depth_counts_loops(cfg, info, h);
}

/// Law: the innermost loop chosen for `b` holds `b`, its body is no
/// larger than that of any loop holding `b`, and strictly smaller than that
/// of every earlier loop holding `b` (the first of the smallest).
pub proof fn law_innermost_is_smallest(loops: Seq<NaturalLoop>, b: BlockId, i: int, j: int)
    requires
        is_innermost(loops, b, i),
        0 <= j < loops.len(),
        loops[j].body@.contains(b),
    ensures
        0 <= i < loops.len(),
        loops[i].body@.contains(b),
        loops[i].body@.len() <= loops[j].body@.len(),
        j < i ==> loops[i].body@.len() < loops[j].body@.len(),
{
}

/// The back edges up to block `ii` leave their blocks in block order.
proof fn lemma_back_edges_upto_ordered(g: Seq<BasicBlock>, ii: int)
    requires
        0 <= ii <= g.len(),
    ensures
        forall|a: int, b: int|
            0 <= a < b < back_edges_upto(g, ii).len() ==> (#[trigger] back_edges_upto(g, ii)[a]).0
                <= (#[trigger] back_edges_upto(g, ii)[b]).0,
    decreases ii,
{
    if ii > 0 {
        lemma_back_edges_upto_ordered(g, ii - 1);
        lemma_back_edges_upto(g, ii - 1);
        let len = g[ii - 1].successors@.len() as int;
        lemma_block_back_edges(g, ii - 1, len);
        let prev = back_edges_upto(g, ii - 1);
        let blk = block_back_edges(g, ii - 1, len);
        let cur = back_edges_upto(g, ii);
        assert(cur == prev + blk);
        assert forall|a: int, b: int| 0 <= a < b < cur.len() implies (#[trigger] cur[a]).0 <= (
        #[trigger] cur[b]).0 by {
            if b < prev.len() {
                assert(cur[a] == prev[a] && cur[b] == prev[b]);
            } else if a >= prev.len() {
                assert(cur[a] == blk[a - prev.len()] && cur[b] == blk[b - prev.len()]);
            } else {
                assert(cur[a] == prev[a] && cur[b] == blk[b - prev.len()]);
            }
        }
    }
}

/// Law: the detected loops come in block order of their back edge sources.
pub proof fn law_loops_in_block_order(cfg: &Cfg, info: &LoopInfo, a: int, b: int)
    requires
        info.is_loop_info_of(cfg@),
        0 <= a < b < info.loops@.len(),
    ensures
        info.loops@[a].back_edge.0 <= info.loops@[b].back_edge.0,
{
    let g = cfg@;
    lemma_back_edges_upto_ordered(g, g.len() as int);
    let be = back_edges(g);
    assert(is_natural_loop(g, info.loops@[a], be[a].0, be[a].1));
    assert(is_natural_loop(g, info.loops@[b], be[b].0, be[b].1));
    assert(be[a].0 <= be[b].0);
}

} // verus!
