//! Natural loop detection.
//!
//! A back edge is an edge `latch -> header` (read from the latch's successor
//! list) where the header dominates the latch. Its natural loop holds the
//! header and every block from which the latch can be reached backwards
//! (following predecessor lists) without passing through the header.

use vstd::prelude::*;
use vstd::set_lib::{lemma_int_range, lemma_len_subset, set_int_range};
use crate::basic_block::{
    add_once, contains_id, lemma_add_once_keeps_distinct, BasicBlock, BlockId,
};
use crate::cfg::Cfg;
use crate::dominance::DominanceTree;
use crate::dominance_laws::lemma_greatest_solution_is_path_dominance;
use crate::paths::on_every_path;

verus! {

/// Step `i` of `w` goes from block `w[i]` to a block named in its
/// predecessor list.
pub open spec fn back_step(g: Seq<BasicBlock>, w: Seq<int>, i: int) -> bool {
    &&& 0 <= w[i] < g.len()
    &&& exists|k: int|
        0 <= k < g[w[i]].predecessors@.len() && (#[trigger] g[w[i]].predecessors@[k]).0 == w[i + 1]
}

/// A walk backwards from `latch` along predecessor lists that never meets
/// `header`.
pub open spec fn back_walk(g: Seq<BasicBlock>, header: int, latch: int, w: Seq<int>) -> bool {
    &&& w.len() >= 1
    &&& w[0] == latch
    &&& forall|i: int| 0 <= i < w.len() ==> #[trigger] w[i] != header
    &&& forall|i: int| 0 <= i < w.len() - 1 ==> #[trigger] back_step(g, w, i)
}

/// `x` belongs to the natural loop with this header and latch: it is the
/// header, or it is reached backwards from the latch without passing
/// through the header.
pub open spec fn in_loop_body(g: Seq<BasicBlock>, header: int, latch: int, x: int) -> bool {
    x == header || exists|w: Seq<int>| #[trigger] back_walk(g, header, latch, w) && w.last() == x
}

/// `a` and `b` are blocks, and `a` dominates `b` (every path from the entry
/// to `b` passes through `a`).
pub open spec fn dominates_in(g: Seq<BasicBlock>, a: int, b: int) -> bool {
    0 <= a < g.len() && 0 <= b < g.len() && on_every_path(g, a, b)
}

/// The back edges among the first `kk` successors of block `i`, as
/// `(latch, header)` pairs, in successor-list order.
pub open spec fn block_back_edges(g: Seq<BasicBlock>, i: int, kk: int) -> Seq<(int, int)>
    decreases kk,
{
    if kk <= 0 {
        Seq::empty()
    } else {
        let s = g[i].successors@[kk - 1].0 as int;
        block_back_edges(g, i, kk - 1) + if dominates_in(g, s, i) {
            seq![(i, s)]
        } else {
            Seq::empty()
        }
    }
}

/// The back edges out of the first `ii` blocks, block by block.
pub open spec fn back_edges_upto(g: Seq<BasicBlock>, ii: int) -> Seq<(int, int)>
    decreases ii,
{
    if ii <= 0 {
        Seq::empty()
    } else {
        back_edges_upto(g, ii - 1) + block_back_edges(g, ii - 1, g[ii - 1].successors@.len() as int)
    }
}

/// All back edges of `g`, as `(latch, header)` pairs: blocks in order, and
/// for each block its successors in list order.
pub open spec fn back_edges(g: Seq<BasicBlock>) -> Seq<(int, int)> {
    back_edges_upto(g, g.len() as int)
}

/// Entry `k` of the predecessor list of block `y` is in `body` or in `stack`.
spec fn pred_covered(g: Seq<BasicBlock>, body: Seq<BlockId>, stack: Seq<BlockId>, y: int, k: int) -> bool {
    body.contains(g[y].predecessors@[k]) || stack.contains(g[y].predecessors@[k])
}

/// Block `y`, unless it is the header or not a block, has all its
/// predecessors in `body` or in `stack`.
spec fn closed_for(g: Seq<BasicBlock>, h: int, body: Seq<BlockId>, stack: Seq<BlockId>, y: int) -> bool {
    y == h || !(0 <= y < g.len()) || forall|k: int|
        0 <= k < g[y].predecessors@.len() ==> #[trigger] pred_covered(g, body, stack, y, k)
}

/// Every block of `body` is closed in the sense of `closed_for`.
spec fn closed(g: Seq<BasicBlock>, h: int, body: Seq<BlockId>, stack: Seq<BlockId>) -> bool {
    forall|i: int| 0 <= i < body.len() ==> closed_for(g, h, body, stack, (#[trigger] body[i]).0 as int)
}

proof fn lemma_closed_for_mono(
    g: Seq<BasicBlock>,
    h: int,
    b1: Seq<BlockId>,
    s1: Seq<BlockId>,
    b2: Seq<BlockId>,
    s2: Seq<BlockId>,
    y: int,
)
    requires
        closed_for(g, h, b1, s1, y),
        forall|x: BlockId| b1.contains(x) || s1.contains(x) ==> b2.contains(x) || s2.contains(x),
    ensures
        closed_for(g, h, b2, s2, y),
{
    if !(y == h || !(0 <= y < g.len())) {
        assert forall|k: int| 0 <= k < g[y].predecessors@.len() implies #[trigger] pred_covered(
            g,
            b2,
            s2,
            y,
            k,
        ) by {
            assert(pred_covered(g, b1, s1, y, k));
        }
    }
}

/// A list of distinct block identifiers has at most one entry per `usize`.
proof fn lemma_distinct_ids_bound(s: Seq<BlockId>)
    requires
        s.no_duplicates(),
    ensures
        s.len() <= usize::MAX + 1,
{
    let t = s.map_values(|b: BlockId| b.0 as int);
    assert forall|i: int, j: int| 0 <= i < t.len() && 0 <= j < t.len() && i != j implies t[i] != t[j] by {
        assert(s[i] != s[j]);
    }
    t.unique_seq_to_set();
    let r = set_int_range(0, usize::MAX + 1);
    assert forall|x: int| #[trigger] t.to_set().contains(x) implies r.contains(x) by {
        let i = choose|i: int| 0 <= i < t.len() && t[i] == x;
        assert(t[i] == s[i].0 as int);
    }
    lemma_int_range(0, usize::MAX + 1);
    lemma_len_subset(t.to_set(), r);
}

/// Every walk backwards from the latch ends in a closed body that holds the
/// latch.
proof fn lemma_walk_in_body(g: Seq<BasicBlock>, h: int, l: int, body: Seq<BlockId>, w: Seq<int>)
    requires
        back_walk(g, h, l, w),
        closed(g, h, body, Seq::empty()),
        g.len() <= usize::MAX,
        0 <= l,
        body.contains(BlockId(l as usize)),
    ensures
        0 <= w.last(),
        body.contains(BlockId(w.last() as usize)),
    decreases w.len(),
{
    if w.len() > 1 {
        let w1 = w.drop_last();
        assert(back_walk(g, h, l, w1)) by {
            assert forall|i: int| 0 <= i < w1.len() - 1 implies #[trigger] back_step(g, w1, i) by {
                assert(back_step(g, w, i));
            }
            assert forall|i: int| 0 <= i < w1.len() implies #[trigger] w1[i] != h by {
                assert(w[i] != h);
            }
        }
        lemma_walk_in_body(g, h, l, body, w1);
        let y = w[w.len() - 2];
        assert(back_step(g, w, w.len() - 2));
        assert(w[w.len() - 2] != h);
        let k = choose|k: int|
            0 <= k < g[y].predecessors@.len() && (#[trigger] g[y].predecessors@[k]).0 == w[w.len() - 1];
        let i = choose|i: int| 0 <= i < body.len() && body[i] == BlockId(y as usize);
        assert(body[i].0 as int == y);
        assert(closed_for(g, h, body, Seq::empty(), y));
        assert(pred_covered(g, body, Seq::empty(), y, k));
        assert(g[y].predecessors@[k] == BlockId(w.last() as usize));
    }
}

/// The identifiers in `s` are in strictly increasing order of index.
pub open spec fn ascending(s: Seq<BlockId>) -> bool {
    forall|i: int, j: int| 0 <= i < j < s.len() ==> (#[trigger] s[i]).0 < (#[trigger] s[j]).0
}

/// Identifiers in strictly increasing order occur once each.
proof fn lemma_ascending_distinct(s: Seq<BlockId>)
    requires
        ascending(s),
    ensures
        s.no_duplicates(),
{
    assert forall|i: int, j: int| 0 <= i < s.len() && 0 <= j < s.len() && i != j implies s[i] != s[j] by {
        if i < j {
            assert(s[i].0 < s[j].0);
        } else {
            assert(s[j].0 < s[i].0);
        }
    }
}

/// The identifiers of `v`, each once, in increasing order of index.
fn sorted_ids(v: &Vec<BlockId>) -> (r: Vec<BlockId>)
    ensures
        ascending(r@),
        forall|x: BlockId| r@.contains(x) <==> v@.contains(x),
{
    broadcast use vstd::seq_lib::lemma_seq_contains_after_push;

    let mut r: Vec<BlockId> = Vec::new();
    let mut i: usize = 0;
    while i < v.len()
        invariant
            i <= v@.len(),
            ascending(r@),
            forall|x: BlockId| r@.contains(x) <==> v@.take(i as int).contains(x),
        decreases v@.len() - i,
    {
        let e = v[i];
        let mut k: usize = 0;
        while k < r.len() && r[k].0 < e.0
            invariant
                k <= r@.len(),
                forall|j: int| 0 <= j < k ==> (#[trigger] r@[j]).0 < e.0,
            decreases r@.len() - k,
        {
            k = k + 1;
        }
        let ghost r0 = r@;
        proof {
            assert(v@.take(i + 1) =~= v@.take(i as int).push(e));
        }
        if k == r.len() || r[k].0 != e.0 {
            r.insert(k, e);
            proof {
                assert(r@ == r0.insert(k as int, e));
                assert forall|a: int, b: int| 0 <= a < b < r@.len() implies (#[trigger] r@[a]).0 < (
                #[trigger] r@[b]).0 by {
                    if b < k {
                        assert(r@[a] == r0[a] && r@[b] == r0[b]);
                    } else if b == k {
                        assert(r@[a] == r0[a]);
                    } else if a == k {
                        assert(r@[b] == r0[b - 1]);
                        assert(r0[k as int].0 >= e.0);
                        if b - 1 > k {
                            assert(r0[k as int].0 < r0[b - 1].0);
                        }
                    } else if a < k {
                        assert(r@[a] == r0[a] && r@[b] == r0[b - 1]);
                    } else {
                        assert(r@[a] == r0[a - 1] && r@[b] == r0[b - 1]);
                    }
                }
                assert forall|x: BlockId| r@.contains(x) <==> v@.take(i + 1).contains(x) by {
                    vstd::seq_lib::lemma_seq_contains_after_push(v@.take(i as int), e, x);
                    assert(r0.contains(x) <==> v@.take(i as int).contains(x));
                    if r@.contains(x) {
                        let a = choose|a: int| 0 <= a < r@.len() && r@[a] == x;
                        if a < k {
                            assert(r0[a] == x);
                        } else if a > k {
                            assert(r0[a - 1] == x);
                        }
                    }
                    if r0.contains(x) {
                        let a = choose|a: int| 0 <= a < r0.len() && r0[a] == x;
                        if a < k {
                            assert(r@[a] == x);
                        } else {
                            assert(r@[a + 1] == x);
                        }
                    }
                    if x == e {
                        assert(r@[k as int] == e);
                    }
                }
            }
        } else {
            proof {
                assert(r0[k as int] == e);
                assert forall|x: BlockId| r@.contains(x) <==> v@.take(i + 1).contains(x) by {
                    if x == e {
                        assert(r@[k as int] == e);
                    }
                }
            }
        }
        i = i + 1;
    }
    proof {
        assert(v@.take(v@.len() as int) =~= v@);
    }
    r
}

/// The body of the natural loop of the back edge `back_edge -> header`:
/// walk backwards from `back_edge`, stopping at the header. The blocks come
/// out in increasing order of index.
fn compute_loop_body(cfg: &Cfg, header: BlockId, back_edge: BlockId) -> (body: Vec<BlockId>)
    ensures
        ascending(body@),
        body@.no_duplicates(),
        forall|x: usize| #[trigger] body@.contains(BlockId(x)) <==> in_loop_body(
            cfg@,
            header.0 as int,
            back_edge.0 as int,
            x as int,
        ),
{
    broadcast use vstd::seq_lib::lemma_seq_contains_after_push;

    let g = cfg.blocks();
    let n = g.len();
    let ghost h = header.0 as int;
    let ghost l = back_edge.0 as int;
    let mut body: Vec<BlockId> = Vec::new();
    body.push(header);
    let mut stack: Vec<BlockId> = Vec::new();
    stack.push(back_edge);
    proof {
        if l != h {
            let w = seq![l];
            assert(back_walk(g@, h, l, w));
        }
        assert(stack@[0] == back_edge);
        assert(body@[0] == header);
    }
    loop
        invariant
            n == g@.len(),
            g@ == cfg@,
            h == header.0,
            l == back_edge.0,
            body@.no_duplicates(),
            body@.contains(header),
            forall|i: int| 0 <= i < body@.len() ==> in_loop_body(g@, h, l, (#[trigger] body@[i]).0 as int),
            forall|i: int| 0 <= i < stack@.len() ==> in_loop_body(g@, h, l, (#[trigger] stack@[i]).0 as int),
            closed(g@, h, body@, stack@),
            l == h || body@.contains(back_edge) || stack@.contains(back_edge),
        ensures
            body@.no_duplicates(),
            forall|i: int| 0 <= i < body@.len() ==> in_loop_body(g@, h, l, (#[trigger] body@[i]).0 as int),
            closed(g@, h, body@, Seq::empty()),
            l == h || body@.contains(back_edge),
        decreases usize::MAX + 1 - body@.len(), stack@.len(),
    {
        proof {
            lemma_distinct_ids_bound(body@);
        }
        let ghost b0 = body@;
        let ghost s0 = stack@;
        match stack.pop() {
            None => {
                proof {
                    assert(stack@ =~= Seq::<BlockId>::empty());
                }
                break ;
            },
            Some(node) => {
                proof {
                    assert(s0 == stack@.push(node));
                    assert(s0[s0.len() - 1] == node);
                    assert forall|i: int|
                        0 <= i < stack@.len() implies in_loop_body(g@, h, l, (#[trigger] stack@[i]).0 as int) by {
                        assert(s0[i] == stack@[i]);
                    }
                }
                if node != header && !contains_id(&body, node) {
                    body.push(node);
                    proof {
                        assert(body@ == b0.push(node));
                        vstd::seq_lib::lemma_seq_contains_after_push(b0, node, header);
                        lemma_add_once_keeps_distinct(b0, node);
                        lemma_distinct_ids_bound(body@);
                        assert(add_once(b0, node) == body@);
                        assert forall|x: BlockId| b0.contains(x) || s0.contains(x) implies body@.contains(
                            x,
                        ) || stack@.contains(x) by {
                            vstd::seq_lib::lemma_seq_contains_after_push(b0, node, x);
                            if s0.contains(x) && x != node {
                                let i = choose|i: int| 0 <= i < s0.len() && s0[i] == x;
                                assert(stack@[i] == x);
                            }
                        }
                        assert forall|i: int| 0 <= i < b0.len() implies closed_for(
                            g@,
                            h,
                            body@,
                            stack@,
                            (#[trigger] b0[i]).0 as int,
                        ) by {
                            lemma_closed_for_mono(g@, h, b0, s0, body@, stack@, b0[i].0 as int);
                        }
                        assert(in_loop_body(g@, h, l, node.0 as int));
                    }
                    if node.0 < n {
                        let preds = &g[node.0].predecessors;
                        let ghost y = node.0 as int;
                        let ghost wy = choose|w: Seq<int>| #[trigger] back_walk(g@, h, l, w) && w.last() == y;
                        let mut k: usize = 0;
                        while k < preds.len()
                            invariant
                                n == g@.len(),
                                y == node.0,
                                0 <= y < n,
                                y != h,
                                *preds == g@[y].predecessors,
                                back_walk(g@, h, l, wy),
                                wy.last() == y,
                                k <= preds@.len(),
                                body@ == b0.push(node),
                                l == h || body@.contains(back_edge) || stack@.contains(back_edge),
                                forall|i: int| 0 <= i < b0.len() ==> closed_for(
                                    g@,
                                    h,
                                    body@,
                                    stack@,
                                    (#[trigger] b0[i]).0 as int,
                                ),
                                forall|kk: int| 0 <= kk < k ==> #[trigger] pred_covered(g@, body@, stack@, y, kk),
                                forall|i: int|
                                    0 <= i < stack@.len() ==> in_loop_body(g@, h, l, (#[trigger] stack@[i]).0 as int),
                            decreases preds@.len() - k,
                        {
                            let p = preds[k];
                            if !contains_id(&body, p) {
                                let ghost s1 = stack@;
                                stack.push(p);
                                proof {
                                    assert(stack@ == s1.push(p));
                                    assert forall|x: BlockId| s1.contains(x) implies stack@.contains(x) by {
                                        vstd::seq_lib::lemma_seq_contains_after_push(s1, p, x);
                                    }
                                    assert forall|i: int| 0 <= i < b0.len() implies closed_for(
                                        g@,
                                        h,
                                        body@,
                                        stack@,
                                        (#[trigger] b0[i]).0 as int,
                                    ) by {
                                        lemma_closed_for_mono(g@, h, body@, s1, body@, stack@, b0[i].0 as int);
                                    }
                                    assert forall|kk: int| 0 <= kk < k implies #[trigger] pred_covered(g@, body@, stack@, y, kk) by {
                                        assert(pred_covered(g@, body@, s1, y, kk));
                                    }
                                    if p.0 as int != h {
                                        let w2 = wy.push(p.0 as int);
                                        assert(back_step(g@, w2, wy.len() - 1)) by {
                                            assert(w2[wy.len() - 1] == y);
                                            assert(w2[wy.len() - 1 + 1] == p.0 as int);
                                            assert(g@[y].predecessors@[k as int].0 == p.0);
                                            assert(g@[w2[wy.len() - 1]].predecessors@[k as int].0 == w2[wy.len() - 1 + 1]);
                                        }
                                        assert forall|i: int| 0 <= i < w2.len() - 1 implies #[trigger] back_step(g@, w2, i) by {
                                            if i < wy.len() - 1 {
                                                assert(back_step(g@, wy, i));
                                                assert(w2[i] == wy[i] && w2[i + 1] == wy[i + 1]);
                                            }
                                        }
                                        assert forall|i: int| 0 <= i < w2.len() implies #[trigger] w2[i] != h by {
                                            if i < wy.len() {
                                                assert(wy[i] != h);
                                            }
                                        }
                                        assert(back_walk(g@, h, l, w2));
                                    }
                                    assert(stack@[stack@.len() - 1] == p);
                                    assert(in_loop_body(g@, h, l, p.0 as int));
                                    assert forall|i: int|
                                        0 <= i < stack@.len() implies in_loop_body(g@, h, l, (#[trigger] stack@[i]).0 as int) by {
                                        if i < s1.len() {
                                            assert(stack@[i] == s1[i]);
                                        }
                                    }
                                }
                            }
                            proof {
                                assert(pred_covered(g@, body@, stack@, y, k as int));
                            }
                            k = k + 1;
                        }
                        proof {
                            assert(closed_for(g@, h, body@, stack@, y));
                        }
                    }
                    proof {
                        assert forall|i: int| 0 <= i < body@.len() implies closed_for(
                            g@,
                            h,
                            body@,
                            stack@,
                            (#[trigger] body@[i]).0 as int,
                        ) by {
                            if i < b0.len() {
                                assert(body@[i] == b0[i]);
                            }
                        }
                    }
                } else {
                    proof {
                        assert(body@.contains(node)) by {
                            if node == header {
                            }
                        }
                        assert forall|x: BlockId| b0.contains(x) || s0.contains(x) implies body@.contains(
                            x,
                        ) || stack@.contains(x) by {
                            if s0.contains(x) && x != node {
                                let i = choose|i: int| 0 <= i < s0.len() && s0[i] == x;
                                assert(stack@[i] == x);
                            }
                        }
                        assert forall|i: int| 0 <= i < body@.len() implies closed_for(
                            g@,
                            h,
                            body@,
                            stack@,
                            (#[trigger] body@[i]).0 as int,
                        ) by {
                            lemma_closed_for_mono(g@, h, b0, s0, body@, stack@, body@[i].0 as int);
                        }
                    }
                }
            },
        }
    }
    proof {
        assert forall|x: usize| #[trigger] body@.contains(BlockId(x)) <==> in_loop_body(
            g@,
            h,
            l,
            x as int,
        ) by {
            if body@.contains(BlockId(x)) {
                let i = choose|i: int| 0 <= i < body@.len() && body@[i] == BlockId(x);
                assert(in_loop_body(g@, h, l, body@[i].0 as int));
            }
            if in_loop_body(g@, h, l, x as int) {
                if x as int != h {
                    let w = choose|w: Seq<int>| #[trigger] back_walk(g@, h, l, w) && w.last() == x as int;
                    assert(w[0] == l);
                    assert(l != h);
                    lemma_walk_in_body(g@, h, l, body@, w);
                }
            }
        }
    }
    let sorted = sorted_ids(&body);
    proof {
        lemma_ascending_distinct(sorted@);
    }
    sorted
}

/// A detected natural loop.
#[derive(Clone, Debug, PartialEq, Eq)]
pub struct NaturalLoop {
    /// The loop header.
    pub header: BlockId,
    /// The back edge source.
    pub back_edge: BlockId,
    /// All blocks in the loop body (including header), each once, in
    /// increasing order of index; so two detected loops are equal exactly
    /// when their headers, back edges and sets of body blocks are.
    pub body: Vec<BlockId>,
}

/// `l` is the natural loop of the back edge `latch -> header` in `g`.
pub open spec fn is_natural_loop(g: Seq<BasicBlock>, l: NaturalLoop, latch: int, header: int) -> bool {
    &&& l.header.0 == header
    &&& l.back_edge.0 == latch
    &&& ascending(l.body@)
    &&& l.body@.no_duplicates()
    &&& forall|x: usize| #[trigger] l.body@.contains(BlockId(x)) <==> in_loop_body(g, header, latch, x as int)
}

/// Number of loops among the first `kk` of `loops` whose body holds `b`.
pub open spec fn count_containing(loops: Seq<NaturalLoop>, b: BlockId, kk: int) -> nat
    decreases kk,
{
    if kk <= 0 {
        0
    } else {
        count_containing(loops, b, kk - 1) + if loops[kk - 1].body@.contains(b) {
            1nat
        } else {
            0nat
        }
    }
}

/// `b` is in the body of one of `loops`.
pub open spec fn in_some_body(loops: Seq<NaturalLoop>, b: BlockId) -> bool {
    exists|i: int| 0 <= i < loops.len() && (#[trigger] loops[i]).body@.contains(b)
}

/// The nesting depth of `b`: the number of loops whose body holds it; none
/// when no loop body holds it.
pub open spec fn depth_spec(loops: Seq<NaturalLoop>, b: BlockId) -> Option<int> {
    if in_some_body(loops, b) {
        Some(count_containing(loops, b, loops.len() as int) as int)
    } else {
        None
    }
}

/// The first value recorded for `b` in `entries`.
pub open spec fn lookup(entries: Seq<(BlockId, usize)>, b: BlockId) -> Option<usize>
    decreases entries.len(),
{
    if entries.len() == 0 {
        None
    } else if entries[0].0 == b {
        Some(entries[0].1)
    } else {
        lookup(entries.drop_first(), b)
    }
}

/// `lookup` after appending an entry: earlier entries win.
proof fn lemma_lookup_push(entries: Seq<(BlockId, usize)>, k: BlockId, v: usize, x: BlockId)
    ensures
        lookup(entries.push((k, v)), x) == (match lookup(entries, x) {
            Some(w) => Some(w),
            None => if k == x {
                Some(v)
            } else {
                None
            },
        }),
    decreases entries.len(),
{
    let e2 = entries.push((k, v));
    if entries.len() == 0 {
        assert(e2.drop_first() =~= Seq::<(BlockId, usize)>::empty());
    } else {
        assert(e2.drop_first() =~= entries.drop_first().push((k, v)));
        lemma_lookup_push(entries.drop_first(), k, v, x);
    }
}

/// The first value recorded for `b` in `entries`.
fn lookup_exec(entries: &Vec<(BlockId, usize)>, b: BlockId) -> (r: Option<usize>)
    ensures
        r == lookup(entries@, b),
{
    let mut i: usize = 0;
    assert(entries@.skip(0) =~= entries@);
    while i < entries.len()
        invariant
            i <= entries@.len(),
            lookup(entries@, b) == lookup(entries@.skip(i as int), b),
        decreases entries@.len() - i,
    {
        let (k, v) = entries[i];
        proof {
            let rest = entries@.skip(i as int);
            assert(rest[0] == entries@[i as int]);
            assert(rest.drop_first() =~= entries@.skip(i + 1));
        }
        if k == b {
            return Some(v);
        }
        i = i + 1;
    }
    None
}

/// Loop nesting information.
#[derive(Debug)]
pub struct LoopNesting {
    depths: Vec<(BlockId, usize)>,
}

impl LoopNesting {
    /// The depth recorded for `b`.
    pub closed spec fn depth_of(&self, b: BlockId) -> Option<usize> {
        lookup(self.depths@, b)
    }

    /// Get the nesting depth of a block.
    pub fn depth(&self, b: BlockId) -> (r: Option<usize>)
        ensures
            r == self.depth_of(b),
    {
        lookup_exec(&self.depths, b)
    }
}

impl NaturalLoop {
    /// Number of blocks in the loop.
    pub fn len(&self) -> (r: usize)
        ensures
            r == self.body@.len(),
    {
        self.body.len()
    }

    /// Returns true if the loop has no body blocks.
    pub fn is_empty(&self) -> (r: bool)
        ensures
            r == (self.body@.len() == 0),
    {
        self.body.len() == 0
    }

    /// Check if a block is in this loop.
    pub fn contains(&self, b: BlockId) -> (r: bool)
        ensures
            r == self.body@.contains(b),
    {
        contains_id(&self.body, b)
    }

    /// Nesting depth of the header (1 = outermost; 1 when none is recorded).
    pub fn depth(&self, nesting: &LoopNesting) -> (r: usize)
        ensures
            r == match nesting.depth_of(self.header) {
                Some(d) => d,
                None => 1,
            },
    {
        match nesting.depth(self.header) {
            Some(d) => d,
            None => 1,
        }
    }
}

/// `r` is the depth `depth_spec` gives.
pub open spec fn same_depth(r: Option<usize>, s: Option<int>) -> bool {
    match r {
        Some(v) => s == Some(v as int),
        None => s is None,
    }
}

/// `i` is the index of the innermost loop holding `b`: the one with the
/// smallest body, the first among equals.
pub open spec fn is_innermost(loops: Seq<NaturalLoop>, b: BlockId, i: int) -> bool {
    &&& 0 <= i < loops.len()
    &&& loops[i].body@.contains(b)
    &&& forall|j: int|
        0 <= j < loops.len() && (#[trigger] loops[j]).body@.contains(b) ==> loops[i].body@.len()
            <= loops[j].body@.len()
    &&& forall|j: int|
        0 <= j < i && (#[trigger] loops[j]).body@.contains(b) ==> loops[i].body@.len()
            < loops[j].body@.len()
}

/// Number of loops whose body holds `b`.
fn count_loops_containing(loops: &Vec<NaturalLoop>, b: BlockId) -> (c: usize)
    ensures
        c == count_containing(loops@, b, loops@.len() as int),
        c <= loops@.len(),
{
    let mut c: usize = 0;
    let mut j: usize = 0;
    while j < loops.len()
        invariant
            j <= loops@.len(),
            c <= j,
            c == count_containing(loops@, b, j as int),
        decreases loops@.len() - j,
    {
        if loops[j].contains(b) {
            c = c + 1;
        }
        j = j + 1;
    }
    c
}

/// Result of loop detection.
#[derive(Debug)]
pub struct LoopInfo {
    pub loops: Vec<NaturalLoop>,
    pub nesting: LoopNesting,
}

impl LoopInfo {
    /// This is the loop information of graph `g`: one natural loop per back
    /// edge, in the order of `back_edges`, and the nesting depths of
    /// `depth_spec`.
    pub open spec fn is_loop_info_of(&self, g: Seq<BasicBlock>) -> bool {
        &&& self.loops@.len() == back_edges(g).len()
        &&& forall|k: int|
            0 <= k < self.loops@.len() ==> is_natural_loop(
                g,
                #[trigger] self.loops@[k],
                back_edges(g)[k].0,
                back_edges(g)[k].1,
            )
        &&& forall|b: BlockId| same_depth(#[trigger] self.nesting.depth_of(b), depth_spec(self.loops@, b))
    }

    /// Detect natural loops in a CFG.
    pub fn detect(cfg: &Cfg) -> (r: Self)
        requires
            cfg.wf(),
        ensures
            r.is_loop_info_of(cfg@),
    {
        let dom = DominanceTree::compute(cfg);
        let g = cfg.blocks();
        let n = g.len();
        proof {
            cfg.lemma_wf();
        }
        let mut loops: Vec<NaturalLoop> = Vec::new();
        let mut i: usize = 0;
        while i < n
            invariant
                n == g@.len(),
                g@ == cfg@,
                crate::cfg::ids_match(g@),
                dom.is_dominance_of(g@),
                i <= n,
                loops@.len() == back_edges_upto(g@, i as int).len(),
                forall|k: int|
                    0 <= k < loops@.len() ==> is_natural_loop(
                        g@,
                        #[trigger] loops@[k],
                        back_edges_upto(g@, i as int)[k].0,
                        back_edges_upto(g@, i as int)[k].1,
                    ),
            decreases n - i,
        {
            let block = &g[i];
            let succs = &block.successors;
            let ghost before = back_edges_upto(g@, i as int);
            let mut k: usize = 0;
            while k < succs.len()
                invariant
                    n == g@.len(),
                    g@ == cfg@,
                    i < n,
                    *block == g@[i as int],
                    block.id.0 == i,
                    *succs == block.successors,
                    dom.is_dominance_of(g@),
                    k <= succs@.len(),
                    before == back_edges_upto(g@, i as int),
                    loops@.len() == (before + block_back_edges(g@, i as int, k as int)).len(),
                    forall|kk: int|
                        0 <= kk < loops@.len() ==> is_natural_loop(
                            g@,
                            #[trigger] loops@[kk],
                            (before + block_back_edges(g@, i as int, k as int))[kk].0,
                            (before + block_back_edges(g@, i as int, k as int))[kk].1,
                        ),
                decreases succs@.len() - k,
            {
                let s = succs[k];
                let ghost cur = before + block_back_edges(g@, i as int, k as int);
                let ghost next = before + block_back_edges(g@, i as int, k + 1);
                proof {
                    if s.0 < n {
                        lemma_greatest_solution_is_path_dominance(g@, dom.doms(), s.0 as int, i as int);
                    }
                    assert(block_back_edges(g@, i as int, k + 1) == block_back_edges(g@, i as int, k as int)
                        + if dominates_in(g@, s.0 as int, i as int) {
                        seq![(i as int, s.0 as int)]
                    } else {
                        Seq::empty()
                    });
                }
                if dom.dominates(s, block.id) {
                    let body = compute_loop_body(cfg, s, block.id);
                    let ghost prev = loops@;
                    loops.push(NaturalLoop { header: s, back_edge: block.id, body });
                    proof {
                        assert(next =~= cur.push((i as int, s.0 as int)));
                        assert forall|kk: int| 0 <= kk < loops@.len() implies is_natural_loop(
                            g@,
                            #[trigger] loops@[kk],
                            next[kk].0,
                            next[kk].1,
                        ) by {
                            if kk < prev.len() {
                                assert(loops@[kk] == prev[kk]);
                            }
                        }
                    }
                } else {
                    proof {
                        assert(next =~= cur);
                    }
                }
                k = k + 1;
            }
            proof {
                assert(back_edges_upto(g@, i + 1) == before + block_back_edges(
                    g@,
                    i as int,
                    g@[i as int].successors@.len() as int,
                ));
            }
            i = i + 1;
        }
        let nesting = Self::nesting_of(&loops);
        LoopInfo { loops, nesting }
    }

    /// Nesting depths: every block in some loop body gets the number of
    /// loops whose body holds it.
    fn nesting_of(loops: &Vec<NaturalLoop>) -> (r: LoopNesting)
        ensures
            forall|b: BlockId| same_depth(#[trigger] r.depth_of(b), depth_spec(loops@, b)),
    {
        let mut depths: Vec<(BlockId, usize)> = Vec::new();
        let mut li: usize = 0;
        while li < loops.len()
            invariant
                li <= loops@.len(),
                forall|x: BlockId|
                    #[trigger] lookup(depths@, x) == if exists|i2: int|
                        0 <= i2 < li && (#[trigger] loops@[i2]).body@.contains(x) {
                        Some(count_containing(loops@, x, loops@.len() as int) as usize)
                    } else {
                        None
                    },
            decreases loops@.len() - li,
        {
            let body = &loops[li].body;
            let mut bi: usize = 0;
            while bi < body.len()
                invariant
                    li < loops@.len(),
                    *body == loops@[li as int].body,
                    bi <= body@.len(),
                    forall|x: BlockId|
                        #[trigger] lookup(depths@, x) == if (exists|i2: int|
                            0 <= i2 < li && (#[trigger] loops@[i2]).body@.contains(x))
                            || body@.take(bi as int).contains(x) {
                            Some(count_containing(loops@, x, loops@.len() as int) as usize)
                        } else {
                            None
                        },
                decreases body@.len() - bi,
            {
                let b = body[bi];
                let ghost prev = depths@;
                if lookup_exec(&depths, b).is_none() {
                    let c = count_loops_containing(loops, b);
                    depths.push((b, c));
                }
                proof {
                    assert(body@.take(bi + 1) =~= body@.take(bi as int).push(b));
                    assert forall|x: BlockId| #[trigger] lookup(depths@, x) == if (exists|i2: int|
                        0 <= i2 < li && (#[trigger] loops@[i2]).body@.contains(x))
                        || body@.take(bi + 1).contains(x) {
                        Some(count_containing(loops@, x, loops@.len() as int) as usize)
                    } else {
                        None
                    } by {
                        vstd::seq_lib::lemma_seq_contains_after_push(body@.take(bi as int), b, x);
                        if depths@ != prev {
                            let c = depths@.last().1;
                            assert(depths@ == prev.push((b, c)));
                            lemma_lookup_push(prev, b, c, x);
                        }
                    }
                }
                bi = bi + 1;
            }
            proof {
                assert(body@.take(body@.len() as int) =~= body@);
                assert forall|x: BlockId| #[trigger] lookup(depths@, x) == if exists|i2: int|
                    0 <= i2 < li + 1 && (#[trigger] loops@[i2]).body@.contains(x) {
                    Some(count_containing(loops@, x, loops@.len() as int) as usize)
                } else {
                    None
                } by {
                    if exists|i2: int| 0 <= i2 < li + 1 && (#[trigger] loops@[i2]).body@.contains(x) {
                        let i2 = choose|i2: int| 0 <= i2 < li + 1 && (#[trigger] loops@[i2]).body@.contains(x);
                        if i2 == li {
                        }
                    }
                }
            }
            li = li + 1;
        }
        let r = LoopNesting { depths };
        proof {
            assert forall|b: BlockId| same_depth(#[trigger] r.depth_of(b), depth_spec(loops@, b)) by {
                lemma_count_containing_bound(loops@, b, loops@.len() as int);
            }
        }
        r
    }

    /// Number of detected loops.
    pub fn len(&self) -> (r: usize)
        ensures
            r == self.loops@.len(),
    {
        self.loops.len()
    }

    /// Returns true if no loops.
    pub fn is_empty(&self) -> (r: bool)
        ensures
            r == (self.loops@.len() == 0),
    {
        self.loops.len() == 0
    }

    /// Find the innermost loop containing a block: the one with the smallest
    /// body, the first among equals.
    pub fn innermost_loop(&self, b: BlockId) -> (r: Option<&NaturalLoop>)
        ensures
            match r {
                Some(l) => exists|i: int| is_innermost(self.loops@, b, i) && *l == self.loops@[i],
                None => !in_some_body(self.loops@, b),
            },
            match r {
                Some(l) => {
                    &&& l.body@.contains(b)
                    &&& exists|i: int|
                        0 <= i < self.loops@.len() && *l == self.loops@[i] && forall|j: int|
                            0 <= j < i && (#[trigger] self.loops@[j]).body@.contains(b) ==> l.body@.len()
                                < self.loops@[j].body@.len()
                    &&& forall|j: int|
                        0 <= j < self.loops@.len() && (#[trigger] self.loops@[j]).body@.contains(b)
                            ==> l.body@.len() <= self.loops@[j].body@.len()
                },
                None => forall|j: int| 0 <= j < self.loops@.len() ==> !(#[trigger] self.loops@[j]).body@.contains(b),
            },
    {
        let mut best: Option<usize> = None;
        let mut i: usize = 0;
        while i < self.loops.len()
            invariant
                i <= self.loops@.len(),
                match best {
                    Some(x) => {
                        &&& x < i
                        &&& self.loops@[x as int].body@.contains(b)
                        &&& forall|j: int|
                            0 <= j < i && (#[trigger] self.loops@[j]).body@.contains(b)
                                ==> self.loops@[x as int].body@.len() <= self.loops@[j].body@.len()
                        &&& forall|j: int|
                            0 <= j < x && (#[trigger] self.loops@[j]).body@.contains(b)
                                ==> self.loops@[x as int].body@.len() < self.loops@[j].body@.len()
                    },
                    None => forall|j: int| 0 <= j < i ==> !(#[trigger] self.loops@[j]).body@.contains(b),
                },
            decreases self.loops@.len() - i,
        {
            if self.loops[i].contains(b) {
                match best {
                    None => {
                        best = Some(i);
                    },
                    Some(x) => {
                        if self.loops[i].body.len() < self.loops[x].body.len() {
                            best = Some(i);
                        }
                    },
                }
            }
            i = i + 1;
        }
        match best {
            Some(x) => {
                proof {
                    assert(is_innermost(self.loops@, b, x as int));
                    assert forall|j: int|
                        0 <= j < self.loops@.len() && (#[trigger] self.loops@[j]).body@.contains(b)
                            implies self.loops@[x as int].body@.len() <= self.loops@[j].body@.len() by {
                        assert(self.loops@[j].body@.contains(b));
                    }
                }
                Some(&self.loops[x])
            },
            None => None,
        }
    }
}

proof fn lemma_count_containing_bound(loops: Seq<NaturalLoop>, b: BlockId, kk: int)
    requires
        0 <= kk <= loops.len(),
    ensures
        count_containing(loops, b, kk) <= kk,
    decreases kk,
{
    if kk > 0 {
        lemma_count_containing_bound(loops, b, kk - 1);
    }
}

} // verus!
