//! Paths through a control flow graph, given as its list of blocks.
//!
//! Two kinds of edge are read from the blocks: the predecessor lists (which
//! the dominance analysis and loop detection follow) and the successor lists
//! (which the depth-first order follows). A path is a sequence of block
//! indices, every one of them a block of the graph.

use vstd::prelude::*;
use crate::basic_block::BasicBlock;

verus! {

/// `v` is a block of `g` whose predecessor list names `u`.
pub open spec fn pred_edge(g: Seq<BasicBlock>, u: int, v: int) -> bool {
    &&& 0 <= v < g.len()
    &&& exists|k: int|
        0 <= k < g[v].predecessors@.len() && (#[trigger] g[v].predecessors@[k]).0 == u
}

/// `u` is a block of `g` whose successor list names `v`.
pub open spec fn succ_edge(g: Seq<BasicBlock>, u: int, v: int) -> bool {
    &&& 0 <= u < g.len()
    &&& exists|k: int| 0 <= k < g[u].successors@.len() && (#[trigger] g[u].successors@[k]).0 == v
}

/// The step from `q[i]` to `q[i + 1]` follows a predecessor-list edge.
pub open spec fn pred_step(g: Seq<BasicBlock>, q: Seq<int>, i: int) -> bool {
    pred_edge(g, q[i], q[i + 1])
}

/// The step from `q[i]` to `q[i + 1]` follows a successor-list edge.
pub open spec fn succ_step(g: Seq<BasicBlock>, q: Seq<int>, i: int) -> bool {
    succ_edge(g, q[i], q[i + 1])
}

/// Every entry of `q` is a block of `g`.
pub open spec fn in_blocks(g: Seq<BasicBlock>, q: Seq<int>) -> bool {
    forall|i: int| 0 <= i < q.len() ==> 0 <= #[trigger] q[i] < g.len()
}

/// A nonempty walk along predecessor-list edges.
pub open spec fn is_walk(g: Seq<BasicBlock>, q: Seq<int>) -> bool {
    &&& q.len() >= 1
    &&& in_blocks(g, q)
    &&& forall|i: int| 0 <= i < q.len() - 1 ==> #[trigger] pred_step(g, q, i)
}

/// A nonempty walk along successor-list edges.
pub open spec fn is_succ_walk(g: Seq<BasicBlock>, q: Seq<int>) -> bool {
    &&& q.len() >= 1
    &&& in_blocks(g, q)
    &&& forall|i: int| 0 <= i < q.len() - 1 ==> #[trigger] succ_step(g, q, i)
}

/// A walk from the entry block (index 0) to `b` along predecessor-list edges.
pub open spec fn is_path_to(g: Seq<BasicBlock>, q: Seq<int>, b: int) -> bool {
    &&& is_walk(g, q)
    &&& q[0] == 0
    &&& q.last() == b
}

/// `b` can be reached from the entry along predecessor-list edges.
pub open spec fn reachable(g: Seq<BasicBlock>, b: int) -> bool {
    exists|q: Seq<int>| #[trigger] is_path_to(g, q, b)
}

/// `b` can be reached from the entry along successor-list edges.
pub open spec fn succ_reachable(g: Seq<BasicBlock>, b: int) -> bool {
    exists|q: Seq<int>| #[trigger] is_succ_walk(g, q) && q[0] == 0 && q.last() == b
}

/// `b` can be reached from `a` along successor-list edges.
pub open spec fn succ_reaches(g: Seq<BasicBlock>, a: int, b: int) -> bool {
    exists|q: Seq<int>| #[trigger] is_succ_walk(g, q) && q[0] == a && q.last() == b
}

/// `b` can be reached from `a` along successor-list edges through blocks
/// all unmarked in `v`.
pub open spec fn reaches_unmarked(g: Seq<BasicBlock>, v: Seq<bool>, a: int, b: int) -> bool {
    exists|q: Seq<int>|
        #[trigger] is_succ_walk(g, q) && q[0] == a && q.last() == b && forall|i: int|
            0 <= i < q.len() ==> !v[#[trigger] q[i]]
}

/// Every path from the entry to `b` passes through `d`: `d` dominates `b`
/// in the sense of paths.
pub open spec fn on_every_path(g: Seq<BasicBlock>, d: int, b: int) -> bool {
    forall|q: Seq<int>| #[trigger] is_path_to(g, q, b) ==> q.contains(d)
}

pub proof fn lemma_walk_subrange(g: Seq<BasicBlock>, q: Seq<int>, i: int, j: int)
    requires
        is_walk(g, q),
        0 <= i < j <= q.len(),
    ensures
        is_walk(g, q.subrange(i, j)),
{
    let s = q.subrange(i, j);
    assert forall|k: int| 0 <= k < s.len() - 1 implies #[trigger] pred_step(g, s, k) by {
        assert(pred_step(g, q, i + k));
    }
}

pub proof fn lemma_walk_concat(g: Seq<BasicBlock>, a: Seq<int>, b: Seq<int>)
    requires
        is_walk(g, a),
        is_walk(g, b),
        pred_edge(g, a.last(), b[0]),
    ensures
        is_walk(g, a + b),
{
    let s = a + b;
    assert forall|k: int| 0 <= k < s.len() - 1 implies #[trigger] pred_step(g, s, k) by {
        if k < a.len() - 1 {
            assert(pred_step(g, a, k));
        } else if k >= a.len() {
            assert(pred_step(g, b, k - a.len()));
        }
    }
    assert forall|k: int| 0 <= k < s.len() implies 0 <= #[trigger] s[k] < g.len() by {
        if k < a.len() {
            assert(a[k] == s[k]);
        } else {
            assert(b[k - a.len()] == s[k]);
        }
    }
}

/// Extending a walk by one edge.
pub proof fn lemma_walk_push(g: Seq<BasicBlock>, q: Seq<int>, v: int)
    requires
        is_walk(g, q),
        pred_edge(g, q.last(), v),
    ensures
        is_walk(g, q.push(v)),
{
    let one = seq![v];
    assert(in_blocks(g, one));
    lemma_walk_concat(g, q, one);
    assert(q + one =~= q.push(v));
}

/// A path with more than one block ends with an edge from the block before
/// its last, and without its last block it is a path to that block.
pub proof fn lemma_path_drop_last(g: Seq<BasicBlock>, q: Seq<int>, b: int)
    requires
        is_path_to(g, q, b),
        q.len() >= 2,
    ensures
        is_path_to(g, q.drop_last(), q[q.len() - 2]),
        pred_edge(g, q[q.len() - 2], b),
{
    lemma_walk_subrange(g, q, 0, q.len() - 1);
    assert(q.subrange(0, q.len() - 1) =~= q.drop_last());
    assert(pred_step(g, q, q.len() - 2));
}

/// The prefix of a path up to position `j` is a path to the block there.
pub proof fn lemma_path_prefix(g: Seq<BasicBlock>, q: Seq<int>, b: int, j: int)
    requires
        is_path_to(g, q, b),
        0 <= j < q.len(),
    ensures
        is_path_to(g, q.take(j + 1), q[j]),
{
    lemma_walk_subrange(g, q, 0, j + 1);
    assert(q.subrange(0, j + 1) =~= q.take(j + 1));
}

/// Extending a successor walk by one edge.
pub proof fn lemma_succ_walk_push(g: Seq<BasicBlock>, q: Seq<int>, v: int)
    requires
        is_succ_walk(g, q),
        succ_edge(g, q.last(), v),
        0 <= v < g.len(),
    ensures
        is_succ_walk(g, q.push(v)),
{
    let q2 = q.push(v);
    assert forall|i: int| 0 <= i < q2.len() - 1 implies #[trigger] succ_step(g, q2, i) by {
        if i < q.len() - 1 {
            assert(succ_step(g, q, i));
        }
    }
}

/// A nonempty piece of a successor walk is a successor walk.
pub proof fn lemma_succ_walk_subrange(g: Seq<BasicBlock>, q: Seq<int>, i: int, j: int)
    requires
        is_succ_walk(g, q),
        0 <= i < j <= q.len(),
    ensures
        is_succ_walk(g, q.subrange(i, j)),
{
    let s = q.subrange(i, j);
    assert forall|k: int| 0 <= k < s.len() - 1 implies #[trigger] succ_step(g, s, k) by {
        assert(succ_step(g, q, i + k));
    }
}

/// Any block of a successor walk reaches the walk's last block.
pub proof fn lemma_succ_walk_reaches_last(g: Seq<BasicBlock>, q: Seq<int>, i: int)
    requires
        is_succ_walk(g, q),
        0 <= i < q.len(),
    ensures
        succ_reaches(g, q[i], q.last()),
{
    lemma_succ_walk_subrange(g, q, i, q.len() as int);
    let s = q.subrange(i, q.len() as int);
    assert(s[0] == q[i]);
    assert(s.last() == q.last());
}

/// Putting a block in front of a successor walk along an edge.
pub proof fn lemma_succ_walk_prepend(g: Seq<BasicBlock>, a: int, q: Seq<int>)
    requires
        is_succ_walk(g, q),
        succ_edge(g, a, q[0]),
    ensures
        is_succ_walk(g, seq![a] + q),
{
    let w = seq![a] + q;
    assert forall|i: int| 0 <= i < w.len() - 1 implies #[trigger] succ_step(g, w, i) by {
        if i > 0 {
            assert(succ_step(g, q, i - 1));
            assert(w[i] == q[i - 1] && w[i + 1] == q[i]);
        }
    }
    assert forall|i: int| 0 <= i < w.len() implies 0 <= #[trigger] w[i] < g.len() by {
        if i > 0 {
            assert(w[i] == q[i - 1]);
        }
    }
}

} // verus!
