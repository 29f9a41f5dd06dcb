//! What the dominator sets mean in terms of paths, and the laws of dominance
//! that follow.
//!
//! The dominance analysis computes the greatest solution of the dominator
//! equations. This module proves that this solution is exactly path
//! dominance: `d` is in the set of `b` when every path from the entry to `b`
//! (along predecessor-list edges) passes through `d`. From that follow the
//! usual laws: dominance is reflexive and transitive, antisymmetric on
//! reachable blocks, the entry dominates every block, and the chosen
//! immediate dominator of a reachable block is dominated by all its other
//! strict dominators.

use vstd::prelude::*;
use crate::basic_block::BasicBlock;
use crate::boolvec::{count_true, lemma_count_subset};
use crate::cfg::Cfg;
use crate::dominance::{
    contained_in, idom_entry_ok, is_dom_solution, is_greatest_dom_solution, is_idom_choice,
    preds_allow, strict_dom, transfer, DominanceTree,
};
use crate::paths::{
    is_path_to, lemma_path_drop_last, lemma_path_prefix, lemma_walk_concat, lemma_walk_push,
    lemma_walk_subrange, on_every_path, pred_edge, pred_step, reachable,
};

verus! {

/// The position of the first occurrence of `x` in `s`.
pub proof fn lemma_first_occurrence(s: Seq<int>, x: int) -> (i: int)
    requires
        s.contains(x),
    ensures
        0 <= i < s.len(),
        s[i] == x,
        forall|j: int| 0 <= j < i ==> s[j] != x,
    decreases s.len(),
{
    if s.drop_last().contains(x) {
        let i = lemma_first_occurrence(s.drop_last(), x);
        assert forall|j: int| 0 <= j < i implies s[j] != x by {
            assert(s.drop_last()[j] == s[j]);
        }
        i
    } else {
        let k = choose|k: int| 0 <= k < s.len() && s[k] == x;
        if k < s.len() - 1 {
            assert(s.drop_last()[k] == x);
        }
        assert forall|j: int| 0 <= j < s.len() - 1 implies s[j] != x by {
            assert(s.drop_last()[j] == s[j]);
        }
        s.len() - 1
    }
}

/// The position of the last occurrence of `x` in `s`.
pub proof fn lemma_last_occurrence(s: Seq<int>, x: int) -> (i: int)
    requires
        s.contains(x),
    ensures
        0 <= i < s.len(),
        s[i] == x,
        forall|j: int| i < j < s.len() ==> s[j] != x,
    decreases s.len(),
{
    if s.last() == x {
        s.len() - 1
    } else {
        let k = choose|k: int| 0 <= k < s.len() && s[k] == x;
        assert(s.drop_last()[k] == x);
        let i = lemma_last_occurrence(s.drop_last(), x);
        assert forall|j: int| i < j < s.len() implies s[j] != x by {
            if j < s.len() - 1 {
                assert(s.drop_last()[j] == s[j]);
            }
        }
        i
    }
}

/// A predecessor-list edge into `b` comes from a listed predecessor that is
/// a block.
proof fn lemma_edge_witness(g: Seq<BasicBlock>, p: int, b: int) -> (k: int)
    requires
        pred_edge(g, p, b),
        0 <= p < g.len(),
    ensures
        0 <= k < g[b].predecessors@.len(),
        g[b].predecessors@[k].0 == p,
{
    choose|k: int| 0 <= k < g[b].predecessors@.len() && (#[trigger] g[b].predecessors@[k]).0 == p
}

/// Every path to `b` passes through each block of the solution's row of `b`.
proof fn lemma_path_meets_solution(g: Seq<BasicBlock>, m: Seq<Seq<bool>>, q: Seq<int>, b: int, d: int)
    requires
        is_dom_solution(g, m),
        is_path_to(g, q, b),
        0 <= d < g.len(),
        m[b][d],
    ensures
        q.contains(d),
    decreases q.len(),
{
    assert(0 <= q[0] < g.len());
    assert(0 <= q[q.len() - 1] < g.len());
    if b == 0 {
        assert(m[0][d] == (d == 0));
        assert(q[0] == d);
    } else if d == b {
        assert(q[q.len() - 1] == d);
    } else {
        lemma_path_drop_last(g, q, b);
        let p = q[q.len() - 2];
        assert(0 <= p < g.len());
        let k = lemma_edge_witness(g, p, b);
        assert(m[b][d] == transfer(g, m, b, d));
        assert(preds_allow(g, m, b, d));
        assert(m[p][d]);
        lemma_path_meets_solution(g, m, q.drop_last(), p, d);
        let i = choose|i: int| 0 <= i < q.drop_last().len() && q.drop_last()[i] == d;
        assert(q[i] == d);
    }
}

/// The matrix of path dominance: entry `[b][d]` is set when every path from
/// the entry to `b` passes through `d`.
pub open spec fn path_dom_matrix(g: Seq<BasicBlock>) -> Seq<Seq<bool>> {
    Seq::new(g.len(), |b: int| Seq::new(g.len(), |d: int| on_every_path(g, d, b)))
}

/// Path dominance solves the dominator equations.
proof fn lemma_path_dom_is_solution(g: Seq<BasicBlock>)
    requires
        g.len() >= 1,
    ensures
        is_dom_solution(g, path_dom_matrix(g)),
{
    let n = g.len() as int;
    let s = path_dom_matrix(g);
    assert forall|d: int| 0 <= d < n implies #[trigger] s[0][d] == (d == 0) by {
        let one = seq![0int];
        assert(is_path_to(g, one, 0));
        if on_every_path(g, d, 0) {
            assert(one.contains(d));
        }
        if d == 0 {
            assert forall|q: Seq<int>| #[trigger] is_path_to(g, q, 0) implies q.contains(d) by {
                assert(q[0] == d);
            }
        }
    }
    assert forall|b: int, d: int| 1 <= b < n && 0 <= d < n implies #[trigger] s[b][d] == transfer(
        g,
        s,
        b,
        d,
    ) by {
        if on_every_path(g, d, b) && d != b {
            assert forall|k: int|
                0 <= k < g[b].predecessors@.len() && (#[trigger] g[b].predecessors@[k]).0
                    < g.len() implies s[g[b].predecessors@[k].0 as int][d] by {
                let p = g[b].predecessors@[k].0 as int;
                assert forall|r: Seq<int>| #[trigger] is_path_to(g, r, p) implies r.contains(d) by {
                    assert(pred_edge(g, p, b));
                    lemma_walk_push(g, r, b);
                    let rb = r.push(b);
                    assert(is_path_to(g, rb, b));
                    assert(rb.contains(d));
                    let i = choose|i: int| 0 <= i < rb.len() && rb[i] == d;
                    assert(i < r.len());
                    assert(r[i] == d);
                }
            }
        }
        if transfer(g, s, b, d) {
            assert forall|q: Seq<int>| #[trigger] is_path_to(g, q, b) implies q.contains(d) by {
                if d == b {
                    assert(q[q.len() - 1] == d);
                } else {
                    assert(0 <= q[0] < g.len());
                    lemma_path_drop_last(g, q, b);
                    let p = q[q.len() - 2];
                    assert(0 <= p < g.len());
                    let k = lemma_edge_witness(g, p, b);
                    assert(preds_allow(g, s, b, d));
                    assert(s[p][d]);
                    assert(q.drop_last().contains(d));
                    let i = choose|i: int| 0 <= i < q.drop_last().len() && q.drop_last()[i] == d;
                    assert(q[i] == d);
                }
            }
        }
    }
}

/// The greatest solution of the dominator equations is path dominance.
pub proof fn lemma_greatest_solution_is_path_dominance(g: Seq<BasicBlock>, m: Seq<Seq<bool>>, d: int, b: int)
    requires
        is_greatest_dom_solution(g, m),
        0 <= d < g.len(),
        0 <= b < g.len(),
    ensures
        m[b][d] <==> on_every_path(g, d, b),
{
    if m[b][d] {
        assert forall|q: Seq<int>| #[trigger] is_path_to(g, q, b) implies q.contains(d) by {
            lemma_path_meets_solution(g, m, q, b, d);
        }
    }
    lemma_path_dom_is_solution(g);
    assert(contained_in(path_dom_matrix(g), m, g.len() as int));
    if on_every_path(g, d, b) {
        assert(path_dom_matrix(g)[b][d]);
    }
}

/// Law: `a` dominates `b` in the tree computed from a graph exactly when both
/// are blocks of the graph and every path from the entry to `b` passes
/// through `a`.
pub proof fn law_dominance_is_path_dominance(cfg: &Cfg, tree: &DominanceTree, a: int, b: int)
    requires
        tree.is_dominance_of(cfg@),
    ensures
        tree.dom_rel(a, b) <==> (0 <= a < cfg@.len() && 0 <= b < cfg@.len() && on_every_path(
            cfg@,
            a,
            b,
        )),
{
    if 0 <= a < cfg@.len() && 0 <= b < cfg@.len() {
        lemma_greatest_solution_is_path_dominance(cfg@, tree.doms(), a, b);
    }
}

/// Law: the entry dominates every block.
pub proof fn law_entry_dominates_all(cfg: &Cfg, tree: &DominanceTree, b: int)
    requires
        tree.is_dominance_of(cfg@),
        0 <= b < cfg@.len(),
    ensures
        tree.dom_rel(0, b),
{
    assert forall|q: Seq<int>| #[trigger] is_path_to(cfg@, q, b) implies q.contains(0) by {
        assert(q[0] == 0);
    }
    law_dominance_is_path_dominance(cfg, tree, 0, b);
}

/// Law: every block dominates itself.
pub proof fn law_dominance_reflexive(cfg: &Cfg, tree: &DominanceTree, b: int)
    requires
        tree.is_dominance_of(cfg@),
        0 <= b < cfg@.len(),
    ensures
        tree.dom_rel(b, b),
{
    assert forall|q: Seq<int>| #[trigger] is_path_to(cfg@, q, b) implies q.contains(b) by {
        assert(q[q.len() - 1] == b);
    }
    law_dominance_is_path_dominance(cfg, tree, b, b);
}

proof fn lemma_path_dom_transitive(g: Seq<BasicBlock>, a: int, b: int, c: int)
    requires
        on_every_path(g, a, b),
        on_every_path(g, b, c),
    ensures
        on_every_path(g, a, c),
{
    assert forall|q: Seq<int>| #[trigger] is_path_to(g, q, c) implies q.contains(a) by {
        assert(q.contains(b));
        let j = choose|j: int| 0 <= j < q.len() && q[j] == b;
        lemma_path_prefix(g, q, c, j);
        let pre = q.take(j + 1);
        assert(pre.contains(a));
        let i = choose|i: int| 0 <= i < pre.len() && pre[i] == a;
        assert(q[i] == a);
    }
}

/// Law: dominance is transitive.
pub proof fn law_dominance_transitive(cfg: &Cfg, tree: &DominanceTree, a: int, b: int, c: int)
    requires
        tree.is_dominance_of(cfg@),
        tree.dom_rel(a, b),
        tree.dom_rel(b, c),
    ensures
        tree.dom_rel(a, c),
{
    law_dominance_is_path_dominance(cfg, tree, a, b);
    law_dominance_is_path_dominance(cfg, tree, b, c);
    lemma_path_dom_transitive(cfg@, a, b, c);
    law_dominance_is_path_dominance(cfg, tree, a, c);
}

/// A path to a reachable block `b` that passes through `b` only at its end.
pub proof fn lemma_path_first_visit(g: Seq<BasicBlock>, b: int) -> (q: Seq<int>)
    requires
        reachable(g, b),
    ensures
        is_path_to(g, q, b),
        !q.drop_last().contains(b),
{
    let q0 = choose|q: Seq<int>| #[trigger] is_path_to(g, q, b);
    assert(q0[q0.len() - 1] == b);
    let i = lemma_first_occurrence(q0, b);
    lemma_path_prefix(g, q0, b, i);
    let q = q0.take(i + 1);
    if q.drop_last().contains(b) {
        let j = choose|j: int| 0 <= j < q.drop_last().len() && q.drop_last()[j] == b;
        assert(q0[j] == b);
    }
    q
}

proof fn lemma_path_dom_antisymmetric(g: Seq<BasicBlock>, a: int, b: int)
    requires
        reachable(g, b),
        on_every_path(g, a, b),
        on_every_path(g, b, a),
    ensures
        a == b,
{
    let q = lemma_path_first_visit(g, b);
    assert(q.contains(a));
    let i = choose|i: int| 0 <= i < q.len() && q[i] == a;
    if a != b {
        assert(i < q.len() - 1);
        lemma_path_prefix(g, q, b, i);
        let pre = q.take(i + 1);
        assert(pre.contains(b));
        let j = choose|j: int| 0 <= j < pre.len() && pre[j] == b;
        assert(q.drop_last()[j] == b);
    }
}

/// Law: on blocks reachable from the entry, dominance is antisymmetric.
pub proof fn law_dominance_antisymmetric(cfg: &Cfg, tree: &DominanceTree, a: int, b: int)
    requires
        tree.is_dominance_of(cfg@),
        reachable(cfg@, b),
        tree.dom_rel(a, b),
        tree.dom_rel(b, a),
    ensures
        a == b,
{
    law_dominance_is_path_dominance(cfg, tree, a, b);
    law_dominance_is_path_dominance(cfg, tree, b, a);
    lemma_path_dom_antisymmetric(cfg@, a, b);
}

/// Law: a block that cannot be reached from the entry is dominated by every
/// block.
pub proof fn law_unreachable_dominated_by_all(cfg: &Cfg, tree: &DominanceTree, a: int, b: int)
    requires
        tree.is_dominance_of(cfg@),
        0 <= a < cfg@.len(),
        0 <= b < cfg@.len(),
        !reachable(cfg@, b),
    ensures
        tree.dom_rel(a, b),
{
    assert forall|q: Seq<int>| #[trigger] is_path_to(cfg@, q, b) implies q.contains(a) by {
        assert(reachable(cfg@, b));
    }
    law_dominance_is_path_dominance(cfg, tree, a, b);
}

/// A block that dominates a reachable block is reachable.
pub proof fn lemma_dominator_reachable(g: Seq<BasicBlock>, d: int, b: int)
    requires
        reachable(g, b),
        on_every_path(g, d, b),
    ensures
        reachable(g, d),
{
    let q = choose|q: Seq<int>| #[trigger] is_path_to(g, q, b);
    assert(q.contains(d));
    let i = choose|i: int| 0 <= i < q.len() && q[i] == d;
    lemma_path_prefix(g, q, b, i);
}

/// Two strict dominators of a reachable block are ordered by dominance.
proof fn lemma_strict_dominators_ordered(g: Seq<BasicBlock>, c1: int, c2: int, b: int)
    requires
        reachable(g, b),
        on_every_path(g, c1, b),
        on_every_path(g, c2, b),
        c1 != b,
        c2 != b,
        c1 != c2,
    ensures
        on_every_path(g, c1, c2) || on_every_path(g, c2, c1),
{
    let q = lemma_path_first_visit(g, b);
    assert(q.contains(c1));
    assert(q.contains(c2));
    let i1 = lemma_last_occurrence(q, c1);
    let i2 = lemma_last_occurrence(q, c2);
    assert(q[q.len() - 1] == b);
    if i1 < i2 {
        lemma_later_dominated(g, q, b, c1, c2, i1, i2);
    } else {
        lemma_later_dominated(g, q, b, c2, c1, i2, i1);
    }
}

/// On a path to `b`, if the last visit of `x` comes before the last visit of
/// `y`, and `x` dominates `b`, then `x` dominates `y`.
proof fn lemma_later_dominated(g: Seq<BasicBlock>, q: Seq<int>, b: int, x: int, y: int, ix: int, iy: int)
    requires
        is_path_to(g, q, b),
        on_every_path(g, x, b),
        0 <= ix < iy < q.len() - 1,
        q[ix] == x,
        q[iy] == y,
        forall|j: int| ix < j < q.len() ==> q[j] != x,
    ensures
        on_every_path(g, x, y),
{
    assert forall|r: Seq<int>| #[trigger] is_path_to(g, r, y) implies r.contains(x) by {
        if !r.contains(x) {
            let tail = q.subrange(iy + 1, q.len() as int);
            lemma_walk_subrange(g, q, iy + 1, q.len() as int);
            assert(pred_step(g, q, iy));
            lemma_walk_concat(g, r, tail);
            let w = r + tail;
            assert(w[0] == 0);
            assert(w.last() == b);
            assert(is_path_to(g, w, b));
            assert(w.contains(x));
            let k = choose|k: int| 0 <= k < w.len() && w[k] == x;
            if k < r.len() {
                assert(r[k] == x);
            } else {
                assert(q[iy + 1 + (k - r.len())] == x);
            }
        }
    }
}

/// Law: a reachable block other than the entry has an immediate dominator,
/// which strictly dominates it, is reachable, has fewer dominators than it,
/// and is dominated by every other strict dominator of the block.
pub proof fn law_idom_is_immediate(cfg: &Cfg, tree: &DominanceTree, b: int)
    requires
        tree.is_dominance_of(cfg@),
        1 <= b < cfg@.len(),
        reachable(cfg@, b),
    ensures
        tree.idom_of(b) is Some,
        ({
            let d = tree.idom_of(b).unwrap().0 as int;
            &&& tree.dom_rel(d, b)
            &&& d != b
            &&& reachable(cfg@, d)
            &&& count_true(tree.doms()[d]) < count_true(tree.doms()[b])
            &&& forall|c: int| #[trigger] tree.dom_rel(c, b) && c != b ==> tree.dom_rel(c, d)
        }),
{
    let g = cfg@;
    let m = tree.doms();
    let n = g.len() as int;
    assert(idom_entry_ok(m, b, tree.idoms()[b]));
    law_entry_dominates_all(cfg, tree, b);
    assert(strict_dom(m, b, 0));
    let d = tree.idoms()[b].unwrap().0 as int;
    assert(is_idom_choice(m, b, d));
    law_dominance_is_path_dominance(cfg, tree, d, b);
    lemma_dominator_reachable(g, d, b);
    // The dominators of d are dominators of b, and b is not one of them.
    assert forall|e: int| 0 <= e < n && #[trigger] m[d][e] implies m[b][e] by {
        law_dominance_transitive(cfg, tree, e, d, b);
    }
    law_dominance_reflexive(cfg, tree, b);
    if m[d][b] {
        law_dominance_antisymmetric(cfg, tree, d, b);
    }
    lemma_count_subset(m[d], m[b]);
    assert forall|c: int| #[trigger] tree.dom_rel(c, b) && c != b implies tree.dom_rel(c, d) by {
        if c != d {
            law_dominance_is_path_dominance(cfg, tree, c, b);
            lemma_strict_dominators_ordered(g, c, d, b);
            law_dominance_is_path_dominance(cfg, tree, c, d);
            law_dominance_is_path_dominance(cfg, tree, d, c);
            if !tree.dom_rel(c, d) {
                // d dominates c: then c has strictly more dominators than d,
                // against the choice of d.
                assert(tree.dom_rel(d, c));
                lemma_dominator_reachable(g, c, b);
                assert forall|e: int| 0 <= e < n && #[trigger] m[d][e] implies m[c][e] by {
                    law_dominance_transitive(cfg, tree, e, d, c);
                }
                law_dominance_reflexive(cfg, tree, c);
                if m[d][c] {
                    law_dominance_antisymmetric(cfg, tree, c, d);
                }
                lemma_count_subset(m[d], m[c]);
                assert(strict_dom(m, b, c));
                assert(false);
            }
        } else {
            law_dominance_reflexive(cfg, tree, d);
        }
    }
}

/// Law: the entry has no immediate dominator.
pub proof fn law_entry_has_no_idom(cfg: &Cfg, tree: &DominanceTree)
    requires
        tree.is_dominance_of(cfg@),
        cfg@.len() >= 1,
    ensures
        tree.idom_of(0) is None,
{
    assert(idom_entry_ok(tree.doms(), 0, tree.idoms()[0]));
}

} // verus!
