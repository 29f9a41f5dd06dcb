//! What the runners of the frontier computation meet, and what the computed
//! frontier is, for a dominance tree computed from the same graph.
//!
//! Started at a block reachable from the entry, a runner climbs the chain of
//! immediate dominators and meets exactly the dominators of that block; so
//! the computed frontier of `a` holds the blocks `j` such that `a`
//! dominates a predecessor of `j` but does not strictly dominate `j`.

use vstd::prelude::*;
use crate::boolvec::{count_true, lemma_count_all, lemma_count_subset};
use crate::cfg::Cfg;
use crate::dominance::{idom_entry_ok, is_dom_solution, is_idom_choice, strict_dom, DominanceTree};
use crate::dominance_laws::{
    law_dominance_is_path_dominance, law_dominance_reflexive, law_dominance_transitive,
    law_entry_has_no_idom, law_idom_is_immediate, law_unreachable_dominated_by_all,
    lemma_dominator_reachable, lemma_path_first_visit,
};
use crate::frontier::{
    in_frontier_spec, is_join, lemma_runner_stays, runner_at, runner_ends, runner_next,
    runner_stops, runner_visits, runners_end, strictly_dominates, DominanceFrontier,
};
use crate::paths::{is_path_to, lemma_path_drop_last, lemma_walk_push, pred_edge, reachable};

verus! {

proof fn lemma_runner_shift(tree: DominanceTree, p: int, d: int, i: nat)
    requires
        runner_next(tree, p) == Some(d),
    ensures
        runner_at(tree, p, i + 1) == runner_at(tree, d, i),
    decreases i,
{
    let x = runner_at(tree, p, i);
    assert(runner_at(tree, p, i + 1) == match runner_next(tree, x) {
        Some(y) => y,
        None => x,
    });
    if i > 0 {
        lemma_runner_shift(tree, p, d, (i - 1) as nat);
        let z = runner_at(tree, d, (i - 1) as nat);
        assert(runner_at(tree, d, i) == match runner_next(tree, z) {
            Some(y) => y,
            None => z,
        });
    }
}

/// A runner that cannot move stays at its start and meets nothing else.
proof fn lemma_runner_stuck(tree: DominanceTree, p: int)
    requires
        runner_next(tree, p) is None,
    ensures
        runner_ends(tree, p),
        forall|r: int| runner_visits(tree, p, r) <==> r == p,
{
    assert(runner_stops(tree, p, 0));
    assert forall|r: int| runner_visits(tree, p, r) <==> r == p by {
        if runner_visits(tree, p, r) {
            let i = choose|i: nat| #[trigger] runner_at(tree, p, i) == r;
            lemma_runner_stays(tree, p, 0, i);
        }
        if r == p {
            assert(runner_at(tree, p, 0) == r);
        }
    }
}

proof fn lemma_runner_from_reachable(cfg: &Cfg, tree: &DominanceTree, p: int)
    requires
        tree.is_dominance_of(cfg@),
        0 <= p < cfg@.len(),
        reachable(cfg@, p),
    ensures
        runner_ends(*tree, p),
        forall|r: int| runner_visits(*tree, p, r) <==> tree.dom_rel(r, p),
    decreases count_true(tree.doms()[p]),
{
    let t = *tree;
    if p == 0 {
        law_entry_has_no_idom(cfg, tree);
        lemma_runner_stuck(t, p);
        assert(is_dom_solution(cfg@, tree.doms()));
        assert forall|r: int| runner_visits(t, p, r) <==> tree.dom_rel(r, p) by {
            if 0 <= r < cfg@.len() {
                assert(tree.doms()[0][r] == (r == 0));
            }
        }
    } else {
        law_idom_is_immediate(cfg, tree, p);
        let d = tree.idom_of(p).unwrap().0 as int;
        assert(runner_next(t, p) == Some(d));
        lemma_runner_from_reachable(cfg, tree, d);
        let s = choose|s: nat| #[trigger] runner_stops(t, d, s);
        lemma_runner_shift(t, p, d, s);
        assert(runner_stops(t, p, s + 1));
        assert forall|r: int| runner_visits(t, p, r) <==> tree.dom_rel(r, p) by {
            if runner_visits(t, p, r) {
                let i = choose|i: nat| #[trigger] runner_at(t, p, i) == r;
                if i == 0 {
                    law_dominance_reflexive(cfg, tree, p);
                } else {
                    lemma_runner_shift(t, p, d, (i - 1) as nat);
                    assert(runner_visits(t, d, r));
                    law_dominance_transitive(cfg, tree, r, d, p);
                }
            }
            if tree.dom_rel(r, p) {
                if r == p {
                    assert(runner_at(t, p, 0) == r);
                } else {
                    assert(tree.dom_rel(r, d));
                    let i = choose|i: nat| #[trigger] runner_at(t, d, i) == r;
                    lemma_runner_shift(t, p, d, i);
                    assert(runner_at(t, p, i + 1) == r);
                }
            }
        }
    }
}

/// Law: a runner stops when it starts at a block reachable from the entry,
/// or at an index outside the graph.
pub proof fn law_runner_ends(cfg: &Cfg, tree: &DominanceTree, p: int)
    requires
        tree.is_dominance_of(cfg@),
        0 <= p,
        p >= cfg@.len() || reachable(cfg@, p),
    ensures
        runner_ends(*tree, p),
{
    if p >= cfg@.len() {
        lemma_runner_stuck(*tree, p);
    } else {
        lemma_runner_from_reachable(cfg, tree, p);
    }
}

/// Law: a runner started at a block reachable from the entry meets exactly
/// the dominators of that block.
pub proof fn law_runner_meets_dominators(cfg: &Cfg, tree: &DominanceTree, p: int, r: int)
    requires
        tree.is_dominance_of(cfg@),
        0 <= p < cfg@.len(),
        reachable(cfg@, p),
    ensures
        runner_visits(*tree, p, r) <==> tree.dom_rel(r, p),
{
    lemma_runner_from_reachable(cfg, tree, p);
}

/// Law: when every predecessor (that is a block) of every join block is
/// reachable from the entry, every runner of the frontier computation stops.
pub proof fn law_runners_end_when_preds_reachable(cfg: &Cfg, tree: &DominanceTree)
    requires
        tree.is_dominance_of(cfg@),
        forall|j: int, k: int|
            0 <= j < cfg@.len() && is_join(cfg@, j) && 0 <= k < cfg@[j].predecessors@.len() && (
            #[trigger] cfg@[j].predecessors@[k]).0 < cfg@.len() ==> reachable(
                cfg@,
                cfg@[j].predecessors@[k].0 as int,
            ),
    ensures
        runners_end(cfg@, *tree),
{
    let g = cfg@;
    assert forall|j: int, k: int|
        0 <= j < g.len() && is_join(g, j) && 0 <= k < g[j].predecessors@.len() implies runner_ends(
        *tree,
        (#[trigger] g[j].predecessors@[k]).0 as int,
    ) by {
        law_runner_ends(cfg, tree, g[j].predecessors@[k].0 as int);
    }
}

/// The entry block of a nonempty graph is reachable.
proof fn lemma_entry_reachable(cfg: &Cfg)
    requires
        cfg@.len() >= 1,
    ensures
        reachable(cfg@, 0),
{
    let q = seq![0int];
    assert(is_path_to(cfg@, q, 0));
}

/// A block not reachable from the entry has every block of the graph among
/// its dominators, so as many as the graph has blocks.
proof fn lemma_unreachable_row_full(cfg: &Cfg, tree: &DominanceTree, x: int)
    requires
        tree.is_dominance_of(cfg@),
        0 <= x < cfg@.len(),
        !reachable(cfg@, x),
    ensures
        forall|c: int| 0 <= c < cfg@.len() ==> tree.dom_rel(c, x),
        count_true(tree.doms()[x]) == cfg@.len(),
{
    assert(is_dom_solution(cfg@, tree.doms()));
    assert forall|c: int| 0 <= c < cfg@.len() implies tree.dom_rel(c, x) by {
        law_unreachable_dominated_by_all(cfg, tree, c, x);
    }
    assert forall|c: int| 0 <= c < tree.doms()[x].len() implies tree.doms()[x][c] by {
        assert(tree.dom_rel(c, x));
    }
    lemma_count_all(tree.doms()[x]);
}

/// When some block `u` is not reachable from the entry, a reachable block
/// has fewer dominators than the graph has blocks.
proof fn lemma_reachable_row_short(cfg: &Cfg, tree: &DominanceTree, b: int, u: int)
    requires
        tree.is_dominance_of(cfg@),
        0 <= b < cfg@.len(),
        reachable(cfg@, b),
        0 <= u < cfg@.len(),
        !reachable(cfg@, u),
    ensures
        count_true(tree.doms()[b]) < cfg@.len(),
{
    let n = cfg@.len();
    assert(is_dom_solution(cfg@, tree.doms()));
    let row = tree.doms()[b];
    law_dominance_is_path_dominance(cfg, tree, u, b);
    if tree.dom_rel(u, b) {
        lemma_dominator_reachable(cfg@, u, b);
    }
    assert(!row[u]);
    let full = Seq::new(n, |i: int| true);
    lemma_count_all(full);
    lemma_count_subset(row, full);
}

/// Where a runner goes from a block `x` not reachable from the entry, when
/// another block `y` is not reachable either: to a block other than `x` that
/// is not reachable.
proof fn lemma_unreachable_step(cfg: &Cfg, tree: &DominanceTree, x: int, y: int) -> (d: int)
    requires
        tree.is_dominance_of(cfg@),
        0 <= x < cfg@.len(),
        0 <= y < cfg@.len(),
        x != y,
        !reachable(cfg@, x),
        !reachable(cfg@, y),
    ensures
        runner_next(*tree, x) == Some(d),
        0 <= d < cfg@.len(),
        d != x,
        !reachable(cfg@, d),
{
    let m = tree.doms();
    lemma_entry_reachable(cfg);
    lemma_unreachable_row_full(cfg, tree, x);
    lemma_unreachable_row_full(cfg, tree, y);
    assert(tree.dom_rel(y, x));
    assert(strict_dom(m, x, y));
    assert(idom_entry_ok(m, x, tree.idoms()[x]));
    let d = tree.idoms()[x].unwrap().0 as int;
    assert(is_idom_choice(m, x, d));
    assert(count_true(m[y]) <= count_true(m[d]));
    if reachable(cfg@, d) {
        lemma_reachable_row_short(cfg, tree, d, x);
    }
    d
}

/// A runner started at a block not reachable from the entry, while another
/// block is not reachable either, stands after `i` steps at a block not
/// reachable from the entry, with another such block `w` beside it.
proof fn lemma_runner_stays_unreachable(cfg: &Cfg, tree: &DominanceTree, p: int, y: int, i: nat) -> (w: int)
    requires
        tree.is_dominance_of(cfg@),
        0 <= p < cfg@.len(),
        0 <= y < cfg@.len(),
        p != y,
        !reachable(cfg@, p),
        !reachable(cfg@, y),
    ensures
        0 <= runner_at(*tree, p, i) < cfg@.len(),
        !reachable(cfg@, runner_at(*tree, p, i)),
        0 <= w < cfg@.len(),
        w != runner_at(*tree, p, i),
        !reachable(cfg@, w),
    decreases i,
{
    if i == 0 {
        y
    } else {
        let w0 = lemma_runner_stays_unreachable(cfg, tree, p, y, (i - 1) as nat);
        let x = runner_at(*tree, p, (i - 1) as nat);
        let d = lemma_unreachable_step(cfg, tree, x, w0);
        assert(runner_at(*tree, p, i) == d);
        x
    }
}

/// Law: a runner started at a block that is not reachable from the entry
/// stops exactly when that block is the only block of the graph not
/// reachable from the entry.
pub proof fn law_runner_from_unreachable(cfg: &Cfg, tree: &DominanceTree, p: int)
    requires
        tree.is_dominance_of(cfg@),
        0 <= p < cfg@.len(),
        !reachable(cfg@, p),
    ensures
        runner_ends(*tree, p) <==> forall|q: int| 0 <= q < cfg@.len() && q != p ==> reachable(cfg@, q),
{
    let t = *tree;
    if forall|q: int| 0 <= q < cfg@.len() && q != p ==> reachable(cfg@, q) {
        let m = tree.doms();
        lemma_entry_reachable(cfg);
        lemma_unreachable_row_full(cfg, tree, p);
        assert(tree.dom_rel(0, p));
        assert(strict_dom(m, p, 0));
        assert(idom_entry_ok(m, p, tree.idoms()[p]));
        let d = tree.idoms()[p].unwrap().0 as int;
        assert(is_idom_choice(m, p, d));
        assert(runner_next(t, p) == Some(d));
        law_runner_ends(cfg, tree, d);
        let s = choose|s: nat| #[trigger] runner_stops(t, d, s);
        lemma_runner_shift(t, p, d, s);
        assert(runner_stops(t, p, s + 1));
    } else {
        let y = choose|q: int| !(0 <= q < cfg@.len() && q != p ==> reachable(cfg@, q));
        if runner_ends(t, p) {
            let s = choose|s: nat| #[trigger] runner_stops(t, p, s);
            let w = lemma_runner_stays_unreachable(cfg, tree, p, y, s);
            lemma_unreachable_step(cfg, tree, runner_at(t, p, s), w);
        }
    }
}

/// Law: when every block of the graph but possibly `u` is reachable from the
/// entry, every runner of the frontier computation stops, so the frontier
/// can be computed.
pub proof fn law_runners_end_with_one_unreachable(cfg: &Cfg, tree: &DominanceTree, u: int)
    requires
        tree.is_dominance_of(cfg@),
        forall|q: int| 0 <= q < cfg@.len() && q != u ==> reachable(cfg@, q),
    ensures
        runners_end(cfg@, *tree),
{
    let g = cfg@;
    assert forall|j: int, k: int|
        0 <= j < g.len() && is_join(g, j) && 0 <= k < g[j].predecessors@.len() implies runner_ends(
        *tree,
        (#[trigger] g[j].predecessors@[k]).0 as int,
    ) by {
        let p = g[j].predecessors@[k].0 as int;
        if p < g.len() && !reachable(g, p) {
            law_runner_from_unreachable(cfg, tree, p);
        } else {
            law_runner_ends(cfg, tree, p);
        }
    }
}

/// A block other than the entry with a single predecessor entry, which is a
/// reachable block, is strictly dominated by every dominator of that
/// predecessor.
proof fn lemma_single_pred_strictly_dominated(cfg: &Cfg, tree: &DominanceTree, j: int, a: int)
    requires
        tree.is_dominance_of(cfg@),
        0 < j < cfg@.len(),
        cfg@[j].predecessors@.len() == 1,
        cfg@[j].predecessors@[0].0 < cfg@.len(),
        reachable(cfg@, cfg@[j].predecessors@[0].0 as int),
        tree.dom_rel(a, cfg@[j].predecessors@[0].0 as int),
    ensures
        strictly_dominates(*tree, a, j),
{
    let g = cfg@;
    let p = g[j].predecessors@[0].0 as int;
    law_dominance_is_path_dominance(cfg, tree, a, p);
    assert forall|q: Seq<int>| #[trigger] is_path_to(g, q, j) implies q.contains(a) by {
        assert(q[0] == 0);
        assert(q.len() >= 2);
        lemma_path_drop_last(g, q, j);
        let k = choose|k: int| 0 <= k < g[j].predecessors@.len() && (#[trigger] g[j].predecessors@[k]).0 == q[q.len() - 2];
        assert(q[q.len() - 2] == p);
        assert(q.drop_last().contains(a));
        let i = choose|i: int| 0 <= i < q.drop_last().len() && q.drop_last()[i] == a;
        assert(q[i] == a);
    }
    law_dominance_is_path_dominance(cfg, tree, a, j);
    if a == j {
        // j dominates its only predecessor p; a path to j through j only at
        // its end reaches p first without j.
        let r = choose|r: Seq<int>| #[trigger] is_path_to(g, r, p);
        assert(pred_edge(g, p, j)) by {
            assert(g[j].predecessors@[0].0 == p);
        }
        lemma_walk_push(g, r, j);
        assert(is_path_to(g, r.push(j), j));
        let q = lemma_path_first_visit(g, j);
        assert(q[0] == 0);
        lemma_path_drop_last(g, q, j);
        let k = choose|k: int| 0 <= k < g[j].predecessors@.len() && (#[trigger] g[j].predecessors@[k]).0 == q[q.len() - 2];
        assert(q[q.len() - 2] == p);
        assert(q.drop_last().contains(j));
    }
}

/// Law: for a dominance tree computed from the graph, and a block `j` whose
/// predecessors (those that are blocks) are reachable from the entry, `j` is
/// in the computed frontier of `a` exactly when `a` dominates a predecessor
/// of `j` and does not strictly dominate `j`: the dominance frontier.
pub proof fn law_frontier_is_dominance_frontier(
    cfg: &Cfg,
    tree: &DominanceTree,
    df: &DominanceFrontier,
    a: int,
    j: int,
)
    requires
        tree.is_dominance_of(cfg@),
        df.is_frontier_of(cfg@, *tree),
        0 <= a < cfg@.len(),
        0 <= j < cfg@.len(),
        forall|k: int|
            0 <= k < cfg@[j].predecessors@.len() && (#[trigger] cfg@[j].predecessors@[k]).0
                < cfg@.len() ==> reachable(cfg@, cfg@[j].predecessors@[k].0 as int),
    ensures
        df.has(a, j) <==> {
            &&& !strictly_dominates(*tree, a, j)
            &&& exists|k: int|
                0 <= k < cfg@[j].predecessors@.len() && (#[trigger] cfg@[j].predecessors@[k]).0
                    < cfg@.len() && tree.dom_rel(a, cfg@[j].predecessors@[k].0 as int)
        },
{
    let g = cfg@;
    let preds = g[j].predecessors@;
    assert(df.sets()[a][j] <==> in_frontier_spec(g, *tree, a, j));
    assert forall|k: int| 0 <= k < preds.len() implies (runner_visits(
        *tree,
        (#[trigger] preds[k]).0 as int,
        a,
    ) <==> (preds[k].0 < g.len() && tree.dom_rel(a, preds[k].0 as int))) by {
        let p = preds[k].0 as int;
        if p < g.len() {
            law_runner_meets_dominators(cfg, tree, p, a);
        } else {
            assert(tree.idom_of(p) is None);
            lemma_runner_stuck(*tree, p);
        }
    }
    if in_frontier_spec(g, *tree, a, j) {
        let k = choose|k: int| 0 <= k < preds.len() && runner_visits(*tree, (#[trigger] preds[k]).0 as int, a);
        assert(preds[k].0 < g.len() && tree.dom_rel(a, preds[k].0 as int));
    }
    if !strictly_dominates(*tree, a, j) && exists|k: int|
        0 <= k < preds.len() && (#[trigger] preds[k]).0 < g.len() && tree.dom_rel(a, preds[k].0 as int) {
        let k = choose|k: int|
            0 <= k < preds.len() && (#[trigger] preds[k]).0 < g.len() && tree.dom_rel(a, preds[k].0 as int);
        assert(runner_visits(*tree, preds[k].0 as int, a));
        if !is_join(g, j) {
            assert(k == 0);
            lemma_single_pred_strictly_dominated(cfg, tree, j, a);
        }
    }
}

} // verus!
