//! Dominance frontier computation.
//!
//! The dominance frontier of a block `a` holds the blocks `j` such that `a`
//! dominates a predecessor of `j` but does not strictly dominate `j`.
//!
//! For every join block `j` (one with at least two entries in its
//! predecessor list, or the entry block with at least one) and every
//! predecessor `p` of `j`, a runner starts at `p` and climbs the dominance
//! tree through immediate dominators until there is none; every block it
//! meets that does not strictly dominate `j` gets `j` in its frontier.

use vstd::prelude::*;
use crate::basic_block::{BasicBlock, BlockId};
use crate::boolvec::{count_row, empty_row, is_square, rows, set_entry, total_true};
use crate::cfg::Cfg;
use crate::dominance::DominanceTree;

verus! {

/// Where the runner goes from block `x`: to its immediate dominator, unless
/// it has none or it is `x` itself.
pub open spec fn runner_next(tree: DominanceTree, x: int) -> Option<int> {
    match tree.idom_of(x) {
        Some(p) => if p.0 != x {
            Some(p.0 as int)
        } else {
            None
        },
        None => None,
    }
}

/// The block where a runner started at `p` stands after `i` steps (it stays
/// put once it has stopped).
pub open spec fn runner_at(tree: DominanceTree, p: int, i: nat) -> int
    decreases i,
{
    if i == 0 {
        p
    } else {
        let x = runner_at(tree, p, (i - 1) as nat);
        match runner_next(tree, x) {
            Some(y) => y,
            None => x,
        }
    }
}

/// The runner started at `p` has stopped after `i` steps.
pub open spec fn runner_stops(tree: DominanceTree, p: int, i: nat) -> bool {
    runner_next(tree, runner_at(tree, p, i)) is None
}

/// The runner started at `p` stops.
pub open spec fn runner_ends(tree: DominanceTree, p: int) -> bool {
    exists|i: nat| #[trigger] runner_stops(tree, p, i)
}

/// The runner started at `p` meets `r`.
pub open spec fn runner_visits(tree: DominanceTree, p: int, r: int) -> bool {
    exists|i: nat| #[trigger] runner_at(tree, p, i) == r
}

/// The runner started at `p` meets `r` within its first `bound` positions.
pub open spec fn runner_met_within(tree: DominanceTree, p: int, r: int, bound: nat) -> bool {
    exists|i: nat| i < bound && #[trigger] runner_at(tree, p, i) == r
}

/// `j` is a join block: it has at least two entries in its predecessor list,
/// or it is the entry block (which is also entered from outside the graph)
/// and has at least one.
pub open spec fn is_join(g: Seq<BasicBlock>, j: int) -> bool {
    g[j].predecessors@.len() >= 2 || (j == 0 && g[j].predecessors@.len() >= 1)
}

/// `a` dominates `b` in `tree`, and `a` is not `b`.
pub open spec fn strictly_dominates(tree: DominanceTree, a: int, b: int) -> bool {
    tree.dom_rel(a, b) && a != b
}

/// Every runner started from a predecessor of a join block stops.
pub open spec fn runners_end(g: Seq<BasicBlock>, tree: DominanceTree) -> bool {
    forall|j: int, k: int|
        0 <= j < g.len() && is_join(g, j) && 0 <= k < g[j].predecessors@.len() ==> runner_ends(
            tree,
            (#[trigger] g[j].predecessors@[k]).0 as int,
        )
}

/// `j` is in the dominance frontier of `r`: `j` is a join block, `r` does not
/// strictly dominate `j`, and a runner started from one of the first `kk`
/// predecessors of `j` meets `r`.
pub open spec fn in_frontier_upto(g: Seq<BasicBlock>, tree: DominanceTree, r: int, j: int, kk: int) -> bool {
    &&& is_join(g, j)
    &&& !strictly_dominates(tree, r, j)
    &&& exists|k: int|
        0 <= k < kk && runner_visits(tree, (#[trigger] g[j].predecessors@[k]).0 as int, r)
}

/// `j` is in the dominance frontier of `r`, as computed by the runners.
pub open spec fn in_frontier_spec(g: Seq<BasicBlock>, tree: DominanceTree, r: int, j: int) -> bool {
    in_frontier_upto(g, tree, r, j, g[j].predecessors@.len() as int)
}

/// The total of a prefix of the rows is at most the total of all rows.
pub proof fn lemma_total_prefix(m: Seq<Seq<bool>>, i: int)
    requires
        0 <= i <= m.len(),
    ensures
        total_true(m.take(i)) <= total_true(m),
    decreases m.len() - i,
{
    if i < m.len() {
        lemma_total_prefix(m, i + 1);
        assert(m.take(i + 1).drop_last() =~= m.take(i));
    } else {
        assert(m.take(i) =~= m);
    }
}

/// Once stopped, the runner stays where it stopped.
pub proof fn lemma_runner_stays(tree: DominanceTree, p: int, s: nat, i: nat)
    requires
        runner_stops(tree, p, s),
        s <= i,
    ensures
        runner_at(tree, p, i) == runner_at(tree, p, s),
        runner_stops(tree, p, i),
    decreases i - s,
{
    if i > s {
        lemma_runner_stays(tree, p, s, (i - 1) as nat);
    }
}

/// Dominance frontier for each block.
#[derive(Debug)]
pub struct DominanceFrontier {
    /// Row `r` has entry `j` set when `j` is in the frontier of `r`.
    frontiers: Vec<Vec<bool>>,
}

impl DominanceFrontier {
    #[verifier::type_invariant]
    spec fn shape(&self) -> bool {
        is_square(rows(self.frontiers@), self.frontiers@.len() as int)
    }

    /// The frontier sets, as a matrix: entry `[r][j]` is set when `j` is in
    /// the frontier of `r`.
    pub closed spec fn sets(&self) -> Seq<Seq<bool>> {
        rows(self.frontiers@)
    }

    /// `j` is in the frontier of `r`, both being blocks of the analysed graph.
    pub open spec fn has(&self, r: int, j: int) -> bool {
        &&& 0 <= r < self.sets().len()
        &&& 0 <= j < self.sets().len()
        &&& self.sets()[r][j]
    }

    /// This frontier is the one the runners compute for graph `g` and
    /// dominance tree `tree`.
    pub open spec fn is_frontier_of(&self, g: Seq<BasicBlock>, tree: DominanceTree) -> bool {
        &&& is_square(self.sets(), g.len() as int)
        &&& forall|a: int, j: int|
            0 <= a < g.len() && 0 <= j < g.len() ==> (#[trigger] self.sets()[a][j]
                <==> in_frontier_spec(g, tree, a, j))
    }

    /// Compute dominance frontiers from a CFG and a dominance tree.
    pub fn compute(cfg: &Cfg, dom: &DominanceTree) -> (r: Self)
        requires
            cfg.wf(),
            runners_end(cfg@, *dom),
        ensures
            r.is_frontier_of(cfg@, *dom),
    {
        let g = cfg.blocks();
        let n = g.len();
        proof {
            cfg.lemma_wf();
        }
        let mut fr: Vec<Vec<bool>> = Vec::new();
        let mut i: usize = 0;
        while i < n
            invariant
                n == g@.len(),
                i <= n,
                fr@.len() == i,
                forall|a: int| 0 <= a < i ==> (#[trigger] fr@[a])@.len() == n,
                forall|a: int, c: int| 0 <= a < i && 0 <= c < n ==> !fr@[a]@[c],
            decreases n - i,
        {
            fr.push(empty_row(n));
            i = i + 1;
        }
        let mut j: usize = 0;
        while j < n
            invariant
                n == g@.len(),
                g@ == cfg@,
                runners_end(g@, *dom),
                j <= n,
                is_square(rows(fr@), n as int),
                forall|a: int, c: int|
                    0 <= a < n && 0 <= c < n ==> (#[trigger] rows(fr@)[a][c] <==> (c < j
                        && in_frontier_spec(g@, *dom, a, c))),
            decreases n - j,
        {
            let preds = &g[j].predecessors;
            if preds.len() >= 2 || (j == cfg.entry().0 && preds.len() >= 1) {
                let mut k: usize = 0;
                while k < preds.len()
                    invariant
                        n == g@.len(),
                        j < n,
                        *preds == g@[j as int].predecessors,
                        is_join(g@, j as int),
                        runners_end(g@, *dom),
                        k <= preds@.len(),
                        is_square(rows(fr@), n as int),
                        forall|a: int, c: int|
                            0 <= a < n && 0 <= c < n ==> (#[trigger] rows(fr@)[a][c] <==> ((c < j
                                && in_frontier_spec(g@, *dom, a, c)) || (c == j
                                && in_frontier_upto(g@, *dom, a, c, k as int)))),
                    decreases preds@.len() - k,
                {
                    let p = preds[k];
                    let ghost pk = p.0 as int;
                    assert(runner_ends(*dom, pk));
                    let ghost s = choose|s: nat| runner_stops(*dom, pk, s);
                    let mut runner = p;
                    let ghost mut steps: nat = 0;
                    loop
                        invariant_except_break
                            forall|i2: nat| i2 < steps ==> !#[trigger] runner_stops(*dom, pk, i2),
                            forall|a: int, c: int|
                                0 <= a < n && 0 <= c < n ==> (#[trigger] rows(fr@)[a][c] <==> ((c < j
                                    && in_frontier_spec(g@, *dom, a, c)) || (c == j && (
                                in_frontier_upto(g@, *dom, a, c, k as int) || (!strictly_dominates(*dom, a, c)
                                    && runner_met_within(*dom, pk, a, steps)))))),
                        invariant
                            n == g@.len(),
                            j < n,
                            *preds == g@[j as int].predecessors,
                            k < preds@.len(),
                            preds@[k as int].0 == pk,
                            is_join(g@, j as int),
                            runner_stops(*dom, pk, s),
                            steps <= s,
                            runner.0 == runner_at(*dom, pk, steps),
                            is_square(rows(fr@), n as int),
                        ensures
                            runner_stops(*dom, pk, steps),
                            forall|a: int, c: int|
                                0 <= a < n && 0 <= c < n ==> (#[trigger] rows(fr@)[a][c] <==> ((c < j
                                    && in_frontier_spec(g@, *dom, a, c)) || (c == j && (
                                in_frontier_upto(g@, *dom, a, c, k as int) || (!strictly_dominates(*dom, a, c)
                                    && runner_met_within(*dom, pk, a, steps + 1)))))),
                        decreases s - steps,
                    {
                        let ghost before = rows(fr@);
                        let ghost here = runner.0 as int;
                        let mark = !(dom.dominates(runner, BlockId(j)) && runner.0 != j) && runner.0 < n;
                        if mark {
                            assert(rows(fr@)[runner.0 as int] == fr@[runner.0 as int]@);
                            set_entry(&mut fr, runner.0, j);
                        }
                        proof {
                            assert forall|a: int, c: int| 0 <= a < n && 0 <= c < n implies (
                            #[trigger] rows(fr@)[a][c] <==> ((c < j && in_frontier_spec(
                                g@,
                                *dom,
                                a,
                                c,
                            )) || (c == j && (in_frontier_upto(g@, *dom, a, c, k as int) || (
                            !strictly_dominates(*dom, a, c) && runner_met_within(*dom, pk, a, steps + 1)))))) by {
                                assert(rows(fr@)[a][c] == (before[a][c] || (mark && a == here && c
                                    == j)));
                                if c == j && a == here && !strictly_dominates(*dom, a, c) {
                                    assert(runner_at(*dom, pk, steps) == a);
                                    assert(runner_met_within(*dom, pk, a, steps + 1));
                                }
                                if runner_met_within(*dom, pk, a, steps) {
                                    let i2 = choose|i2: nat| i2 < steps && #[trigger] runner_at(*dom, pk, i2) == a;
                                    assert(runner_met_within(*dom, pk, a, steps + 1));
                                }
                                if runner_met_within(*dom, pk, a, steps + 1) {
                                    let i2 = choose|i2: nat| i2 < steps + 1 && #[trigger] runner_at(*dom, pk, i2) == a;
                                    if i2 < steps {
                                    } else {
                                        assert(a == here);
                                    }
                                }
                            }
                            assert(is_square(rows(fr@), n as int));
                        }
                        match dom.idom(runner) {
                            Some(parent) if parent != runner => {
                                proof {
                                    assert(runner_next(*dom, here) == Some(parent.0 as int));
                                    assert(!runner_stops(*dom, pk, steps));
                                    assert(runner_at(*dom, pk, steps + 1) == parent.0);
                                }
                                runner = parent;
                                let ghost old_steps = steps;
                                proof {
                                    steps = steps + 1;
                                    assert forall|i2: nat| i2 < steps implies !#[trigger] runner_stops(*dom, pk, i2) by {
                                        if i2 < old_steps {
                                        }
                                    }
                                }
                            },
                            _ => {
                                proof {
                                    assert(runner_next(*dom, here) is None);
                                }
                                break ;
                            },
                        }
                    }
                    proof {
                        assert forall|a: int, c: int| 0 <= a < n && 0 <= c < n implies (
                        #[trigger] rows(fr@)[a][c] <==> ((c < j && in_frontier_spec(g@, *dom, a, c))
                            || (c == j && in_frontier_upto(g@, *dom, a, c, k + 1)))) by {
                            if c == j {
                                if runner_visits(*dom, pk, a) {
                                    let i2 = choose|i2: nat| #[trigger] runner_at(*dom, pk, i2) == a;
                                    if i2 > steps {
                                        lemma_runner_stays(*dom, pk, steps, i2);
                                    }
                                }
                                if in_frontier_upto(g@, *dom, a, c, k + 1) {
                                    let k2 = choose|k2: int|
                                        0 <= k2 < k + 1 && runner_visits(
                                            *dom,
                                            (#[trigger] g@[j as int].predecessors@[k2]).0 as int,
                                            a,
                                        );
                                    if k2 == k {
                                        let i2 = choose|i2: nat| #[trigger] runner_at(*dom, pk, i2) == a;
                                        if i2 > steps {
                                            lemma_runner_stays(*dom, pk, steps, i2);
                                        }
                                    }
                                }
                                if !strictly_dominates(*dom, a, c) && runner_met_within(*dom, pk, a, steps + 1) {
                                    assert(runner_visits(*dom, pk, a));
                                    assert(g@[j as int].predecessors@[k as int].0 == pk);
                                }
                            }
                        }
                    }
                    k = k + 1;
                }
            }
            proof {
                assert forall|a: int, c: int| 0 <= a < n && 0 <= c < n implies (
                #[trigger] rows(fr@)[a][c] <==> (c < j + 1 && in_frontier_spec(g@, *dom, a, c))) by {
                    if c == j && !is_join(g@, j as int) {
                        assert(!in_frontier_spec(g@, *dom, a, c));
                    }
                }
            }
            j = j + 1;
        }
        DominanceFrontier { frontiers: fr }
    }

    /// The blocks in the dominance frontier of `b`, in increasing order
    /// (none when `b` is not a block of the analysed graph).
    pub fn frontier_set(&self, b: BlockId) -> (r: Vec<BlockId>)
        ensures
            forall|i: int, j: int| 0 <= i < j < r@.len() ==> r@[i].0 < r@[j].0,
            forall|x: usize| #[trigger] r@.contains(BlockId(x)) <==> self.has(b.0 as int, x as int),
    {
        proof {
            use_type_invariant(self);
        }
        let n = self.frontiers.len();
        let mut result: Vec<BlockId> = Vec::new();
        if b.0 >= n {
            return result;
        }
        let row = &self.frontiers[b.0];
        assert(row@ == self.sets()[b.0 as int]);
        let mut c: usize = 0;
        while c < n
            invariant
                n == self.sets().len(),
                b.0 < n,
                row@ == self.sets()[b.0 as int],
                row@.len() == n,
                c <= n,
                forall|i: int, j: int| 0 <= i < j < result@.len() ==> result@[i].0 < result@[j].0,
                forall|i: int| 0 <= i < result@.len() ==> result@[i].0 < c,
                forall|x: usize|
                    #[trigger] result@.contains(BlockId(x)) <==> (x < c && self.has(b.0 as int, x as int)),
            decreases n - c,
        {
            if row[c] {
                let ghost prev = result@;
                result.push(BlockId(c));
                proof {
                    broadcast use vstd::seq_lib::lemma_seq_contains_after_push;

                    assert(result@ == prev.push(BlockId(c)));
                }
            }
            c = c + 1;
        }
        result
    }

    /// Check if block `b` is in the dominance frontier of `a`.
    pub fn in_frontier(&self, a: BlockId, b: BlockId) -> (r: bool)
        ensures
            r == self.has(a.0 as int, b.0 as int),
    {
        proof {
            use_type_invariant(self);
        }
        let n = self.frontiers.len();
        if a.0 < n && b.0 < n {
            assert(self.frontiers@[a.0 as int]@ == self.sets()[a.0 as int]);
            self.frontiers[a.0][b.0]
        } else {
            false
        }
    }

    /// Total number of frontier entries, over all blocks.
    pub fn total_size(&self) -> (r: usize)
        requires
            total_true(self.sets()) <= usize::MAX,
        ensures
            r == total_true(self.sets()),
    {
        proof {
            use_type_invariant(self);
        }
        let n = self.frontiers.len();
        let mut sum: usize = 0;
        let mut i: usize = 0;
        while i < n
            invariant
                n == self.sets().len(),
                is_square(self.sets(), n as int),
                total_true(self.sets()) <= usize::MAX,
                i <= n,
                sum == total_true(self.sets().take(i as int)),
            decreases n - i,
        {
            proof {
                assert(self.sets().take(i + 1).drop_last() =~= self.sets().take(i as int));
                lemma_total_prefix(self.sets(), i as int + 1);
                assert(self.frontiers@[i as int]@ == self.sets()[i as int]);
            }
            let c = count_row(&self.frontiers[i]);
            sum = sum + c;
            i = i + 1;
        }
        assert(self.sets().take(n as int) =~= self.sets());
        sum
    }
}

} // verus!
