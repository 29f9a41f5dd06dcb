//! Dominance analysis.
//!
//! A block `d` dominates a block `b` when every path from the entry to `b`
//! passes through `d`. The analysis computes, for each block, the set of its
//! dominators as the greatest solution of the dominator equations
//! (`D(entry) = {entry}`, `D(b) = {b} ∪ ⋂ D(p)` over the predecessors `p`
//! of `b`), and from it the immediate dominator of each block.

use vstd::prelude::*;
use crate::basic_block::{BasicBlock, BlockId};
use crate::boolvec::{
    count_row, count_true, full_row, is_square, lemma_count_subset, lemma_total_update, rows,
    rows_equal, single_row, total_true,
};
use crate::cfg::Cfg;

verus! {

/// Every predecessor of block `b` among the first `j` entries of its
/// predecessor list that is a block of `g` has `d` in its row of `m`.
pub open spec fn preds_allow_upto(g: Seq<BasicBlock>, m: Seq<Seq<bool>>, b: int, d: int, j: int) -> bool {
    forall|k: int|
        0 <= k < j && (#[trigger] g[b].predecessors@[k]).0 < g.len() ==> m[g[b].predecessors@[k].0 as int][d]
}

/// Every predecessor of block `b` that is a block of `g` has `d` in its row of `m`.
pub open spec fn preds_allow(g: Seq<BasicBlock>, m: Seq<Seq<bool>>, b: int, d: int) -> bool {
    preds_allow_upto(g, m, b, d, g[b].predecessors@.len() as int)
}

/// The right-hand side of the dominator equation of block `b`, at `d`.
pub open spec fn transfer(g: Seq<BasicBlock>, m: Seq<Seq<bool>>, b: int, d: int) -> bool {
    d == b || preds_allow(g, m, b, d)
}

/// Row `b` of `m` is the set of dominator candidates of block `b`, and `m`
/// solves the dominator equations of `g`.
pub open spec fn is_dom_solution(g: Seq<BasicBlock>, m: Seq<Seq<bool>>) -> bool {
    &&& is_square(m, g.len() as int)
    &&& forall|d: int| 0 <= d < g.len() ==> #[trigger] m[0][d] == (d == 0)
    &&& forall|b: int, d: int|
        1 <= b < g.len() && 0 <= d < g.len() ==> #[trigger] m[b][d] == transfer(g, m, b, d)
}

/// Every entry set in `m1` is set in `m2`, for an `n` by `n` matrix.
pub open spec fn contained_in(m1: Seq<Seq<bool>>, m2: Seq<Seq<bool>>, n: int) -> bool {
    forall|b: int, d: int| 0 <= b < n && 0 <= d < n && #[trigger] m1[b][d] ==> m2[b][d]
}

/// `m` is the greatest solution of the dominator equations of `g`: a
/// solution that contains every solution.
pub open spec fn is_greatest_dom_solution(g: Seq<BasicBlock>, m: Seq<Seq<bool>>) -> bool {
    &&& is_dom_solution(g, m)
    &&& forall|s: Seq<Seq<bool>>| #[trigger] is_dom_solution(g, s) ==> contained_in(s, m, g.len() as int)
}

/// `d` is a strict dominator of `b` in `m`.
pub open spec fn strict_dom(m: Seq<Seq<bool>>, b: int, d: int) -> bool {
    0 <= d < m.len() && m[b][d] && d != b
}

/// `d` is the immediate dominator chosen for `b`: among the strict dominators
/// of `b`, one with the most dominators of its own (the closest), and the
/// lowest-numbered among those.
pub open spec fn is_idom_choice(m: Seq<Seq<bool>>, b: int, d: int) -> bool {
    &&& strict_dom(m, b, d)
    &&& forall|c: int| #[trigger] strict_dom(m, b, c) ==> count_true(m[c]) <= count_true(m[d])
    &&& forall|c: int| #[trigger] strict_dom(m, b, c) && c < d ==> count_true(m[c]) < count_true(m[d])
}

/// `r` is the immediate dominator recorded for block `b`: none for the entry
/// or for a block without strict dominators, otherwise the chosen one.
pub open spec fn idom_entry_ok(m: Seq<Seq<bool>>, b: int, r: Option<BlockId>) -> bool {
    match r {
        Some(x) => b != 0 && is_idom_choice(m, b, x.0 as int),
        None => b == 0 || forall|c: int| !#[trigger] strict_dom(m, b, c),
    }
}

/// Every equation right-hand side is contained in the current row.
spec fn pre_fixed(g: Seq<BasicBlock>, m: Seq<Seq<bool>>) -> bool {
    forall|b: int, d: int|
        1 <= b < g.len() && 0 <= d < g.len() && #[trigger] transfer(g, m, b, d) ==> m[b][d]
}

/// Every solution is contained in `m`.
spec fn above_solutions(g: Seq<BasicBlock>, m: Seq<Seq<bool>>) -> bool {
    forall|s: Seq<Seq<bool>>| #[trigger] is_dom_solution(g, s) ==> contained_in(s, m, g.len() as int)
}

proof fn lemma_transfer_mono(g: Seq<BasicBlock>, m1: Seq<Seq<bool>>, m2: Seq<Seq<bool>>, b: int, d: int)
    requires
        0 <= b < g.len(),
        contained_in(m1, m2, g.len() as int),
        0 <= d < g.len(),
        transfer(g, m1, b, d),
    ensures
        transfer(g, m2, b, d),
{
    if d != b {
        assert forall|k: int|
            0 <= k < g[b].predecessors@.len() && (#[trigger] g[b].predecessors@[k]).0
                < g.len() implies m2[g[b].predecessors@[k].0 as int][d] by {
            assert(m1[g[b].predecessors@[k].0 as int][d]);
        }
    }
}

proof fn lemma_update_row(g: Seq<BasicBlock>, m: Seq<Seq<bool>>, b: int, r: Seq<bool>)
    requires
        is_square(m, g.len() as int),
        forall|d: int| 0 <= d < g.len() ==> #[trigger] m[0][d] == (d == 0),
        pre_fixed(g, m),
        above_solutions(g, m),
        1 <= b < g.len(),
        r.len() == g.len(),
        forall|d: int| 0 <= d < g.len() ==> r[d] == transfer(g, m, b, d),
        r != m[b],
    ensures
        is_square(m.update(b, r), g.len() as int),
        forall|d: int| 0 <= d < g.len() ==> #[trigger] m.update(b, r)[0][d] == (d == 0),
        pre_fixed(g, m.update(b, r)),
        above_solutions(g, m.update(b, r)),
        total_true(m.update(b, r)) < total_true(m),
{
    let n = g.len() as int;
    let m2 = m.update(b, r);
    assert forall|d: int| 0 <= d < n && #[trigger] r[d] implies m[b][d] by {
        assert(transfer(g, m, b, d));
    }
    assert(!(r =~= m[b]));
    let w = choose|d: int| 0 <= d < n && r[d] != m[b][d];
    assert(!r[w] && m[b][w]);
    lemma_count_subset(r, m[b]);
    lemma_total_update(m, b, r);
    assert(contained_in(m2, m, n));
    assert forall|c: int, d: int|
        1 <= c < n && 0 <= d < n && #[trigger] transfer(g, m2, c, d) implies m2[c][d] by {
        lemma_transfer_mono(g, m2, m, c, d);
    }
    assert forall|s: Seq<Seq<bool>>| #[trigger] is_dom_solution(g, s) implies contained_in(s, m2, n) by {
        assert(contained_in(s, m, n));
        assert forall|c: int, d: int| 0 <= c < n && 0 <= d < n && #[trigger] s[c][d] implies m2[c][d] by {
            if c == b {
                lemma_transfer_mono(g, s, m, b, d);
            }
        }
    }
}

/// The dominator row of block `b` recomputed from the rows of its predecessors.
fn transfer_row(g: &[BasicBlock], dom: &Vec<Vec<bool>>, b: usize) -> (r: Vec<bool>)
    requires
        is_square(rows(dom@), g@.len() as int),
        b < g@.len(),
    ensures
        r@.len() == g@.len(),
        forall|d: int| 0 <= d < g@.len() ==> r@[d] == transfer(g@, rows(dom@), b as int, d),
{
    let n = g.len();
    let preds = &g[b].predecessors;
    let ghost m = rows(dom@);
    let mut row = full_row(n);
    let mut k: usize = 0;
    while k < preds.len()
        invariant
            n == g@.len(),
            b < n,
            *preds == g@[b as int].predecessors,
            m == rows(dom@),
            is_square(m, n as int),
            row@.len() == n,
            k <= preds@.len(),
            forall|d: int| 0 <= d < n ==> row@[d] == preds_allow_upto(g@, m, b as int, d, k as int),
        decreases preds@.len() - k,
    {
        let p = preds[k].0;
        if p < n {
            let prow = &dom[p];
            assert(prow@ == m[p as int]);
            let mut d: usize = 0;
            while d < n
                invariant
                    n == g@.len(),
                    b < n,
                    p < n,
                    *preds == g@[b as int].predecessors,
                    k < preds@.len(),
                    preds@[k as int].0 == p,
                    prow@ == m[p as int],
                    is_square(m, n as int),
                    row@.len() == n,
                    d <= n,
                    forall|e: int|
                        0 <= e < d ==> row@[e] == (preds_allow_upto(g@, m, b as int, e, k as int)
                            && prow@[e]),
                    forall|e: int| d <= e < n ==> row@[e] == preds_allow_upto(g@, m, b as int, e, k as int),
                decreases n - d,
            {
                if !prow[d] {
                    row.set(d, false);
                }
                d = d + 1;
            }
            assert forall|e: int| 0 <= e < n implies row@[e] == preds_allow_upto(
                g@,
                m,
                b as int,
                e,
                k + 1,
            ) by {
                if row@[e] {
                    assert forall|j: int|
                        0 <= j < k + 1 && (#[trigger] g@[b as int].predecessors@[j]).0
                            < g@.len() implies m[g@[b as int].predecessors@[j].0 as int][e] by {
                        if j < k {
                            assert(preds_allow_upto(g@, m, b as int, e, k as int));
                        }
                    }
                }
                if preds_allow_upto(g@, m, b as int, e, k + 1) {
                    assert(preds@[k as int] == g@[b as int].predecessors@[k as int]);
                    assert(m[g@[b as int].predecessors@[k as int].0 as int][e]);
                }
            }
        } else {
            assert forall|e: int| 0 <= e < n implies row@[e] == preds_allow_upto(
                g@,
                m,
                b as int,
                e,
                k + 1,
            ) by {
                if preds_allow_upto(g@, m, b as int, e, k as int) {
                    assert forall|j: int|
                        0 <= j < k + 1 && (#[trigger] g@[b as int].predecessors@[j]).0
                            < g@.len() implies m[g@[b as int].predecessors@[j].0 as int][e] by {
                        if j < k {
                        } else {
                            assert(preds@[k as int] == g@[b as int].predecessors@[k as int]);
                        }
                    }
                }
            }
        }
        k = k + 1;
    }
    row.set(b, true);
    row
}

/// The immediate dominator of block `b`: the strict dominator with the
/// largest dominator set, the lowest-numbered among equals.
fn pick_idom(dom: &Vec<Vec<bool>>, sizes: &Vec<usize>, b: usize) -> (r: Option<BlockId>)
    requires
        is_square(rows(dom@), dom@.len() as int),
        sizes@.len() == dom@.len(),
        forall|i: int| 0 <= i < dom@.len() ==> sizes@[i] == count_true(#[trigger] rows(dom@)[i]),
        1 <= b < dom@.len(),
    ensures
        idom_entry_ok(rows(dom@), b as int, r),
{
    let n = dom.len();
    let ghost m = rows(dom@);
    let row = &dom[b];
    assert(row@ == m[b as int]);
    let mut best: Option<usize> = None;
    let mut d: usize = 0;
    while d < n
        invariant
            n == dom@.len(),
            m == rows(dom@),
            is_square(m, n as int),
            sizes@.len() == n,
            forall|i: int| 0 <= i < n ==> sizes@[i] == count_true(#[trigger] m[i]),
            row@ == m[b as int],
            1 <= b < n,
            d <= n,
            match best {
                Some(x) => {
                    &&& x < d
                    &&& strict_dom(m, b as int, x as int)
                    &&& forall|c: int|
                        #[trigger] strict_dom(m, b as int, c) && c < d ==> count_true(m[c])
                            <= count_true(m[x as int])
                    &&& forall|c: int|
                        #[trigger] strict_dom(m, b as int, c) && c < x ==> count_true(m[c])
                            < count_true(m[x as int])
                },
                None => forall|c: int| #[trigger] strict_dom(m, b as int, c) ==> c >= d,
            },
        decreases n - d,
    {
        if row[d] && d != b {
            assert(strict_dom(m, b as int, d as int));
            assert(sizes@[d as int] == count_true(m[d as int]));
            match best {
                None => {
                    best = Some(d);
                },
                Some(x) => {
                    assert(sizes@[x as int] == count_true(m[x as int]));
                    if sizes[d] > sizes[x] {
                        best = Some(d);
                    }
                },
            }
        }
        d = d + 1;
    }
    match best {
        Some(x) => Some(BlockId(x)),
        None => None,
    }
}

/// Dominance information computed from a CFG.
#[derive(Debug)]
pub struct DominanceTree {
    /// Immediate dominator of each block, by block index.
    idom: Vec<Option<BlockId>>,
    /// Dominator sets: row `b` has entry `d` set when `d` dominates `b`.
    dom_sets: Vec<Vec<bool>>,
}

impl DominanceTree {
    #[verifier::type_invariant]
    spec fn shape(&self) -> bool {
        &&& self.idom@.len() == self.dom_sets@.len()
        &&& is_square(rows(self.dom_sets@), self.dom_sets@.len() as int)
    }

    /// The dominator sets, as an `n` by `n` matrix: entry `[b][d]` is set when
    /// `d` dominates `b`.
    pub closed spec fn doms(&self) -> Seq<Seq<bool>> {
        rows(self.dom_sets@)
    }

    /// The immediate dominator recorded for each block.
    pub closed spec fn idoms(&self) -> Seq<Option<BlockId>> {
        self.idom@
    }

    /// `a` dominates `b`, both being blocks of the analysed graph.
    pub open spec fn dom_rel(&self, a: int, b: int) -> bool {
        &&& 0 <= a < self.doms().len()
        &&& 0 <= b < self.doms().len()
        &&& self.doms()[b][a]
    }

    /// The immediate dominator of `b`; none outside the analysed graph.
    pub open spec fn idom_of(&self, b: int) -> Option<BlockId> {
        if 0 <= b < self.idoms().len() {
            self.idoms()[b]
        } else {
            None
        }
    }

    /// This tree is the dominance analysis of the graph `g`: its dominator
    /// sets are the greatest solution of the dominator equations of `g`, and
    /// every block has its immediate dominator recorded.
    pub open spec fn is_dominance_of(&self, g: Seq<BasicBlock>) -> bool {
        &&& self.doms().len() == g.len()
        &&& self.idoms().len() == g.len()
        &&& is_greatest_dom_solution(g, self.doms())
        &&& forall|b: int| 0 <= b < g.len() ==> idom_entry_ok(self.doms(), b, #[trigger] self.idoms()[b])
    }

    /// Compute dominance from a CFG using the iterative algorithm: start from
    /// "the entry is dominated by itself only, every other block by every
    /// block", and recompute each block from its predecessors until nothing
    /// changes.
    pub fn compute(cfg: &Cfg) -> (r: Self)
        requires
            cfg.wf(),
        ensures
            r.is_dominance_of(cfg@),
    {
        let g = cfg.blocks();
        let n = g.len();
        let entry = cfg.entry().0;
        proof {
            cfg.lemma_wf();
        }
        let mut dom: Vec<Vec<bool>> = Vec::new();
        let mut i: usize = 0;
        while i < n
            invariant
                n == g@.len(),
                entry == 0,
                i <= n,
                dom@.len() == i,
                forall|j: int| 0 <= j < i ==> (#[trigger] dom@[j])@.len() == n,
                forall|j: int, d: int|
                    0 <= j < i && 0 <= d < n ==> dom@[j]@[d] == (j != 0 || d == 0),
            decreases n - i,
        {
            if i == entry {
                dom.push(single_row(n, entry));
            } else {
                dom.push(full_row(n));
            }
            i = i + 1;
        }
        proof {
            let m = rows(dom@);
            assert forall|s: Seq<Seq<bool>>| #[trigger] is_dom_solution(g@, s) implies contained_in(
                s,
                m,
                n as int,
            ) by {
                assert forall|c: int, d: int|
                    0 <= c < n && 0 <= d < n && #[trigger] s[c][d] implies m[c][d] by {
                    if c == 0 {
                        assert(s[0][d] == (d == 0));
                    }
                }
            }
            assert(pre_fixed(g@, m));
        }
        let mut changed = true;
        while changed
            invariant
                n == g@.len(),
                n >= 1,
                is_square(rows(dom@), n as int),
                forall|d: int| 0 <= d < n ==> #[trigger] rows(dom@)[0][d] == (d == 0),
                pre_fixed(g@, rows(dom@)),
                above_solutions(g@, rows(dom@)),
                !changed ==> is_dom_solution(g@, rows(dom@)),
            decreases total_true(rows(dom@)) + if changed {
                1nat
            } else {
                0nat
            },
        {
            let ghost before = rows(dom@);
            changed = false;
            let mut b: usize = 1;
            while b < n
                invariant
                    n == g@.len(),
                    1 <= b <= n,
                    is_square(rows(dom@), n as int),
                    forall|d: int| 0 <= d < n ==> #[trigger] rows(dom@)[0][d] == (d == 0),
                    pre_fixed(g@, rows(dom@)),
                    above_solutions(g@, rows(dom@)),
                    changed ==> total_true(rows(dom@)) < total_true(before),
                    !changed ==> rows(dom@) == before,
                    !changed ==> forall|c: int, d: int|
                        1 <= c < b && 0 <= d < n ==> #[trigger] rows(dom@)[c][d] == transfer(
                            g@,
                            rows(dom@),
                            c,
                            d,
                        ),
                decreases n - b,
            {
                let new_row = transfer_row(g, &dom, b);
                if !rows_equal(&new_row, &dom[b]) {
                    proof {
                        lemma_update_row(g@, rows(dom@), b as int, new_row@);
                    }
                    let ghost m0 = rows(dom@);
                    dom.set(b, new_row);
                    proof {
                        assert(rows(dom@) =~= m0.update(b as int, new_row@));
                    }
                    changed = true;
                } else {
                    proof {
                        if !changed {
                            assert forall|c: int, d: int|
                                1 <= c < b + 1 && 0 <= d < n implies #[trigger] rows(dom@)[c][d]
                                == transfer(g@, rows(dom@), c, d) by {
                                if c == b {
                                    assert(rows(dom@)[c] == new_row@);
                                }
                            }
                        }
                    }
                }
                b = b + 1;
            }
        }
        let ghost m = rows(dom@);
        let mut sizes: Vec<usize> = Vec::new();
        let mut i: usize = 0;
        while i < n
            invariant
                n == dom@.len(),
                m == rows(dom@),
                i <= n,
                sizes@.len() == i,
                forall|j: int| 0 <= j < i ==> sizes@[j] == count_true(#[trigger] m[j]),
            decreases n - i,
        {
            sizes.push(count_row(&dom[i]));
            i = i + 1;
        }
        let mut idom: Vec<Option<BlockId>> = Vec::new();
        let mut b: usize = 0;
        while b < n
            invariant
                n == dom@.len(),
                n == g@.len(),
                m == rows(dom@),
                is_square(m, n as int),
                sizes@.len() == n,
                forall|j: int| 0 <= j < n ==> sizes@[j] == count_true(#[trigger] m[j]),
                b <= n,
                entry == 0,
                idom@.len() == b,
                forall|c: int| 0 <= c < b ==> idom_entry_ok(m, c, #[trigger] idom@[c]),
            decreases n - b,
        {
            if b == entry {
                idom.push(None);
            } else {
                let r = pick_idom(&dom, &sizes, b);
                idom.push(r);
            }
            b = b + 1;
        }
        DominanceTree { idom, dom_sets: dom }
    }

    /// Get the immediate dominator of a block.
    pub fn idom(&self, b: BlockId) -> (r: Option<BlockId>)
        ensures
            r == self.idom_of(b.0 as int),
    {
        proof {
            use_type_invariant(self);
        }
        if b.0 < self.idom.len() {
            self.idom[b.0]
        } else {
            None
        }
    }

    /// Check if block `a` dominates block `b`.
    pub fn dominates(&self, a: BlockId, b: BlockId) -> (r: bool)
        ensures
            r == self.dom_rel(a.0 as int, b.0 as int),
    {
        proof {
            use_type_invariant(self);
        }
        let n = self.dom_sets.len();
        if b.0 < n && a.0 < n {
            assert(self.dom_sets@[b.0 as int]@ == self.doms()[b.0 as int]);
            self.dom_sets[b.0][a.0]
        } else {
            false
        }
    }

    /// Get all blocks other than `a` dominated by `a`, in increasing order.
    pub fn dominated_by(&self, a: BlockId) -> (r: Vec<BlockId>)
        ensures
            forall|i: int, j: int| 0 <= i < j < r@.len() ==> r@[i].0 < r@[j].0,
            forall|x: usize| #[trigger] r@.contains(BlockId(x)) <==> (x != a.0 && self.dom_rel(a.0 as int, x as int)),
    {
        proof {
            use_type_invariant(self);
        }
        let n = self.dom_sets.len();
        let mut result: Vec<BlockId> = Vec::new();
        let mut b: usize = 0;
        while b < n
            invariant
                n == self.doms().len(),
                n == self.dom_sets@.len(),
                is_square(self.doms(), n as int),
                b <= n,
                forall|i: int, j: int| 0 <= i < j < result@.len() ==> result@[i].0 < result@[j].0,
                forall|i: int| 0 <= i < result@.len() ==> result@[i].0 < b,
                forall|x: usize|
                    #[trigger] result@.contains(BlockId(x)) <==> (x < b && x != a.0 && self.dom_rel(
                        a.0 as int,
                        x as int,
                    )),
            decreases n - b,
        {
            if b != a.0 && a.0 < n {
                assert(self.dom_sets@[b as int]@ == self.doms()[b as int]);
                if self.dom_sets[b][a.0] {
                    let ghost prev = result@;
                    result.push(BlockId(b));
                    proof {
                        broadcast use vstd::seq_lib::lemma_seq_contains_after_push;

                        assert(result@ == prev.push(BlockId(b)));
                    }
                }
            }
            b = b + 1;
        }
        result
    }

    /// Get the dominance tree children of a block (the blocks whose immediate
    /// dominator it is), in increasing order.
    pub fn children(&self, a: BlockId) -> (r: Vec<BlockId>)
        ensures
            forall|i: int, j: int| 0 <= i < j < r@.len() ==> r@[i].0 < r@[j].0,
            forall|x: usize| #[trigger] r@.contains(BlockId(x)) <==> self.idom_of(x as int) == Some(a),
    {
        proof {
            use_type_invariant(self);
        }
        let n = self.idom.len();
        let mut result: Vec<BlockId> = Vec::new();
        let mut b: usize = 0;
        while b < n
            invariant
                n == self.idoms().len(),
                n == self.idom@.len(),
                b <= n,
                forall|i: int, j: int| 0 <= i < j < result@.len() ==> result@[i].0 < result@[j].0,
                forall|i: int| 0 <= i < result@.len() ==> result@[i].0 < b,
                forall|x: usize|
                    #[trigger] result@.contains(BlockId(x)) <==> (x < b && self.idom_of(x as int)
                        == Some(a)),
            decreases n - b,
        {
            let is_child = match self.idom[b] {
                Some(x) => x == a,
                None => false,
            };
            if is_child {
                let ghost prev = result@;
                result.push(BlockId(b));
                proof {
                    broadcast use vstd::seq_lib::lemma_seq_contains_after_push;

                    assert(result@ == prev.push(BlockId(b)));
                }
            }
            b = b + 1;
        }
        proof {
            assert forall|x: usize| #[trigger] result@.contains(BlockId(x)) <==> self.idom_of(x as int)
                == Some(a) by {
                if x >= n {
                    assert(self.idom_of(x as int) == None::<BlockId>);
                }
            }
        }
        result
    }
}

} // verus!
