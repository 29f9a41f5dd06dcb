//! Control flow graph construction.

use vstd::prelude::*;
use crate::basic_block::{
    add_once, ends_in_return, lemma_add_once_contains, BasicBlock, BlockId, Instruction,
};
use crate::boolvec::{
    count_true, empty_row, lemma_count_bound, lemma_count_none, lemma_count_subset, lemma_count_update,
};
use crate::paths::{
    in_blocks, is_path_to, is_succ_walk, is_walk, lemma_succ_walk_prepend, lemma_succ_walk_push,
    lemma_succ_walk_reaches_last, pred_edge, pred_step, reachable, reaches_unmarked, succ_edge,
    succ_reachable, succ_reaches, succ_step,
};

verus! {

/// A control flow graph: a list of basic blocks, where the block at index
/// `i` has identifier `BlockId(i)`, and block 0 is the entry.
pub struct Cfg {
    blocks: Vec<BasicBlock>,
}

impl View for Cfg {
    type V = Seq<BasicBlock>;

    closed spec fn view(&self) -> Seq<BasicBlock> {
        self.blocks@
    }
}

/// Every block of `g` is named by its position.
pub open spec fn ids_match(g: Seq<BasicBlock>) -> bool {
    forall|i: int| 0 <= i < g.len() ==> (#[trigger] g[i]).id.0 == i
}

/// Successor and predecessor lists only name blocks of `g`, and describe
/// the same edges: `v` lists `u` as a predecessor exactly when `u` lists `v`
/// as a successor.
pub open spec fn edges_agree(g: Seq<BasicBlock>) -> bool {
    &&& forall|i: int, k: int|
        0 <= i < g.len() && 0 <= k < g[i].successors@.len() ==> (#[trigger] g[i].successors@[k]).0
            < g.len()
    &&& forall|i: int, k: int|
        0 <= i < g.len() && 0 <= k < g[i].predecessors@.len() ==> (
        #[trigger] g[i].predecessors@[k]).0 < g.len()
    &&& forall|u: usize, v: usize|
        u < g.len() && v < g.len() ==> (#[trigger] g[u as int].successors@.contains(BlockId(v))
            <==> #[trigger] g[v as int].predecessors@.contains(BlockId(u)))
}

/// A block is an exit when it has no successors or ends in a return.
pub open spec fn is_exit(b: BasicBlock) -> bool {
    b.successors@.len() == 0 || ends_in_return(b)
}

/// The identifiers of the exit blocks of `g`, in block order.
pub open spec fn exit_ids(g: Seq<BasicBlock>) -> Seq<BlockId>
    decreases g.len(),
{
    if g.len() == 0 {
        Seq::empty()
    } else {
        exit_ids(g.drop_last()) + if is_exit(g.last()) {
            seq![g.last().id]
        } else {
            Seq::empty()
        }
    }
}

/// A block counts as an exit: it has no successors, or its last
/// instruction is a `Return`.
pub open spec fn exit_condition(b: BasicBlock) -> bool {
    ||| b.successors@.len() == 0
    ||| (b.instructions@.len() > 0 && b.instructions@.last() matches Instruction::Return { .. })
}

/// `x` names a block of `g` that has no successors or ends in a `Return`.
pub open spec fn names_exit_block(g: Seq<BasicBlock>, x: BlockId) -> bool {
    exists|k: int| 0 <= k < g.len() && g[k].id == x && #[trigger] exit_condition(g[k])
}

/// Law: the exit blocks of a graph are the identifiers of exactly those
/// blocks that have no successors or whose last instruction is a `Return`;
/// a block with a successor that ends in anything else (a branch, a jump,
/// an assignment) is never among them.
pub proof fn law_exit_blocks(g: Seq<BasicBlock>)
    ensures
        forall|e: int| 0 <= e < exit_ids(g).len() ==> names_exit_block(g, #[trigger] exit_ids(g)[e]),
        forall|k: int| 0 <= k < g.len() && exit_condition(#[trigger] g[k]) ==> exit_ids(g).contains(g[k].id),
    decreases g.len(),
{
    if g.len() > 0 {
        let h = g.drop_last();
        law_exit_blocks(h);
        let last: Seq<BlockId> = if is_exit(g.last()) {
            seq![g.last().id]
        } else {
            Seq::empty()
        };
        assert(exit_ids(g) == exit_ids(h) + last);
        assert(is_exit(g.last()) <==> exit_condition(g.last()));
        assert forall|e: int| 0 <= e < exit_ids(g).len() implies names_exit_block(g, #[trigger] exit_ids(g)[e]) by {
            if e < exit_ids(h).len() {
                assert(exit_ids(g)[e] == exit_ids(h)[e]);
                assert(names_exit_block(h, exit_ids(h)[e]));
                let k = choose|k: int|
                    0 <= k < h.len() && h[k].id == exit_ids(h)[e] && #[trigger] exit_condition(h[k]);
                assert(g[k] == h[k]);
                assert(exit_condition(g[k]));
            } else {
                assert(exit_ids(g)[e] == g.last().id);
                assert(g[g.len() - 1] == g.last());
                assert(exit_condition(g[g.len() - 1]));
            }
        }
        assert forall|k: int| 0 <= k < g.len() && exit_condition(#[trigger] g[k]) implies exit_ids(g).contains(
            g[k].id,
        ) by {
            if k < h.len() {
                assert(h[k] == g[k]);
                assert(exit_condition(h[k]));
                assert(exit_ids(h).contains(h[k].id));
                let e = choose|e: int| 0 <= e < exit_ids(h).len() && exit_ids(h)[e] == h[k].id;
                assert(exit_ids(g)[e] == exit_ids(h)[e]);
            } else {
                assert(g[k] == g.last());
                assert(is_exit(g.last()));
                assert(exit_ids(g)[exit_ids(h).len() as int] == g.last().id);
                assert(exit_ids(g).contains(g.last().id));
            }
        }
    } else {
        assert(exit_ids(g).len() == 0);
    }
}

/// Law: in a graph whose blocks are named by their positions, the exit
/// blocks come in strictly increasing order of index, each once.
pub proof fn law_exit_blocks_ascending(g: Seq<BasicBlock>)
    requires
        ids_match(g),
    ensures
        forall|a: int, b: int|
            0 <= a < b < exit_ids(g).len() ==> (#[trigger] exit_ids(g)[a]).0 < (#[trigger] exit_ids(g)[b]).0,
    decreases g.len(),
{
    if g.len() > 0 {
        let h = g.drop_last();
        assert(ids_match(h)) by {
            assert forall|i: int| 0 <= i < h.len() implies (#[trigger] h[i]).id.0 == i by {
                assert(h[i] == g[i]);
            }
        }
        law_exit_blocks_ascending(h);
        law_exit_blocks(h);
        let last: Seq<BlockId> = if is_exit(g.last()) {
            seq![g.last().id]
        } else {
            Seq::empty()
        };
        let cur = exit_ids(g);
        let prev = exit_ids(h);
        assert(cur == prev + last);
        assert(g.last().id.0 == g.len() - 1) by {
            assert(g[g.len() - 1] == g.last());
        }
        assert forall|a: int, b: int| 0 <= a < b < cur.len() implies (#[trigger] cur[a]).0 < (
        #[trigger] cur[b]).0 by {
            if b < prev.len() {
                assert(cur[a] == prev[a] && cur[b] == prev[b]);
            } else {
                assert(cur[a] == prev[a]);
                assert(names_exit_block(h, prev[a]));
                let k = choose|k: int| 0 <= k < h.len() && h[k].id == prev[a] && #[trigger] exit_condition(h[k]);
                assert(h[k].id.0 == k);
                assert(cur[b] == g.last().id);
            }
        }
    }
}

/// Every successor of every block reachable from the entry (along
/// successor lists) is a block of `g`.
pub open spec fn reachable_succs_in_range(g: Seq<BasicBlock>) -> bool {
    forall|x: int, k: int|
        succ_reachable(g, x) && 0 <= k < g[x].successors@.len() ==> (#[trigger] g[x].successors@[k]).0
            < g.len()
}

/// Every block that can be reached from `a` through blocks unmarked in `v`
/// has all its successors among the blocks of `g`.
pub open spec fn succs_in_range_from(g: Seq<BasicBlock>, v: Seq<bool>, a: int) -> bool {
    forall|x: int, k: int|
        reaches_unmarked(g, v, a, x) && 0 <= k < g[x].successors@.len() ==> (
        #[trigger] g[x].successors@[k]).0 < g.len()
}

/// Law: when successor and predecessor lists agree and only name blocks
/// (as they do for a graph built with edges between existing blocks only),
/// the reverse postorder can be computed.
pub proof fn law_agreeing_edges_stay_in_range(g: Seq<BasicBlock>)
    requires
        edges_agree(g),
    ensures
        reachable_succs_in_range(g),
{
}

/// Between two blocks of a graph whose edge lists agree, a predecessor-list
/// edge is a successor-list edge and back.
proof fn lemma_edges_agree_step(g: Seq<BasicBlock>, u: int, v: int)
    requires
        edges_agree(g),
        g.len() <= usize::MAX,
        0 <= u < g.len(),
        0 <= v < g.len(),
    ensures
        pred_edge(g, u, v) <==> succ_edge(g, u, v),
{
    let uu = u as usize;
    let vv = v as usize;
    let sl = g[u].successors@;
    let pl = g[v].predecessors@;
    assert(uu as int == u && vv as int == v);
    assert(g[uu as int].successors@.contains(BlockId(vv)) <==> g[vv as int].predecessors@.contains(BlockId(uu)));
    assert(sl.contains(BlockId(vv)) <==> pl.contains(BlockId(uu)));
    if pred_edge(g, u, v) {
        let k = choose|k: int| 0 <= k < pl.len() && (#[trigger] pl[k]).0 == u;
        assert(pl[k] == BlockId(uu));
        assert(pl.contains(BlockId(uu)));
        let j = choose|j: int| 0 <= j < sl.len() && sl[j] == BlockId(vv);
        assert(sl[j].0 == v);
    }
    if succ_edge(g, u, v) {
        let k = choose|k: int| 0 <= k < sl.len() && (#[trigger] sl[k]).0 == v;
        assert(sl[k] == BlockId(vv));
        assert(sl.contains(BlockId(vv)));
        let j = choose|j: int| 0 <= j < pl.len() && pl[j] == BlockId(uu);
        assert(pl[j].0 == u);
    }
}

/// Law: when successor and predecessor lists agree (as they do for a graph
/// built with edges between existing blocks only), a block is reachable from
/// the entry along predecessor lists exactly when it is along successor
/// lists: the dominance and loop analyses and the depth-first order see the
/// same reachable blocks.
pub proof fn law_reachability_agrees(cfg: &Cfg, b: int)
    requires
        edges_agree(cfg@),
    ensures
        reachable(cfg@, b) <==> succ_reachable(cfg@, b),
{
    let g = cfg@;
    assert(g.len() == cfg.blocks.len());
    assert forall|q: Seq<int>| in_blocks(g, q) implies (is_walk(g, q) <==> is_succ_walk(g, q)) by {
        assert forall|i: int| 0 <= i < q.len() - 1 implies (#[trigger] pred_step(g, q, i) <==> succ_step(
            g,
            q,
            i,
        )) by {
            lemma_edges_agree_step(g, q[i], q[i + 1]);
        }
        if is_walk(g, q) {
            assert forall|i: int| 0 <= i < q.len() - 1 implies #[trigger] succ_step(g, q, i) by {
                assert(pred_step(g, q, i));
            }
        }
        if is_succ_walk(g, q) {
            assert forall|i: int| 0 <= i < q.len() - 1 implies #[trigger] pred_step(g, q, i) by {
                assert(succ_step(g, q, i));
            }
        }
    }
    if reachable(g, b) {
        let q = choose|q: Seq<int>| #[trigger] is_path_to(g, q, b);
        assert(is_succ_walk(g, q) && q[0] == 0 && q.last() == b);
    }
    if succ_reachable(g, b) {
        let q = choose|q: Seq<int>| #[trigger] is_succ_walk(g, q) && q[0] == 0 && q.last() == b;
        assert(is_path_to(g, q, b));
    }
}

/// Number of unmarked entries of `v`.
spec fn unmarked(v: Seq<bool>) -> nat {
    (v.len() - count_true(v)) as nat
}

/// The marks and the finished list after a depth-first search from block
/// `id` that starts with marks `v` and finished list `o`: an unmarked block is
/// marked, its successors are searched in list order, and then it is
/// appended to the finished list. `fuel` bounds the depth of the search.
pub open spec fn dfs_from(g: Seq<BasicBlock>, v: Seq<bool>, o: Seq<BlockId>, id: int, fuel: nat) -> (
    Seq<bool>,
    Seq<BlockId>,
)
    decreases fuel, 0nat, 0int,
{
    if fuel == 0 || !(0 <= id < v.len()) || v[id] {
        (v, o)
    } else {
        let r = dfs_succs(g, v.update(id, true), o, id, 0, (fuel - 1) as nat);
        (r.0, r.1.push(BlockId(id as usize)))
    }
}

/// The marks and finished list after searching, in list order, the
/// successors of block `id` from position `k` on.
pub open spec fn dfs_succs(
    g: Seq<BasicBlock>,
    v: Seq<bool>,
    o: Seq<BlockId>,
    id: int,
    k: int,
    fuel: nat,
) -> (Seq<bool>, Seq<BlockId>)
    decreases fuel, 1nat, g[id].successors@.len() - k,
{
    if k < 0 || k >= g[id].successors@.len() {
        (v, o)
    } else {
        let r = dfs_from(g, v, o, g[id].successors@[k].0 as int, fuel);
        dfs_succs(g, r.0, r.1, id, k + 1, fuel)
    }
}

/// The search's result does not depend on the fuel, once there is enough,
/// and it only adds marks.
proof fn lemma_dfs_from_fuel(g: Seq<BasicBlock>, v: Seq<bool>, o: Seq<BlockId>, id: int, f1: nat, f2: nat)
    requires
        f1 >= unmarked(v),
        f2 >= unmarked(v),
    ensures
        dfs_from(g, v, o, id, f1) == dfs_from(g, v, o, id, f2),
        dfs_from(g, v, o, id, f1).0.len() == v.len(),
        forall|x: int| 0 <= x < v.len() && #[trigger] v[x] ==> dfs_from(g, v, o, id, f1).0[x],
        unmarked(dfs_from(g, v, o, id, f1).0) <= unmarked(v),
    decreases unmarked(v), 0nat, 0int,
{
    lemma_count_bound(v);
    if !(0 <= id < v.len()) || v[id] {
    } else {
        let v1 = v.update(id, true);
        assert forall|x: int| 0 <= x < v.len() && #[trigger] v[x] implies v1[x] by {}
        lemma_count_subset(v, v1);
        assert(!v[id] && v1[id]);
        lemma_count_bound(v1);
        lemma_dfs_succs_fuel(g, v1, o, id, 0, (f1 - 1) as nat, (f2 - 1) as nat);
        let r = dfs_succs(g, v1, o, id, 0, (f1 - 1) as nat);
        assert forall|x: int| 0 <= x < v.len() && #[trigger] v[x] implies r.0[x] by {
            assert(v1[x]);
        }
    }
}

proof fn lemma_dfs_succs_fuel(
    g: Seq<BasicBlock>,
    v: Seq<bool>,
    o: Seq<BlockId>,
    id: int,
    k: int,
    f1: nat,
    f2: nat,
)
    requires
        f1 >= unmarked(v),
        f2 >= unmarked(v),
    ensures
        dfs_succs(g, v, o, id, k, f1) == dfs_succs(g, v, o, id, k, f2),
        dfs_succs(g, v, o, id, k, f1).0.len() == v.len(),
        forall|x: int| 0 <= x < v.len() && #[trigger] v[x] ==> dfs_succs(g, v, o, id, k, f1).0[x],
        unmarked(dfs_succs(g, v, o, id, k, f1).0) <= unmarked(v),
    decreases unmarked(v), 1nat, g[id].successors@.len() - k,
{
    if k < 0 || k >= g[id].successors@.len() {
    } else {
        let s = g[id].successors@[k].0 as int;
        lemma_dfs_from_fuel(g, v, o, s, f1, f2);
        let r = dfs_from(g, v, o, s, f1);
        lemma_dfs_succs_fuel(g, r.0, r.1, id, k + 1, f1, f2);
        let r2 = dfs_succs(g, r.0, r.1, id, k + 1, f1);
        assert forall|x: int| 0 <= x < v.len() && #[trigger] v[x] implies r2.0[x] by {
            assert(r.0[x]);
        }
    }
}

/// Facts about one call of the depth-first search from `id`, relating the
/// visited marks and the finished list before (`v0`, `o0`) and after (`v1`,
/// `o1`).
spec fn dfs_step(
    g: Seq<BasicBlock>,
    v0: Seq<bool>,
    o0: Seq<BlockId>,
    v1: Seq<bool>,
    o1: Seq<BlockId>,
    id: int,
) -> bool {
    let suffix = o1.subrange(o0.len() as int, o1.len() as int);
    &&& v1.len() == v0.len()
    &&& o0.len() <= o1.len()
    &&& o1.subrange(0, o0.len() as int) == o0
    &&& forall|x: int| 0 <= x < v0.len() && #[trigger] v0[x] ==> v1[x]
    &&& forall|i: int| 0 <= i < suffix.len() ==> (#[trigger] suffix[i]).0 < v0.len()
    &&& forall|x: usize|
        x < v0.len() ==> ((v1[x as int] && !v0[x as int]) <==> #[trigger] suffix.contains(BlockId(x)))
    &&& suffix.no_duplicates()
    &&& forall|i: int, k: int|
        0 <= i < suffix.len() && 0 <= k < g[suffix[i].0 as int].successors@.len() ==> {
            let t = (#[trigger] g[(#[trigger] suffix[i]).0 as int].successors@[k]).0 as int;
            t < v0.len() && v1[t]
        }
    &&& forall|x: int| 0 <= x < v0.len() && v1[x] && !v0[x] ==> reaches_unmarked(g, v0, id, x)
}

/// During the search: every finished block is marked, and the marked blocks
/// not yet finished are exactly the blocks of `path` (the blocks whose
/// search is in progress).
spec fn active_is(v: Seq<bool>, o: Seq<BlockId>, path: Seq<int>) -> bool {
    &&& forall|j: int| 0 <= j < o.len() ==> (#[trigger] o[j]).0 < v.len() && v[o[j].0 as int]
    &&& forall|x: usize| x < v.len() ==> (#[trigger] is_active(v, o, x) <==> path.contains(x as int))
}

/// Block `x` is marked but not finished.
spec fn is_active(v: Seq<bool>, o: Seq<BlockId>, x: usize) -> bool {
    v[x as int] && !o.contains(BlockId(x))
}

/// The postorder property of `o`: for every finished block `u` and every
/// successor `v` of `u`, either `v` was finished before `u`, or `u` can be
/// reached from `v` (the edge goes back to a block still in progress).
spec fn postorder_ok(g: Seq<BasicBlock>, o: Seq<BlockId>) -> bool {
    forall|i: int, k: int|
        0 <= i < o.len() && 0 <= k < g[o[i].0 as int].successors@.len() ==> {
            let v = (#[trigger] g[o[i].0 as int].successors@[k]).0;
            (exists|j: int| 0 <= j < i && (#[trigger] o[j]).0 == v) || succ_reaches(
                g,
                v as int,
                o[i].0 as int,
            )
        }
}

/// Like `dfs_step`, for a search from `id` that has marked `id` but not yet
/// finished it.
spec fn dfs_partial(
    g: Seq<BasicBlock>,
    v0: Seq<bool>,
    o0: Seq<BlockId>,
    v1: Seq<bool>,
    o1: Seq<BlockId>,
    id: int,
) -> bool {
    let suffix = o1.subrange(o0.len() as int, o1.len() as int);
    &&& v1.len() == v0.len()
    &&& o0.len() <= o1.len()
    &&& o1.subrange(0, o0.len() as int) == o0
    &&& forall|x: int| 0 <= x < v0.len() && #[trigger] v0[x] ==> v1[x]
    &&& forall|i: int| 0 <= i < suffix.len() ==> (#[trigger] suffix[i]).0 < v0.len()
    &&& forall|x: usize|
        x < v0.len() ==> ((v1[x as int] && !v0[x as int]) <==> (x == id
            || #[trigger] suffix.contains(BlockId(x))))
    &&& suffix.no_duplicates()
    &&& !suffix.contains(BlockId(id as usize))
    &&& forall|i: int, k: int|
        0 <= i < suffix.len() && 0 <= k < g[suffix[i].0 as int].successors@.len() ==> {
            let t = (#[trigger] g[(#[trigger] suffix[i]).0 as int].successors@[k]).0 as int;
            t < v0.len() && v1[t]
        }
    &&& forall|x: int| 0 <= x < v0.len() && v1[x] && !v0[x] ==> reaches_unmarked(g, v0, id, x)
}

proof fn lemma_dfs_compose(
    g: Seq<BasicBlock>,
    v0: Seq<bool>,
    o0: Seq<BlockId>,
    v1: Seq<bool>,
    o1: Seq<BlockId>,
    v2: Seq<bool>,
    o2: Seq<BlockId>,
    id: int,
    s: int,
)
    requires
        dfs_partial(g, v0, o0, v1, o1, id),
        dfs_step(g, v1, o1, v2, o2, s),
        succ_edge(g, id, s),
        !v0[id],
        v0.len() == g.len(),
        0 <= id < v0.len(),
        v0.len() <= usize::MAX,
        v1[id],
    ensures
        dfs_partial(g, v0, o0, v2, o2, id),
{
    broadcast use vstd::seq_lib::lemma_seq_concat_contains_all_elements;

    let s01 = o1.subrange(o0.len() as int, o1.len() as int);
    let s12 = o2.subrange(o1.len() as int, o2.len() as int);
    let s02 = o2.subrange(o0.len() as int, o2.len() as int);
    assert(o2.subrange(0, o1.len() as int) == o1);
    assert(s02 =~= s01 + s12) by {
        assert forall|i: int| 0 <= i < s01.len() implies s02[i] == s01[i] by {
            assert(o1[o0.len() + i] == o2.subrange(0, o1.len() as int)[o0.len() + i]);
        }
    }
    assert(o2.subrange(0, o0.len() as int) =~= o0) by {
        assert forall|i: int| 0 <= i < o0.len() implies o2[i] == o0[i] by {
            assert(o2[i] == o2.subrange(0, o1.len() as int)[i]);
            assert(o1[i] == o1.subrange(0, o0.len() as int)[i]);
        }
    }
    assert forall|x: usize| x < v0.len() implies ((v2[x as int] && !v0[x as int]) <==> (x == id
        || #[trigger] s02.contains(BlockId(x)))) by {
        assert((v1[x as int] && !v0[x as int]) <==> (x == id || s01.contains(BlockId(x))));
        assert((v2[x as int] && !v1[x as int]) <==> s12.contains(BlockId(x)));
    }
    assert forall|i: int, j: int| 0 <= i < s02.len() && 0 <= j < s02.len() && i != j implies s02[i]
        != s02[j] by {
        if i < s01.len() && j >= s01.len() {
            let x = s01[i].0;
            assert(s01.contains(BlockId(x)));
            assert(s12[j - s01.len()] == s02[j]);
            assert(s12.contains(s02[j]));
            assert(s12[j - s01.len()].0 < v1.len());
        } else if j < s01.len() && i >= s01.len() {
            let x = s01[j].0;
            assert(s01.contains(BlockId(x)));
            assert(s12[i - s01.len()] == s02[i]);
            assert(s12.contains(s02[i]));
            assert(s12[i - s01.len()].0 < v1.len());
        } else if i < s01.len() {
            assert(s01[i] != s01[j]);
        } else {
            assert(s12[i - s01.len()] != s12[j - s01.len()]);
        }
    }
    let idb = BlockId(id as usize);
    assert(s02.contains(idb) <==> (s01.contains(idb) || s12.contains(idb)));
    assert(!s01.contains(idb));
    let xi: usize = id as usize;
    assert(xi < v0.len());
    assert((v2[xi as int] && !v1[xi as int]) <==> s12.contains(BlockId(xi)));
    assert forall|i: int, k: int|
        0 <= i < s02.len() && 0 <= k < g[s02[i].0 as int].successors@.len() implies {
        let t = (#[trigger] g[(#[trigger] s02[i]).0 as int].successors@[k]).0 as int;
        t < v0.len() && v2[t]
    } by {
        if i < s01.len() {
            assert(s01[i] == s02[i]);
            let t = g[s01[i].0 as int].successors@[k].0 as int;
            assert(t < v0.len() && v1[t]);
        } else {
            assert(s12[i - s01.len()] == s02[i]);
        }
    }
    assert forall|i: int| 0 <= i < s02.len() implies (#[trigger] s02[i]).0 < v0.len() by {
        if i < s01.len() {
            assert(s01[i] == s02[i]);
        } else {
            assert(s12[i - s01.len()] == s02[i]);
        }
    }
    assert forall|x: int| 0 <= x < v0.len() && #[trigger] v0[x] implies v2[x] by {
        assert(v1[x]);
    }
    assert forall|x: int| 0 <= x < v0.len() && v2[x] && !v0[x] implies reaches_unmarked(g, v0, id, x) by {
        if !v1[x] {
            let q = choose|q: Seq<int>|
                #[trigger] is_succ_walk(g, q) && q[0] == s && q.last() == x && forall|i: int|
                    0 <= i < q.len() ==> !v1[#[trigger] q[i]];
            lemma_succ_walk_prepend(g, id, q);
            let w = seq![id] + q;
            assert forall|i: int| 0 <= i < w.len() implies !v0[#[trigger] w[i]] by {
                if i > 0 {
                    assert(w[i] == q[i - 1]);
                    assert(!v1[q[i - 1]]);
                    assert(0 <= q[i - 1] < v0.len());
                }
            }
            assert(w[0] == id && w.last() == x);
        }
    }
    assert(s02.no_duplicates());
    assert(!s02.contains(BlockId(id as usize)));
}

proof fn lemma_dfs_finish(
    g: Seq<BasicBlock>,
    v0: Seq<bool>,
    o0: Seq<BlockId>,
    v1: Seq<bool>,
    o1: Seq<BlockId>,
    id: int,
)
    requires
        dfs_partial(g, v0, o0, v1, o1, id),
        0 <= id < v0.len(),
        v0.len() <= usize::MAX,
        v1[id],
        !v0[id],
        forall|k: int|
            0 <= k < g[id].successors@.len() ==> (#[trigger] g[id].successors@[k]).0 < v0.len()
                && v1[g[id].successors@[k].0 as int],
    ensures
        dfs_step(g, v0, o0, v1, o1.push(BlockId(id as usize)), id),
        o1.push(BlockId(id as usize)).len() > o0.len(),
{
    broadcast use vstd::seq_lib::lemma_seq_contains_after_push;

    let idb = BlockId(id as usize);
    let o2 = o1.push(idb);
    let s01 = o1.subrange(o0.len() as int, o1.len() as int);
    let s02 = o2.subrange(o0.len() as int, o2.len() as int);
    assert(s02 =~= s01.push(idb));
    assert(o2.subrange(0, o0.len() as int) =~= o1.subrange(0, o0.len() as int));
    assert forall|i: int, j: int| 0 <= i < s02.len() && 0 <= j < s02.len() && i != j implies s02[i]
        != s02[j] by {
        if i == s01.len() {
            assert(s01.contains(s02[j]));
        } else if j == s01.len() {
            assert(s01.contains(s02[i]));
        } else {
            assert(s01[i] != s01[j]);
        }
    }
    assert forall|i: int, k: int|
        0 <= i < s02.len() && 0 <= k < g[s02[i].0 as int].successors@.len() implies {
        let t = (#[trigger] g[(#[trigger] s02[i]).0 as int].successors@[k]).0 as int;
        t < v0.len() && v1[t]
    } by {
        if i < s01.len() {
            assert(s01[i] == s02[i]);
        } else {
            assert(s02[i].0 as int == id);
        }
    }
    assert forall|i: int| 0 <= i < s02.len() implies (#[trigger] s02[i]).0 < v0.len() by {
        if i < s01.len() {
            assert(s01[i] == s02[i]);
        }
    }
    assert forall|x: usize| x < v0.len() implies ((v1[x as int] && !v0[x as int])
        <==> #[trigger] s02.contains(BlockId(x))) by {
        assert(s01.push(idb).contains(BlockId(x)) <==> (s01.contains(BlockId(x)) || BlockId(x) == idb));
    }
}

/// Whether the block's last instruction is a return.
fn block_returns(b: &BasicBlock) -> (r: bool)
    ensures
        r == ends_in_return(*b),
{
    let n = b.instructions.len();
    if n == 0 {
        return false;
    }
    match &b.instructions[n - 1] {
        Instruction::Return { .. } => true,
        _ => false,
    }
}

impl Cfg {
    /// The graph is well formed: it has at least the entry block (block 0),
    /// and every block is named by its position.
    pub closed spec fn wf(&self) -> bool {
        &&& self.blocks@.len() >= 1
        &&& ids_match(self.blocks@)
    }

    /// What well-formedness gives a caller: the entry block exists, and every
    /// block is named by its position.
    pub proof fn lemma_wf(&self)
        requires
            self.wf(),
        ensures
            self@.len() >= 1,
            ids_match(self@),
    {
    }

    /// Create a new CFG with an entry block.
    pub fn new() -> (r: Self)
        ensures
            r.wf(),
            r@.len() == 1,
            r@[0].id.0 == 0,
            r@[0].instructions@.len() == 0,
            r@[0].predecessors@.len() == 0,
            r@[0].successors@.len() == 0,
            edges_agree(r@),
    {
        let mut blocks: Vec<BasicBlock> = Vec::new();
        blocks.push(BasicBlock::new(BlockId::entry()));
        Cfg { blocks }
    }

    /// Add a new block and return its ID.
    pub fn add_block(&mut self) -> (id: BlockId)
        ensures
            id.0 == old(self)@.len(),
            final(self)@.len() == old(self)@.len() + 1,
            final(self)@.drop_last() == old(self)@,
            final(self)@.last().id == id,
            final(self)@.last().instructions@.len() == 0,
            final(self)@.last().predecessors@.len() == 0,
            final(self)@.last().successors@.len() == 0,
            old(self).wf() ==> final(self).wf(),
            edges_agree(old(self)@) ==> edges_agree(final(self)@),
    {
        let id = BlockId(self.blocks.len());
        self.blocks.push(BasicBlock::new(id));
        proof {
            assert(self.blocks@.drop_last() =~= old(self).blocks@);
            if edges_agree(old(self)@) {
                let g = self.blocks@;
                let g0 = old(self)@;
                assert forall|i: int, k: int|
                    0 <= i < g.len() && 0 <= k < g[i].successors@.len() implies (
                    #[trigger] g[i].successors@[k]).0 < g.len() by {
                    assert(g0[i].successors@[k] == g[i].successors@[k]);
                }
                assert forall|i: int, k: int|
                    0 <= i < g.len() && 0 <= k < g[i].predecessors@.len() implies (
                    #[trigger] g[i].predecessors@[k]).0 < g.len() by {
                    assert(g0[i].predecessors@[k] == g[i].predecessors@[k]);
                }
                assert forall|u: usize, v: usize| u < g.len() && v < g.len() implies
                    (#[trigger] g[u as int].successors@.contains(BlockId(v))
                    <==> #[trigger] g[v as int].predecessors@.contains(BlockId(u))) by {
                    if u < id.0 && v < id.0 {
                        assert(g[u as int] == old(self)@[u as int]);
                        assert(g[v as int] == old(self)@[v as int]);
                    }
                    if u == id.0 {
                        assert(!g[u as int].successors@.contains(BlockId(v)));
                        if v < id.0 && g[v as int].predecessors@.contains(BlockId(u)) {
                            let k = choose|k: int|
                                0 <= k < g0[v as int].predecessors@.len()
                                    && g0[v as int].predecessors@[k] == BlockId(u);
                            assert(g0[v as int].predecessors@[k].0 < g0.len());
                        }
                    }
                    if v == id.0 {
                        assert(!g[v as int].predecessors@.contains(BlockId(u)));
                        if u < id.0 && g[u as int].successors@.contains(BlockId(v)) {
                            let k = choose|k: int|
                                0 <= k < g0[u as int].successors@.len()
                                    && g0[u as int].successors@[k] == BlockId(v);
                            assert(g0[u as int].successors@[k].0 < g0.len());
                        }
                    }
                }
            }
        }
        id
    }

    /// Add an edge from one block to another. The source block records the
    /// target as a successor when the source exists; the target block records
    /// the source as a predecessor when the target exists.
    pub fn add_edge(&mut self, from: BlockId, to: BlockId)
        ensures
            final(self)@.len() == old(self)@.len(),
            final(self).wf() == old(self).wf(),
            forall|i: int|
                0 <= i < old(self)@.len() ==> {
                    let o = #[trigger] old(self)@[i];
                    let b = final(self)@[i];
                    &&& b.id == o.id
                    &&& b.instructions@ == o.instructions@
                    &&& b.successors@ == (if i == from.0 {
                        add_once(o.successors@, to)
                    } else {
                        o.successors@
                    })
                    &&& b.predecessors@ == (if i == to.0 {
                        add_once(o.predecessors@, from)
                    } else {
                        o.predecessors@
                    })
                },
            edges_agree(old(self)@) && from.0 < old(self)@.len() && to.0 < old(self)@.len()
                ==> edges_agree(final(self)@),
    {
        let ghost g0 = self.blocks@;
        if from.0 < self.blocks.len() {
            self.blocks[from.0].add_successor(to);
        }
        if to.0 < self.blocks.len() {
            self.blocks[to.0].add_predecessor(from);
        }
        proof {
            let g = self.blocks@;
            assert forall|i: int| 0 <= i < g0.len() implies g[i].id == (#[trigger] g0[i]).id by {}
            if edges_agree(g0) && from.0 < g0.len() && to.0 < g0.len() {
                assert forall|i: int, k: int|
                    0 <= i < g.len() && 0 <= k < g[i].successors@.len() implies (
                    #[trigger] g[i].successors@[k]).0 < g.len() by {
                    if i == from.0 && k == g0[i].successors@.len() {
                    } else {
                        assert(g0[i].successors@[k] == g[i].successors@[k]);
                    }
                }
                assert forall|i: int, k: int|
                    0 <= i < g.len() && 0 <= k < g[i].predecessors@.len() implies (
                    #[trigger] g[i].predecessors@[k]).0 < g.len() by {
                    if i == to.0 && k == g0[i].predecessors@.len() {
                    } else {
                        assert(g0[i].predecessors@[k] == g[i].predecessors@[k]);
                    }
                }
                assert forall|u: usize, v: usize| u < g.len() && v < g.len() implies
                    (#[trigger] g[u as int].successors@.contains(BlockId(v))
                    <==> #[trigger] g[v as int].predecessors@.contains(BlockId(u))) by {
                    assert(g0[u as int].successors@.contains(BlockId(v))
                        <==> g0[v as int].predecessors@.contains(BlockId(u)));
                    lemma_add_once_contains(g0[u as int].successors@, to, BlockId(v));
                    lemma_add_once_contains(g0[v as int].predecessors@, from, BlockId(u));
                    if u == from.0 {
                        assert(g[u as int].successors@.contains(BlockId(v))
                            <==> (g0[u as int].successors@.contains(BlockId(v)) || v == to.0));
                    }
                    if v == to.0 {
                        assert(g[v as int].predecessors@.contains(BlockId(u))
                            <==> (g0[v as int].predecessors@.contains(BlockId(u)) || u == from.0));
                    }
                }
            }
        }
    }

    /// Get a reference to a block.
    pub fn get(&self, id: BlockId) -> (r: Option<&BasicBlock>)
        ensures
            id.0 < self@.len() ==> r == Some(&self@[id.0 as int]),
            id.0 >= self@.len() ==> r is None,
    {
        if id.0 < self.blocks.len() {
            Some(&self.blocks[id.0])
        } else {
            None
        }
    }

    /// Get a mutable reference to a block.
    pub fn get_mut(&mut self, id: BlockId) -> (r: Option<&mut BasicBlock>)
        ensures
            id.0 < old(self)@.len() ==> {
                &&& r is Some
                &&& *r.unwrap() == old(self)@[id.0 as int]
                &&& final(self)@ == old(self)@.update(id.0 as int, *final(r.unwrap()))
                &&& old(self).wf() && (*final(r.unwrap())).id == old(self)@[id.0 as int].id
                    ==> final(self).wf()
            },
            id.0 >= old(self)@.len() ==> r is None && *final(self) == *old(self),
    {
        if id.0 < self.blocks.len() {
            Some(&mut self.blocks[id.0])
        } else {
            None
        }
    }

    /// Number of blocks.
    pub fn len(&self) -> (r: usize)
        ensures
            r == self@.len(),
    {
        self.blocks.len()
    }

    /// Returns true if empty (never, for a well-formed graph: the entry always exists).
    pub fn is_empty(&self) -> (r: bool)
        ensures
            r == (self@.len() == 0),
            self.wf() ==> !r,
    {
        self.blocks.len() == 0
    }

    /// Returns the entry block ID.
    pub fn entry(&self) -> (r: BlockId)
        ensures
            r.0 == 0,
    {
        BlockId::entry()
    }

    /// All blocks, in order.
    pub fn blocks(&self) -> (r: &[BasicBlock])
        ensures
            r@ == self@,
    {
        self.blocks.as_slice()
    }

    /// Compute all exit blocks (blocks with no successors or returning), in
    /// block order.
    pub fn exit_blocks(&self) -> (r: Vec<BlockId>)
        ensures
            r@ == exit_ids(self@),
            forall|e: int| 0 <= e < r@.len() ==> names_exit_block(self@, #[trigger] r@[e]),
            forall|k: int|
                0 <= k < self@.len() && exit_condition(#[trigger] self@[k]) ==> r@.contains(self@[k].id),
            ids_match(self@) ==> forall|a: int, b: int|
                0 <= a < b < r@.len() ==> (#[trigger] r@[a]).0 < (#[trigger] r@[b]).0,
    {
        proof {
            law_exit_blocks(self@);
            if ids_match(self@) {
                law_exit_blocks_ascending(self@);
            }
        }
        let mut r: Vec<BlockId> = Vec::new();
        let mut i: usize = 0;
        while i < self.blocks.len()
            invariant
                i <= self.blocks@.len(),
                r@ == exit_ids(self.blocks@.take(i as int)),
            decreases self.blocks@.len() - i,
        {
            proof {
                assert(self.blocks@.take(i + 1).drop_last() =~= self.blocks@.take(i as int));
            }
            if self.blocks[i].successors.len() == 0 || block_returns(&self.blocks[i]) {
                r.push(self.blocks[i].id);
            }
            proof {
                assert(r@ =~= exit_ids(self.blocks@.take(i + 1)));
            }
            i = i + 1;
        }
        assert(self.blocks@.take(self.blocks@.len() as int) =~= self.blocks@);
        r
    }

    /// Depth-first search from `id` along successor lists: marks every block
    /// it reaches, and appends each to `order` once all its successors are
    /// done (postorder).
    fn rpo_dfs(
        &self,
        id: BlockId,
        visited: &mut Vec<bool>,
        order: &mut Vec<BlockId>,
        Ghost(path): Ghost<Seq<int>>,
    )
        requires
            old(visited)@.len() == self@.len(),
            id.0 < self@.len(),
            succs_in_range_from(self@, old(visited)@, id.0 as int),
        ensures
            dfs_step(self@, old(visited)@, old(order)@, final(visited)@, final(order)@, id.0 as int),
            forall|x: usize|
                x < self@.len() ==> ((final(visited)@[x as int] && !old(visited)@[x as int])
                    <==> #[trigger] reaches_unmarked(self@, old(visited)@, id.0 as int, x as int)),
            (final(visited)@, final(order)@) == dfs_from(
                self@,
                old(visited)@,
                old(order)@,
                id.0 as int,
                unmarked(old(visited)@),
            ),
            final(visited)@[id.0 as int],
            old(visited)@[id.0 as int] ==> final(visited)@ == old(visited)@ && final(order)@ == old(
                order,
            )@,
            !old(visited)@[id.0 as int] ==> final(order)@.len() > old(order)@.len()
                && final(order)@.last() == id,
            active_is(old(visited)@, old(order)@, path) && postorder_ok(self@, old(order)@) && (
            path.len() == 0 || is_succ_walk(self@, path.push(id.0 as int))) ==> active_is(
                final(visited)@,
                final(order)@,
                path,
            ) && postorder_ok(self@, final(order)@),
        decreases self@.len() - count_true(visited@),
    {
        let ghost v0 = visited@;
        let ghost o0 = order@;
        let ghost g = self@;
        let ghost i0 = id.0 as int;
        // The length of a vector is a `usize`: this bounds the number of blocks.
        let n = visited.len();
        proof {
            assert(v0.len() == n);
            lemma_count_bound(v0);
        }
        let ghost book = active_is(v0, o0, path) && postorder_ok(g, o0) && (path.len() == 0
            || is_succ_walk(g, path.push(i0)));
        if visited[id.0] {
            proof {
                assert(order@.subrange(0, o0.len() as int) =~= o0);
                assert(order@.subrange(o0.len() as int, order@.len() as int) =~= Seq::<BlockId>::empty());
                assert forall|x: usize| x < g.len() implies !#[trigger] reaches_unmarked(
                    g,
                    v0,
                    i0,
                    x as int,
                ) by {
                    if reaches_unmarked(g, v0, i0, x as int) {
                        let q = choose|q: Seq<int>|
                            #[trigger] is_succ_walk(g, q) && q[0] == i0 && q.last() == x as int
                                && forall|i: int| 0 <= i < q.len() ==> !v0[#[trigger] q[i]];
                        assert(!v0[q[0]]);
                    }
                }
            }
            return;
        }
        visited.set(id.0, true);
        let ghost path1 = path.push(i0);
        let ghost v1 = visited@;
        proof {
            broadcast use vstd::seq_lib::lemma_seq_contains_after_push;

            // The start block reaches itself through unmarked blocks.
            let one = seq![i0];
            assert(is_succ_walk(g, one));
            assert(forall|i: int| 0 <= i < one.len() ==> !v0[#[trigger] one[i]]);
            assert(reaches_unmarked(g, v0, i0, i0));

            assert forall|x: int| 0 <= x < v0.len() && #[trigger] v0[x] implies visited@[x] by {}
            if book {
                if o0.contains(id) {
                    let j = choose|j: int| 0 <= j < o0.len() && o0[j] == id;
                    assert(v0[o0[j].0 as int]);
                }
                assert forall|j: int| 0 <= j < order@.len() implies (#[trigger] order@[j]).0
                    < visited@.len() && visited@[order@[j].0 as int] by {
                    assert(v0[o0[j].0 as int]);
                }
                assert forall|x: usize| x < visited@.len() implies (#[trigger] is_active(
                    visited@,
                    order@,
                    x,
                ) <==> path1.contains(x as int)) by {
                    vstd::seq_lib::lemma_seq_contains_after_push(path, i0, x as int);
                    assert(order@ == o0);
                    if x as int == i0 {
                        assert(path1[path.len() as int] == i0);
                    } else {
                        assert(visited@[x as int] == v0[x as int]);
                        assert(active_is(v0, o0, path));
                        assert(x < v0.len());
                        assert(is_active(v0, o0, x) <==> path.contains(x as int));
                    }
                }
                assert(active_is(visited@, order@, path1));
                assert(!is_active(v0, o0, id.0));
                if path.len() == 0 {
                    assert(path1 =~= seq![i0]);
                    assert(is_succ_walk(g, path1));
                }
            }
            lemma_count_bound(visited@);
            lemma_count_update(v0, i0, true);
            assert(visited@ == v0.update(i0, true));
            assert(unmarked(visited@) + 1 == unmarked(v0));
            lemma_count_subset(v0, visited@);
            assert(!v0[i0] && visited@[i0]);
            assert(order@.subrange(0, o0.len() as int) =~= o0);
            assert(order@.subrange(o0.len() as int, order@.len() as int) =~= Seq::<BlockId>::empty());
            assert(dfs_partial(g, v0, o0, visited@, order@, i0));
        }
        let succs = &self.blocks[id.0].successors;
        let mut k: usize = 0;
        while k < succs.len()
            invariant
                g == self@,
                v0.len() == g.len(),
                v0.len() <= usize::MAX,
                old(visited)@ == v0,
                i0 == id.0,
                0 <= i0 < g.len(),
                !v0[i0],
                *succs == g[i0].successors,
                dfs_partial(g, v0, o0, visited@, order@, i0),
                visited@[i0],
                count_true(visited@) >= count_true(v0) + 1,
                succs_in_range_from(g, v0, i0),
                reaches_unmarked(g, v0, i0, i0),
                path1 == path.push(i0),
                book == (active_is(v0, o0, path) && postorder_ok(g, o0) && (path.len() == 0
                    || is_succ_walk(g, path.push(i0)))),
                book ==> active_is(visited@, order@, path1),
                book ==> postorder_ok(g, order@),
                book ==> is_succ_walk(g, path1),
                book ==> !path.contains(i0),
                v0.update(i0, true) == v1,
                unmarked(v1) >= unmarked(visited@),
                dfs_succs(g, v1, o0, i0, 0, unmarked(v1)) == dfs_succs(
                    g,
                    visited@,
                    order@,
                    i0,
                    k as int,
                    unmarked(v1),
                ),
                k <= succs@.len(),
                forall|k2: int|
                    0 <= k2 < k ==> (#[trigger] succs@[k2]).0 < g.len() && visited@[succs@[k2].0 as int],
            decreases succs@.len() - k,
        {
            let s = succs[k];
            let ghost vb = visited@;
            let ghost ob = order@;
            proof {
                assert(g[i0].successors@[k as int] == s);
                assert(s.0 < g.len());
                assert(succ_edge(g, i0, s.0 as int)) by {
                    assert(g[i0].successors@[k as int].0 == s.0);
                }
                // What the search from `s` reaches, the search from `id` reaches.
                assert forall|x: int, k2: int|
                    reaches_unmarked(g, visited@, s.0 as int, x) && 0 <= k2 < g[x].successors@.len()
                        implies (#[trigger] g[x].successors@[k2]).0 < g.len() by {
                    let q = choose|q: Seq<int>|
                        #[trigger] is_succ_walk(g, q) && q[0] == s.0 as int && q.last() == x
                            && forall|i: int| 0 <= i < q.len() ==> !visited@[#[trigger] q[i]];
                    lemma_succ_walk_prepend(g, i0, q);
                    let w = seq![i0] + q;
                    assert forall|i: int| 0 <= i < w.len() implies !v0[#[trigger] w[i]] by {
                        if i > 0 {
                            assert(w[i] == q[i - 1]);
                            assert(!visited@[q[i - 1]]);
                        }
                    }
                    assert(w[0] == i0 && w.last() == x);
                    assert(reaches_unmarked(g, v0, i0, x));
                }
                lemma_count_bound(visited@);
                assert(g.len() - count_true(visited@) < g.len() - count_true(v0));
                if book {
                    lemma_succ_walk_push(g, path1, s.0 as int);
                }
            }
            self.rpo_dfs(s, visited, order, Ghost(path1));
            proof {
                lemma_dfs_from_fuel(g, vb, ob, s.0 as int, unmarked(vb), unmarked(v1));
                assert(s.0 == g[i0].successors@[k as int].0);
                assert(dfs_succs(g, vb, ob, i0, k as int, unmarked(v1)) == dfs_succs(
                    g,
                    visited@,
                    order@,
                    i0,
                    k + 1,
                    unmarked(v1),
                ));
                lemma_dfs_compose(g, v0, o0, vb, ob, visited@, order@, i0, s.0 as int);
                assert forall|x: int| 0 <= x < vb.len() && #[trigger] vb[x] implies visited@[x] by {}
                lemma_count_subset(vb, visited@);
                assert forall|k2: int| 0 <= k2 < k + 1 implies (#[trigger] succs@[k2]).0 < g.len()
                    && visited@[succs@[k2].0 as int] by {
                    if k2 < k {
                        assert(vb[succs@[k2].0 as int]);
                    }
                }
            }
            k = k + 1;
        }
        let ghost o1 = order@;
        order.push(id);
        proof {
            broadcast use vstd::seq_lib::lemma_seq_contains_after_push;

            assert(dfs_succs(g, visited@, o1, i0, k as int, unmarked(v1)) == (visited@, o1));

            lemma_dfs_finish(g, v0, o0, visited@, o1, i0);
            assert(order@ == o1.push(BlockId(i0 as usize)));
            let v1 = visited@;
            self.lemma_search_closed(v0, o0, v1, order@, i0);
            if book {
            assert forall|j: int| 0 <= j < order@.len() implies (#[trigger] order@[j]).0 < v1.len()
                && v1[order@[j].0 as int] by {
                if j < o1.len() {
                    assert(order@[j] == o1[j]);
                }
            }
            assert forall|x: usize| x < v1.len() implies (#[trigger] is_active(v1, order@, x)
                <==> path.contains(x as int)) by {
                assert(is_active(v1, o1, x) <==> path1.contains(x as int));
                assert(o1.push(id).contains(BlockId(x)) <==> (o1.contains(BlockId(x)) || BlockId(x) == id));
                assert(path1.contains(x as int) <==> (path.contains(x as int) || x as int == i0));
            }
            assert forall|i: int, k: int|
                0 <= i < order@.len() && 0 <= k < g[order@[i].0 as int].successors@.len() implies {
                let v = (#[trigger] g[order@[i].0 as int].successors@[k]).0;
                (exists|j: int| 0 <= j < i && (#[trigger] order@[j]).0 == v) || succ_reaches(
                    g,
                    v as int,
                    order@[i].0 as int,
                )
            } by {
                let v = g[order@[i].0 as int].successors@[k].0;
                if i < o1.len() {
                    assert(order@[i] == o1[i]);
                    if exists|j: int| 0 <= j < i && (#[trigger] o1[j]).0 == v {
                        let j = choose|j: int| 0 <= j < i && (#[trigger] o1[j]).0 == v;
                        assert(order@[j] == o1[j]);
                    }
                } else {
                    assert(order@[i] == id);
                    assert(succs@[k] == g[i0].successors@[k]);
                    assert(v < g.len() && v1[v as int]);
                    if o1.contains(BlockId(v)) {
                        let j = choose|j: int| 0 <= j < o1.len() && o1[j] == BlockId(v);
                        assert(order@[j] == o1[j]);
                        assert(order@[j].0 == v);
                    } else {
                        assert(is_active(v1, o1, v));
                        assert(path1.contains(v as int));
                        let j = choose|j: int| 0 <= j < path1.len() && path1[j] == v as int;
                        lemma_succ_walk_reaches_last(g, path1, j);
                    }
                }
            }
            }
        }
    }

    /// After a search from `id` that started with marks `v0`: every block
    /// reached from `id` through blocks unmarked in `v0` has been marked.
    proof fn lemma_search_closed(&self, v0: Seq<bool>, o0: Seq<BlockId>, v1: Seq<bool>, o1: Seq<BlockId>, id: int)
        requires
            dfs_step(self@, v0, o0, v1, o1, id),
            0 <= id < v0.len(),
            v0.len() == self@.len(),
            v0.len() <= usize::MAX,
            v1[id],
        ensures
            forall|x: usize|
                x < self@.len() ==> ((v1[x as int] && !v0[x as int])
                    <==> #[trigger] reaches_unmarked(self@, v0, id, x as int)),
    {
        let g = self@;
        let suffix = o1.subrange(o0.len() as int, o1.len() as int);
        assert forall|x: usize| x < g.len() implies ((v1[x as int] && !v0[x as int])
            <==> #[trigger] reaches_unmarked(g, v0, id, x as int)) by {
            if reaches_unmarked(g, v0, id, x as int) {
                let q = choose|q: Seq<int>|
                    #[trigger] is_succ_walk(g, q) && q[0] == id && q.last() == x as int
                        && forall|i: int| 0 <= i < q.len() ==> !v0[#[trigger] q[i]];
                self.lemma_walk_marked(v0, o0, v1, o1, id, q, q.len() - 1);
            }
        }
    }

    /// Every block of a walk from `id` through blocks unmarked in `v0` is
    /// marked after the search from `id`.
    proof fn lemma_walk_marked(
        &self,
        v0: Seq<bool>,
        o0: Seq<BlockId>,
        v1: Seq<bool>,
        o1: Seq<BlockId>,
        id: int,
        q: Seq<int>,
        i: int,
    )
        requires
            dfs_step(self@, v0, o0, v1, o1, id),
            v0.len() == self@.len(),
            v0.len() <= usize::MAX,
            v1[id],
            is_succ_walk(self@, q),
            q[0] == id,
            forall|j: int| 0 <= j < q.len() ==> !v0[#[trigger] q[j]],
            0 <= i < q.len(),
        ensures
            v1[q[i]],
        decreases i,
    {
        let g = self@;
        if i > 0 {
            self.lemma_walk_marked(v0, o0, v1, o1, id, q, i - 1);
            let y = q[i - 1];
            assert(0 <= y < g.len());
            assert(!v0[y]);
            let yb: usize = y as usize;
            let suffix = o1.subrange(o0.len() as int, o1.len() as int);
            assert(suffix.contains(BlockId(yb)));
            let j = choose|j: int| 0 <= j < suffix.len() && suffix[j] == BlockId(yb);
            assert(crate::paths::succ_step(g, q, i - 1));
            let k = choose|k: int|
                0 <= k < g[y].successors@.len() && (#[trigger] g[y].successors@[k]).0 == q[i];
            assert(suffix[j].0 as int == y);
            let t = g[suffix[j].0 as int].successors@[k].0 as int;
            assert(t < v0.len() && v1[t]);
        }
    }

    /// Compute reverse postorder of the blocks reachable from the entry
    /// (along successor lists).
    pub fn reverse_postorder(&self) -> (r: Vec<BlockId>)
        requires
            self@.len() >= 1,
            reachable_succs_in_range(self@),
        ensures
            r@ == dfs_from(
                self@,
                Seq::new(self@.len(), |i: int| false),
                Seq::empty(),
                0,
                self@.len(),
            ).1.reverse(),
            r@.no_duplicates(),
            r@.len() >= 1,
            r@[0].0 == 0,
            forall|x: usize|
                #[trigger] r@.contains(BlockId(x)) <==> (x < self@.len() && succ_reachable(self@, x as int)),
            forall|i: int, k: int|
                0 <= i < r@.len() && 0 <= k < self@[r@[i].0 as int].successors@.len() ==> {
                    let v = (#[trigger] self@[r@[i].0 as int].successors@[k]).0;
                    (exists|j: int| i < j < r@.len() && (#[trigger] r@[j]).0 == v) || succ_reaches(
                        self@,
                        v as int,
                        r@[i].0 as int,
                    )
                },
    {
        let n = self.blocks.len();
        let mut visited = empty_row(n);
        let mut order: Vec<BlockId> = Vec::new();
        let ghost g = self@;
        proof {
            assert(is_succ_walk(g, seq![0int]));
            assert(seq![0int].last() == 0);
        }
        proof {
            assert forall|x: usize| x < visited@.len() implies (#[trigger] is_active(visited@, order@, x)
                <==> Seq::<int>::empty().contains(x as int)) by {}
        }
        let ghost v0 = visited@;
        proof {
            assert(visited@ =~= Seq::new(g.len(), |i: int| false));
            lemma_count_none(visited@);
            assert forall|x: int, k: int|
                reaches_unmarked(g, v0, 0, x) && 0 <= k < g[x].successors@.len() implies (
                #[trigger] g[x].successors@[k]).0 < g.len() by {
                let q = choose|q: Seq<int>|
                    #[trigger] is_succ_walk(g, q) && q[0] == 0 && q.last() == x && forall|i: int|
                        0 <= i < q.len() ==> !v0[#[trigger] q[i]];
                assert(succ_reachable(g, x));
            }
        }
        self.rpo_dfs(self.entry(), &mut visited, &mut order, Ghost(Seq::empty()));
        proof {
            assert(order@.subrange(0, order@.len() as int) =~= order@);
            assert(order@.subrange(0, 0) =~= Seq::<BlockId>::empty());
        }
        let ghost o = order@;
        // the finished blocks are those reached from the entry
        proof {
            assert forall|x: usize| x < n implies (#[trigger] o.contains(BlockId(x))
                <==> succ_reachable(g, x as int)) by {
                assert(order@.subrange(0, order@.len() as int) == o);
                assert((visited@[x as int] && !v0[x as int]) <==> o.contains(BlockId(x)));
                assert((visited@[x as int] && !v0[x as int]) <==> reaches_unmarked(g, v0, 0, x as int));
                if succ_reachable(g, x as int) {
                    let q = choose|q: Seq<int>|
                        #[trigger] is_succ_walk(g, q) && q[0] == 0 && q.last() == x as int;
                    assert forall|i: int| 0 <= i < q.len() implies !v0[#[trigger] q[i]] by {
                        assert(0 <= q[i] < g.len());
                    }
                }
                if reaches_unmarked(g, v0, 0, x as int) {
                    let q = choose|q: Seq<int>|
                        #[trigger] is_succ_walk(g, q) && q[0] == 0 && q.last() == x as int
                            && forall|i: int| 0 <= i < q.len() ==> !v0[#[trigger] q[i]];
                }
            }
        }
        let mut r: Vec<BlockId> = Vec::new();
        let mut i: usize = order.len();
        while i > 0
            invariant
                i <= o.len(),
                order@ == o,
                r@.len() == o.len() - i,
                forall|j: int| 0 <= j < r@.len() ==> r@[j] == o[o.len() - 1 - j],
            decreases i,
        {
            i = i - 1;
            r.push(order[i]);
        }
        proof {
            assert(r@ =~= o.reverse());
            assert forall|x: usize| #[trigger] r@.contains(BlockId(x)) <==> o.contains(BlockId(x)) by {
                if r@.contains(BlockId(x)) {
                    let j = choose|j: int| 0 <= j < r@.len() && r@[j] == BlockId(x);
                    assert(o[o.len() - 1 - j] == BlockId(x));
                }
                if o.contains(BlockId(x)) {
                    let j = choose|j: int| 0 <= j < o.len() && o[j] == BlockId(x);
                    assert(r@[o.len() - 1 - j] == BlockId(x));
                }
            }
            assert forall|a: int, b: int| 0 <= a < r@.len() && 0 <= b < r@.len() && a != b implies r@[a]
                != r@[b] by {
                assert(o[o.len() - 1 - a] != o[o.len() - 1 - b]);
            }
            assert forall|x: usize| o.contains(BlockId(x)) implies x < n && succ_reachable(g, x as int) by {
                let j = choose|j: int| 0 <= j < o.len() && o[j] == BlockId(x);
                assert(o[j].0 < n);
            }
            assert forall|i: int, k: int|
                0 <= i < r@.len() && 0 <= k < g[r@[i].0 as int].successors@.len() implies {
                let v = (#[trigger] g[r@[i].0 as int].successors@[k]).0;
                (exists|j: int| i < j < r@.len() && (#[trigger] r@[j]).0 == v) || succ_reaches(
                    g,
                    v as int,
                    r@[i].0 as int,
                )
            } by {
                let m = o.len() as int;
                let i2 = m - 1 - i;
                assert(r@[i] == o[i2]);
                let v = g[o[i2].0 as int].successors@[k].0;
                if exists|j: int| 0 <= j < i2 && (#[trigger] o[j]).0 == v {
                    let j = choose|j: int| 0 <= j < i2 && (#[trigger] o[j]).0 == v;
                    assert(r@[m - 1 - j] == o[j]);
                }
            }

        }
        r
    }
}

impl Default for Cfg {
    /// A new CFG holding only the entry block.
    fn default() -> (r: Self)
        ensures
            r.wf(),
            r@.len() == 1,
            r@[0].id.0 == 0,
            r@[0].instructions@.len() == 0,
            r@[0].predecessors@.len() == 0,
            r@[0].successors@.len() == 0,
            edges_agree(r@),
    {
        Self::new()
    }
}

} // verus!
