//! Rows of booleans used as sets of block indices, and their sizes.

use vstd::prelude::*;

verus! {

/// Number of `true` entries in `s`.
pub open spec fn count_true(s: Seq<bool>) -> nat
    decreases s.len(),
{
    if s.len() == 0 {
        0
    } else {
        count_true(s.drop_last()) + if s.last() {
            1nat
        } else {
            0nat
        }
    }
}

/// Sum of the sizes of all rows of `m`.
pub open spec fn total_true(m: Seq<Seq<bool>>) -> nat
    decreases m.len(),
{
    if m.len() == 0 {
        0
    } else {
        total_true(m.drop_last()) + count_true(m.last())
    }
}

/// A matrix of `n` rows of `n` entries each.
pub open spec fn is_square(m: Seq<Seq<bool>>, n: int) -> bool {
    &&& m.len() == n
    &&& forall|i: int| 0 <= i < n ==> (#[trigger] m[i]).len() == n
}

/// The boolean rows held by a vector of vectors.
pub open spec fn rows(v: Seq<Vec<bool>>) -> Seq<Seq<bool>> {
    Seq::new(v.len(), |i: int| v[i]@)
}

pub proof fn lemma_count_bound(s: Seq<bool>)
    ensures
        count_true(s) <= s.len(),
    decreases s.len(),
{
    if s.len() > 0 {
        lemma_count_bound(s.drop_last());
    }
}

/// Setting one entry changes the size by at most one, as expected.
pub proof fn lemma_count_update(s: Seq<bool>, i: int, b: bool)
    requires
        0 <= i < s.len(),
    ensures
        count_true(s.update(i, b)) + (if s[i] {
            1int
        } else {
            0int
        }) == count_true(s) + (if b {
            1int
        } else {
            0int
        }),
    decreases s.len(),
{
    let s2 = s.update(i, b);
    if i == s.len() - 1 {
        assert(s2.drop_last() =~= s.drop_last());
    } else {
        lemma_count_update(s.drop_last(), i, b);
        assert(s2.drop_last() =~= s.drop_last().update(i, b));
    }
}

/// A row without `true` entries has size 0.
pub proof fn lemma_count_none(s: Seq<bool>)
    requires
        forall|i: int| 0 <= i < s.len() ==> !s[i],
    ensures
        count_true(s) == 0,
    decreases s.len(),
{
    if s.len() > 0 {
        lemma_count_none(s.drop_last());
    }
}

/// A row with every entry set has as many set entries as it is long.
pub proof fn lemma_count_all(s: Seq<bool>)
    requires
        forall|i: int| 0 <= i < s.len() ==> s[i],
    ensures
        count_true(s) == s.len(),
    decreases s.len(),
{
    if s.len() > 0 {
        lemma_count_all(s.drop_last());
    }
}

/// A row contained in another is no larger; strictly smaller when it misses
/// an entry of the other.
pub proof fn lemma_count_subset(a: Seq<bool>, b: Seq<bool>)
    requires
        a.len() == b.len(),
        forall|i: int| 0 <= i < a.len() && #[trigger] a[i] ==> b[i],
    ensures
        count_true(a) <= count_true(b),
        (exists|i: int| 0 <= i < a.len() && !a[i] && b[i]) ==> count_true(a) < count_true(b),
    decreases a.len(),
{
    if a.len() > 0 {
        let a1 = a.drop_last();
        let b1 = b.drop_last();
        assert forall|i: int| 0 <= i < a1.len() && #[trigger] a1[i] implies b1[i] by {
            assert(a[i]);
        }
        lemma_count_subset(a1, b1);
        if exists|i: int| 0 <= i < a.len() && !a[i] && b[i] {
            let i = choose|i: int| 0 <= i < a.len() && !a[i] && b[i];
            if i < a1.len() {
                assert(!a1[i] && b1[i]);
            }
        }
    }
}

/// Rows of length `n` have a total of at most `n` per row.
pub proof fn lemma_total_bound(m: Seq<Seq<bool>>, n: int)
    requires
        n >= 0,
        forall|i: int| 0 <= i < m.len() ==> (#[trigger] m[i]).len() == n,
    ensures
        total_true(m) <= m.len() * n,
    decreases m.len(),
{
    if m.len() > 0 {
        lemma_total_bound(m.drop_last(), n);
        lemma_count_bound(m.last());
        let k = m.len() as int;
        assert((k - 1) * n + n == k * n) by (nonlinear_arith);
    }
}

/// Replacing one row changes the total by the difference of the row sizes.
pub proof fn lemma_total_update(m: Seq<Seq<bool>>, k: int, r: Seq<bool>)
    requires
        0 <= k < m.len(),
    ensures
        total_true(m.update(k, r)) + count_true(m[k]) == total_true(m) + count_true(r),
    decreases m.len(),
{
    let m2 = m.update(k, r);
    if k == m.len() - 1 {
        assert(m2.drop_last() =~= m.drop_last());
    } else {
        lemma_total_update(m.drop_last(), k, r);
        assert(m2.drop_last() =~= m.drop_last().update(k, r));
    }
}

/// A vector of `n` entries, all `true`.
pub fn full_row(n: usize) -> (r: Vec<bool>)
    ensures
        r@.len() == n,
        forall|i: int| 0 <= i < n ==> r@[i],
{
    let mut r: Vec<bool> = Vec::new();
    while r.len() < n
        invariant
            r@.len() <= n,
            forall|i: int| 0 <= i < r@.len() ==> r@[i],
        decreases n - r@.len(),
    {
        r.push(true);
    }
    r
}

/// A vector of `n` entries, all `false`.
pub fn empty_row(n: usize) -> (r: Vec<bool>)
    ensures
        r@.len() == n,
        forall|i: int| 0 <= i < n ==> !r@[i],
{
    let mut r: Vec<bool> = Vec::new();
    while r.len() < n
        invariant
            r@.len() <= n,
            forall|i: int| 0 <= i < r@.len() ==> !r@[i],
        decreases n - r@.len(),
    {
        r.push(false);
    }
    r
}

/// A vector of `n` entries, `true` exactly at `k`.
pub fn single_row(n: usize, k: usize) -> (r: Vec<bool>)
    ensures
        r@.len() == n,
        forall|i: int| 0 <= i < n ==> r@[i] == (i == k),
{
    let mut r: Vec<bool> = Vec::new();
    while r.len() < n
        invariant
            r@.len() <= n,
            forall|i: int| 0 <= i < r@.len() ==> r@[i] == (i == k),
        decreases n - r@.len(),
    {
        let i = r.len();
        r.push(i == k);
    }
    r
}

/// Sets entry `c` of row `a`.
pub fn set_entry(m: &mut Vec<Vec<bool>>, a: usize, c: usize)
    requires
        a < old(m)@.len(),
        c < old(m)@[a as int]@.len(),
    ensures
        rows(final(m)@) == rows(old(m)@).update(a as int, rows(old(m)@)[a as int].update(c as int, true)),
{
    m[a].set(c, true);
    assert(rows(m@) =~= rows(old(m)@).update(a as int, rows(old(m)@)[a as int].update(c as int, true)));
}

/// Number of `true` entries of `v`.
pub fn count_row(v: &Vec<bool>) -> (r: usize)
    ensures
        r == count_true(v@),
{
    let mut c: usize = 0;
    let mut i: usize = 0;
    while i < v.len()
        invariant
            i <= v@.len(),
            c == count_true(v@.take(i as int)),
        decreases v@.len() - i,
    {
        proof {
            assert(v@.take(i + 1).drop_last() =~= v@.take(i as int));
            lemma_count_bound(v@.take(i as int));
        }
        if v[i] {
            c = c + 1;
        }
        i = i + 1;
    }
    assert(v@.take(v@.len() as int) =~= v@);
    c
}

/// Whether two vectors hold the same entries.
pub fn rows_equal(a: &Vec<bool>, b: &Vec<bool>) -> (r: bool)
    ensures
        r == (a@ == b@),
{
    if a.len() != b.len() {
        return false;
    }
    let mut i: usize = 0;
    while i < a.len()
        invariant
            a@.len() == b@.len(),
            i <= a@.len(),
            forall|j: int| 0 <= j < i ==> a@[j] == b@[j],
        decreases a@.len() - i,
    {
        if a[i] != b[i] {
            return false;
        }
        i = i + 1;
    }
    assert(a@ =~= b@);
    true
}

} // verus!
