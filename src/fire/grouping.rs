//! Stable grouping of node indices by a small integer key.
//!
//! Node `i` with key `ks[i]` goes to position `group_pos(ks, i)`: after every
//! node with a smaller key, and after the earlier nodes with the same key.
use vstd::prelude::*;
use vstd::relations::injective_on;
use vstd::set_lib::*;

verus! {

/// How many of the first `m` keys equal `k`.
pub open spec fn count_eq(ks: Seq<int>, k: int, m: int) -> nat
    decreases m,
{
    if m <= 0 {
        0
    } else {
        count_eq(ks, k, m - 1) + if ks[m - 1] == k {
            1nat
        } else {
            0nat
        }
    }
}

/// How many of the first `m` keys are smaller than `k`.
pub open spec fn count_lt(ks: Seq<int>, k: int, m: int) -> nat
    decreases m,
{
    if m <= 0 {
        0
    } else {
        count_lt(ks, k, m - 1) + if ks[m - 1] < k {
            1nat
        } else {
            0nat
        }
    }
}

/// The position of index `i` once the indices are grouped by key, stably.
pub open spec fn group_pos(ks: Seq<int>, i: int) -> int {
    (count_lt(ks, ks[i], ks.len() as int) + count_eq(ks, ks[i], i)) as int
}

/// Index `a` comes before index `b` when ordered by key, then by index.
pub open spec fn key_order(ks: Seq<int>, a: int, b: int) -> bool {
    ks[a] < ks[b] || (ks[a] == ks[b] && a < b)
}

/// Every key lies in `[0, bound)`.
pub open spec fn keys_below(ks: Seq<int>, bound: int) -> bool {
    forall|i: int| 0 <= i < ks.len() ==> 0 <= #[trigger] ks[i] < bound
}

pub proof fn lemma_counts_bounded(ks: Seq<int>, k: int, m: int)
    requires
        0 <= m,
    ensures
        count_eq(ks, k, m) <= m,
        count_lt(ks, k, m) <= m,
    decreases m,
{
    if m > 0 {
        lemma_counts_bounded(ks, k, m - 1);
    }
}

pub proof fn lemma_count_lt_step(ks: Seq<int>, k: int, m: int)
    ensures
        count_lt(ks, k + 1, m) == count_lt(ks, k, m) + count_eq(ks, k, m),
    decreases m,
{
    if m > 0 {
        lemma_count_lt_step(ks, k, m - 1);
    }
}

pub proof fn lemma_count_lt_mono(ks: Seq<int>, k1: int, k2: int, m: int)
    requires
        k1 <= k2,
    ensures
        count_lt(ks, k1, m) <= count_lt(ks, k2, m),
    decreases m,
{
    if m > 0 {
        lemma_count_lt_mono(ks, k1, k2, m - 1);
    }
}

pub proof fn lemma_count_eq_mono(ks: Seq<int>, k: int, m1: int, m2: int)
    requires
        0 <= m1 <= m2,
    ensures
        count_eq(ks, k, m1) <= count_eq(ks, k, m2),
        m1 < m2 && ks[m1] == k ==> count_eq(ks, k, m1) < count_eq(ks, k, m2),
    decreases m2,
{
    if m1 < m2 {
        lemma_count_eq_mono(ks, k, m1, m2 - 1);
    }
}

pub proof fn lemma_count_lt_ends(ks: Seq<int>, bound: int, m: int)
    requires
        keys_below(ks, bound),
        0 <= m <= ks.len(),
    ensures
        count_lt(ks, 0, m) == 0,
        count_lt(ks, bound, m) == m,
    decreases m,
{
    if m > 0 {
        lemma_count_lt_ends(ks, bound, m - 1);
        assert(0 <= ks[m - 1] < bound);
    }
}

/// Index `i` lands inside the block of its own key.
pub proof fn lemma_group_pos_window(ks: Seq<int>, i: int)
    requires
        0 <= i < ks.len(),
    ensures
        count_lt(ks, ks[i], ks.len() as int) <= group_pos(ks, i),
        group_pos(ks, i) < count_lt(ks, ks[i] + 1, ks.len() as int),
{
    lemma_count_eq_mono(ks, ks[i], i, ks.len() as int);
    lemma_count_lt_step(ks, ks[i], ks.len() as int);
}

/// Grouping keeps the order by key, then by index.
pub proof fn lemma_group_pos_order(ks: Seq<int>, a: int, b: int)
    requires
        0 <= a < ks.len(),
        0 <= b < ks.len(),
        key_order(ks, a, b),
    ensures
        group_pos(ks, a) < group_pos(ks, b),
{
    let n = ks.len() as int;
    if ks[a] == ks[b] {
        lemma_count_eq_mono(ks, ks[a], a, b);
    } else {
        lemma_group_pos_window(ks, a);
        lemma_group_pos_window(ks, b);
        lemma_count_lt_mono(ks, ks[a] + 1, ks[b], n);
    }
}

/// Grouping maps `[0, n)` into `[0, n)`.
pub proof fn lemma_group_pos_bounded(ks: Seq<int>, bound: int, i: int)
    requires
        keys_below(ks, bound),
        0 <= i < ks.len(),
    ensures
        0 <= group_pos(ks, i) < ks.len(),
{
    let n = ks.len() as int;
    lemma_group_pos_window(ks, i);
    assert(0 <= ks[i] < bound);
    lemma_count_lt_mono(ks, ks[i] + 1, bound, n);
    lemma_count_lt_ends(ks, bound, n);
}

/// Distinct indices go to distinct positions.
pub proof fn lemma_group_pos_injective(ks: Seq<int>, a: int, b: int)
    requires
        0 <= a < ks.len(),
        0 <= b < ks.len(),
        a != b,
    ensures
        group_pos(ks, a) != group_pos(ks, b),
{
    if key_order(ks, a, b) {
        lemma_group_pos_order(ks, a, b);
    } else {
        lemma_group_pos_order(ks, b, a);
    }
}

/// Every position of `[0, n)` is taken by some index.
pub proof fn lemma_group_pos_onto(ks: Seq<int>, bound: int, p: int)
    requires
        keys_below(ks, bound),
        0 <= p < ks.len(),
    ensures
        exists|i: int| 0 <= i < ks.len() && group_pos(ks, i) == p,
{
    let n = ks.len() as int;
    let dom = set_int_range(0, n);
    let f = |i: int| group_pos(ks, i);
    lemma_int_range(0, n);
    assert forall|a: int, b: int| dom.contains(a) && dom.contains(b) && #[trigger] f(a) == #[trigger] f(
        b,
    ) implies a == b by {
        if a != b {
            lemma_group_pos_injective(ks, a, b);
        }
    }
    assert(injective_on(f, dom));
    let img = dom.map(f);
    lemma_map_size(dom, img, f);
    assert forall|x: int| img.contains(x) implies dom.contains(x) by {
        let i = choose|i: int| dom.contains(i) && f(i) == x;
        lemma_group_pos_bounded(ks, bound, i);
    }
    lemma_subset_equality(img, dom);
    assert(img.contains(p));
    let i = choose|i: int| dom.contains(i) && f(i) == p;
    assert(0 <= i < n && group_pos(ks, i) == p);
}

} // verus!
