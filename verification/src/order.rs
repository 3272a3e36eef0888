//! Ascending order on node ids: the canonical sorted form every packed
//! bucket and query result is stated against, and an insertion sort that
//! reaches it.

use vstd::prelude::*;
use vstd::relations::{sorted_by, total_ordering};
use vstd::seq_lib::lemma_sorted_unique;
use crate::graph::ArcEntry;

verus! {

/// Ascending comparison on node ids.
pub open spec fn u32_le() -> spec_fn(u32, u32) -> bool {
    |x: u32, y: u32| x <= y
}

/// Comparison of arcs by neighbor id.
pub open spec fn entry_le() -> spec_fn(ArcEntry, ArcEntry) -> bool {
    |x: ArcEntry, y: ArcEntry| x.col <= y.col
}

/// The ascending sort of a sequence of node ids.
pub open spec fn sort_asc(s: Seq<u32>) -> Seq<u32> {
    s.sort_by(u32_le())
}

/// Ascending order on ids is total.
pub proof fn lemma_u32_le_total()
    ensures
        total_ordering(u32_le()),
{
}

/// What the ascending sort gives: the same ids, now in order.
pub proof fn lemma_sort_asc_ensures(s: Seq<u32>)
    ensures
        sort_asc(s).to_multiset() == s.to_multiset(),
        sorted_by(sort_asc(s), u32_le()),
        sort_asc(s).len() == s.len(),
        forall|x: u32| sort_asc(s).contains(x) <==> s.contains(x),
{
    broadcast use vstd::seq_lib::group_to_multiset_ensures;

    lemma_u32_le_total();
    s.lemma_sort_by_ensures(u32_le());
    assert(s.to_multiset().len() == s.len());
    assert(sort_asc(s).to_multiset().len() == sort_asc(s).len());
    assert forall|x: u32| sort_asc(s).contains(x) <==> s.contains(x) by {
        assert(s.contains(x) <==> s.to_multiset().count(x) > 0);
        assert(sort_asc(s).contains(x) <==> sort_asc(s).to_multiset().count(x) > 0);
    }
}

/// A sorted sequence with the same ids as `s` is `sort_asc(s)`: the sorted
/// form is unique.
pub proof fn lemma_sorted_is_sort_asc(s: Seq<u32>, t: Seq<u32>)
    requires
        sorted_by(t, u32_le()),
        t.to_multiset() == s.to_multiset(),
    ensures
        t == sort_asc(s),
{
    lemma_u32_le_total();
    lemma_sort_asc_ensures(s);
    lemma_sorted_unique(t, sort_asc(s), u32_le());
}

/// A sorted id sequence without duplicates is strictly increasing.
pub proof fn lemma_sorted_distinct_strict(s: Seq<u32>)
    requires
        sorted_by(s, u32_le()),
        s.no_duplicates(),
    ensures
        forall|a: int, b: int| 0 <= a < b < s.len() ==> s[a] < s[b],
{
    assert forall|a: int, b: int| 0 <= a < b < s.len() implies s[a] < s[b] by {
        assert(u32_le()(s[a], s[b]));
    }
}

/// Returns the ids of `v` in ascending order by insertion sort.
pub fn sorted_ids(v: &Vec<u32>) -> (r: Vec<u32>)
    ensures
        r@ == sort_asc(v@),
{
    broadcast use vstd::seq_lib::group_to_multiset_ensures;
    broadcast use vstd::seq_lib::to_multiset_insert;

    let n = v.len();
    let mut out: Vec<u32> = Vec::new();
    let mut i: usize = 0;
    while i < n
        invariant
            n == v@.len(),
            0 <= i <= n,
            out@.to_multiset() == v@.subrange(0, i as int).to_multiset(),
            sorted_by(out@, u32_le()),
        decreases n - i,
    {
        let x = v[i];
        let mut p: usize = 0;
        while p < out.len() && out[p] <= x
            invariant
                0 <= p <= out@.len(),
                forall|q: int| 0 <= q < p ==> (#[trigger] out@[q]) <= x,
                sorted_by(out@, u32_le()),
            decreases out@.len() - p,
        {
            p += 1;
        }
        let ghost prev = out@;
        out.insert(p, x);
        proof {
            assert(out@ == prev.insert(p as int, x));
            assert forall|a: int, b: int| 0 <= a < b < out@.len() implies u32_le()(
                out@[a],
                out@[b],
            ) by {
                if a < p && b < p {
                    assert(out@[a] == prev[a] && out@[b] == prev[b]);
                } else if a < p && b == p {
                    assert(out@[a] == prev[a] && out@[b] == x);
                } else if a < p && b > p {
                    assert(out@[a] == prev[a] && out@[b] == prev[b - 1]);
                    assert(u32_le()(prev[a], prev[b - 1]));
                } else if a == p && b > p {
                    assert(out@[a] == x && out@[b] == prev[b - 1]);
                    assert(p < prev.len() ==> x < prev[p as int]);
                    assert(u32_le()(prev[p as int], prev[b - 1]));
                } else {
                    assert(out@[a] == prev[a - 1] && out@[b] == prev[b - 1]);
                    assert(u32_le()(prev[a - 1], prev[b - 1]));
                }
            }
            vstd::seq_lib::to_multiset_insert(prev, p as int, x);
            vstd::seq_lib::to_multiset_build(v@.subrange(0, i as int), x);
            assert(v@.subrange(0, i as int + 1) =~= v@.subrange(0, i as int).push(x));
        }
        i += 1;
    }
    proof {
        assert(v@.subrange(0, n as int) =~= v@);
        lemma_sorted_is_sort_asc(v@, out@);
    }
    out
}

/// Returns the arcs of `v` ordered ascending by neighbor id, one arc for
/// one arc.
pub fn sorted_entries(v: &Vec<ArcEntry>) -> (r: Vec<ArcEntry>)
    ensures
        r@.to_multiset() == v@.to_multiset(),
        r@.len() == v@.len(),
        sorted_by(r@, entry_le()),
{
    broadcast use vstd::seq_lib::group_to_multiset_ensures;
    broadcast use vstd::seq_lib::to_multiset_insert;

    let n = v.len();
    let mut out: Vec<ArcEntry> = Vec::new();
    let mut i: usize = 0;
    while i < n
        invariant
            n == v@.len(),
            0 <= i <= n,
            out@.len() == i,
            out@.to_multiset() == v@.subrange(0, i as int).to_multiset(),
            sorted_by(out@, entry_le()),
        decreases n - i,
    {
        let x = v[i];
        let mut p: usize = 0;
        while p < out.len() && out[p].col <= x.col
            invariant
                0 <= p <= out@.len(),
                forall|q: int| 0 <= q < p ==> (#[trigger] out@[q]).col <= x.col,
                sorted_by(out@, entry_le()),
            decreases out@.len() - p,
        {
            p += 1;
        }
        let ghost prev = out@;
        out.insert(p, x);
        proof {
            assert(out@ == prev.insert(p as int, x));
            assert forall|a: int, b: int| 0 <= a < b < out@.len() implies entry_le()(
                out@[a],
                out@[b],
            ) by {
                if a < p && b < p {
                    assert(out@[a] == prev[a] && out@[b] == prev[b]);
                } else if a < p && b == p {
                    assert(out@[a] == prev[a] && out@[b] == x);
                } else if a < p && b > p {
                    assert(out@[a] == prev[a] && out@[b] == prev[b - 1]);
                    assert(entry_le()(prev[a], prev[b - 1]));
                } else if a == p && b > p {
                    assert(out@[a] == x && out@[b] == prev[b - 1]);
                    assert(p < prev.len() ==> x.col < prev[p as int].col);
                    assert(entry_le()(prev[p as int], prev[b - 1]));
                } else {
                    assert(out@[a] == prev[a - 1] && out@[b] == prev[b - 1]);
                    assert(entry_le()(prev[a - 1], prev[b - 1]));
                }
            }
            vstd::seq_lib::to_multiset_insert(prev, p as int, x);
            vstd::seq_lib::to_multiset_build(v@.subrange(0, i as int), x);
            assert(v@.subrange(0, i as int + 1) =~= v@.subrange(0, i as int).push(x));
        }
        i += 1;
    }
    proof {
        assert(v@.subrange(0, n as int) =~= v@);
    }
    out
}

/// Removes adjacent duplicates of an ascending-sorted id sequence, keeping
/// the same set of ids, now strictly increasing.
pub fn dedup_sorted(v: &Vec<u32>) -> (r: Vec<u32>)
    requires
        sorted_by(v@, u32_le()),
    ensures
        forall|a: int, b: int| 0 <= a < b < r@.len() ==> r@[a] < r@[b],
        forall|u: u32| r@.contains(u) <==> v@.contains(u),
{
    let n = v.len();
    let mut out: Vec<u32> = Vec::new();
    let mut i: usize = 0;
    while i < n
        invariant
            n == v@.len(),
            sorted_by(v@, u32_le()),
            0 <= i <= n,
            forall|a: int, b: int| 0 <= a < b < out@.len() ==> out@[a] < out@[b],
            forall|u: u32| out@.contains(u) <==> v@.subrange(0, i as int).contains(u),
            out@.len() > 0 ==> i > 0 && out@[out@.len() - 1] == v@[i - 1],
        decreases n - i,
    {
        let x = v[i];
        let push_it = if out.len() == 0 {
            true
        } else {
            out[out.len() - 1] != x
        };
        let ghost out0 = out@;
        if push_it {
            proof {
                if out0.len() > 0 {
                    assert(u32_le()(v@[i as int - 1], v@[i as int]));
                }
            }
            out.push(x);
        }
        proof {
            let pre = v@.subrange(0, i as int);
            assert(v@.subrange(0, i as int + 1) =~= pre.push(x));
            assert forall|u: u32| out@.contains(u) <==> v@.subrange(0, i as int + 1).contains(
                u,
            ) by {
                let post = v@.subrange(0, i as int + 1);
                if out@.contains(u) {
                    let j = choose|j: int| 0 <= j < out@.len() && out@[j] == u;
                    if push_it && j == out@.len() - 1 {
                        assert(post[post.len() - 1] == u);
                    } else {
                        assert(out0[j] == u);
                        assert(out0.contains(u));
                        assert(pre.contains(u));
                        let j2 = choose|j2: int| 0 <= j2 < pre.len() && pre[j2] == u;
                        assert(post[j2] == u);
                    }
                }
                if post.contains(u) {
                    let j2 = choose|j2: int| 0 <= j2 < post.len() && post[j2] == u;
                    if j2 < pre.len() {
                        assert(pre[j2] == u);
                        assert(pre.contains(u));
                        assert(out0.contains(u));
                        let j = choose|j: int| 0 <= j < out0.len() && out0[j] == u;
                        assert(out@[j] == u);
                    } else {
                        assert(u == x);
                        if push_it {
                            assert(out@[out@.len() - 1] == u);
                        } else {
                            assert(out@[out@.len() - 1] == u);
                        }
                    }
                }
            }
        }
        i += 1;
    }
    proof {
        assert(v@.subrange(0, n as int) =~= v@);
    }
    out
}

/// Membership of a concatenation is membership of either part.
pub proof fn lemma_concat_contains(a: Seq<u32>, b: Seq<u32>, x: u32)
    ensures
        (a + b).contains(x) <==> a.contains(x) || b.contains(x),
{
    if (a + b).contains(x) {
        let j = choose|j: int| 0 <= j < (a + b).len() && (a + b)[j] == x;
        if j < a.len() {
            assert(a[j] == x);
        } else {
            assert(b[j - a.len()] == x);
        }
    }
    if a.contains(x) {
        let j = choose|j: int| 0 <= j < a.len() && a[j] == x;
        assert((a + b)[j] == x);
    }
    if b.contains(x) {
        let j = choose|j: int| 0 <= j < b.len() && b[j] == x;
        assert((a + b)[a.len() + j] == x);
    }
}

} // verus!
