//! Structural distance between two graphs of equal size: the count of
//! ordered node pairs whose edge profile differs, compared index-for-index,
//! with the second graph's nodes optionally relabeled through a permutation.
//! Division by the pair count is left to the caller, so the result stays in
//! integers.

use vstd::prelude::*;
use vstd::multiset::Multiset;
use crate::errors::GraphError;
use crate::graph::{CaugiGraph, GraphV};
use crate::order::{sort_asc, sorted_ids};

verus! {

/// Numeric code of an edge class, distinct per class.
pub open spec fn class_code(c: crate::edges::EdgeClass) -> u32 {
    match c {
        crate::edges::EdgeClass::Directed => 0,
        crate::edges::EdgeClass::Undirected => 1,
        crate::edges::EdgeClass::Bidirected => 2,
        crate::edges::EdgeClass::Partial => 3,
        crate::edges::EdgeClass::PartiallyDirected => 4,
        crate::edges::EdgeClass::PartiallyUndirected => 5,
    }
}

/// Code of one arc: its class together with its side bit.
pub open spec fn arc_code(g: GraphV, k: int) -> u32 {
    (class_code(g.class_at(k)) * 2 + g.entries[k].side as u32) as u32
}

/// The arc codes of row `u`'s first `j` arcs that point at `v`, in row
/// order.
pub open spec fn pair_profile_upto(g: GraphV, u: int, v: int, j: int) -> Seq<u32>
    decreases j,
{
    if j <= 0 {
        Seq::empty()
    } else {
        let k = g.row_ranges[u] + j - 1;
        let prev = pair_profile_upto(g, u, v, j - 1);
        if g.entries[k].col as int == v {
            prev.push(arc_code(g, k))
        } else {
            prev
        }
    }
}

/// The edge profile of the ordered pair (u, v): which kinds of arcs, with
/// which orientation sides, node `u`'s row records toward `v`.
pub open spec fn pair_profile(g: GraphV, u: int, v: int) -> Multiset<u32> {
    pair_profile_upto(g, u, v, g.row_len(u)).to_multiset()
}

/// The pair (u, v) differs between the two graphs, the second read through
/// the relabeling `pm`.
pub open spec fn pair_differs(g1: GraphV, g2: GraphV, pm: Seq<u32>, u: int, v: int) -> bool {
    pair_profile(g1, u, v) != pair_profile(g2, pm[u] as int, pm[v] as int)
}

/// Differing pairs (u, v) with v below `j`, excluding v == u.
pub open spec fn diff_count_row(g1: GraphV, g2: GraphV, pm: Seq<u32>, u: int, j: int) -> int
    decreases j,
{
    if j <= 0 {
        0
    } else {
        diff_count_row(g1, g2, pm, u, j - 1) + if j - 1 != u && pair_differs(
            g1,
            g2,
            pm,
            u,
            j - 1,
        ) {
            1int
        } else {
            0int
        }
    }
}

/// Differing ordered pairs (u, v) with u below `i`, over all v.
pub open spec fn diff_count(g1: GraphV, g2: GraphV, pm: Seq<u32>, i: int) -> int
    decreases i,
{
    if i <= 0 {
        0
    } else {
        diff_count(g1, g2, pm, i - 1) + diff_count_row(g1, g2, pm, i - 1, g1.nodes as int)
    }
}

proof fn lemma_diff_count_row_bound(g1: GraphV, g2: GraphV, pm: Seq<u32>, u: int, j: int)
    ensures
        0 <= diff_count_row(g1, g2, pm, u, j) <= if j >= 0 {
            j
        } else {
            0int
        },
    decreases j,
{
    if j > 0 {
        lemma_diff_count_row_bound(g1, g2, pm, u, j - 1);
    }
}

proof fn lemma_diff_count_bound(g1: GraphV, g2: GraphV, pm: Seq<u32>, i: int)
    requires
        0 <= i,
    ensures
        0 <= diff_count(g1, g2, pm, i) <= i * (g1.nodes as int),
    decreases i,
{
    if i > 0 {
        lemma_diff_count_bound(g1, g2, pm, i - 1);
        lemma_diff_count_row_bound(g1, g2, pm, i - 1, g1.nodes as int);
        assert(i * (g1.nodes as int) == (i - 1) * (g1.nodes as int) + g1.nodes) by (nonlinear_arith);
    }
}

/// The arc codes row `u` records toward `v`, collected in row order.
fn profile_codes(core: &CaugiGraph, u: u32, v: u32) -> (r: Vec<u32>)
    requires
        core@.wf(),
        (u as int) < core@.nodes,
    ensures
        r@ == pair_profile_upto(core@, u as int, v as int, core@.row_len(u as int)),
{
    let ghost g = core@;
    let (ks, ke) = core.row_range(u);
    let rlen = ke - ks;
    let mut out: Vec<u32> = Vec::new();
    let mut jj: usize = 0;
    while jj < rlen
        invariant
            g == core@,
            g.wf(),
            0 <= (u as int) < g.nodes,
            ks == g.row_ranges[u as int],
            ke == g.row_ranges[u as int + 1],
            rlen == ke - ks,
            0 <= jj <= rlen,
            out@ == pair_profile_upto(g, u as int, v as int, jj as int),
        decreases rlen - jj,
    {
        let k = ks + jj;
        proof {
            crate::graph::lemma_ranges_monotone(g, u as int + 1, g.nodes as int);
            assert(k < g.entries.len());
        }
        let e = core.entry(k);
        if e.col == v {
            let c = core.arc_class(k);
            let code: u32 = match c {
                crate::edges::EdgeClass::Directed => 0,
                crate::edges::EdgeClass::Undirected => 1,
                crate::edges::EdgeClass::Bidirected => 2,
                crate::edges::EdgeClass::Partial => 3,
                crate::edges::EdgeClass::PartiallyDirected => 4,
                crate::edges::EdgeClass::PartiallyUndirected => 5,
            };
            let enc = code * 2 + e.side as u32;
            proof {
                assert(enc == arc_code(g, k as int));
            }
            out.push(enc);
        }
        jj += 1;
    }
    out
}

/// Element-for-element equality of two id vectors.
fn ids_equal(a: &Vec<u32>, b: &Vec<u32>) -> (r: bool)
    ensures
        r == (a@ == b@),
{
    if a.len() != b.len() {
        return false;
    }
    let n = a.len();
    let mut j: usize = 0;
    while j < n
        invariant
            n == a@.len() == b@.len(),
            0 <= j <= n,
            forall|q: int| 0 <= q < j ==> a@[q] == b@[q],
        decreases n - j,
    {
        if a[j] != b[j] {
            return false;
        }
        j += 1;
    }
    proof {
        assert(a@ =~= b@);
    }
    true
}

/// Whether the pair (u, v) differs between the graphs, decided by comparing
/// the sorted profiles.
fn pair_differs_exec(c1: &CaugiGraph, c2: &CaugiGraph, u: u32, v: u32, u2: u32, v2: u32) -> (r:
    bool)
    requires
        c1@.wf(),
        c2@.wf(),
        (u as int) < c1@.nodes,
        (u2 as int) < c2@.nodes,
    ensures
        r == (pair_profile(c1@, u as int, v as int) != pair_profile(c2@, u2 as int, v2 as int)),
{
    let p1 = profile_codes(c1, u, v);
    let p2 = profile_codes(c2, u2, v2);
    let s1 = sorted_ids(&p1);
    let s2 = sorted_ids(&p2);
    let eq = ids_equal(&s1, &s2);
    proof {
        crate::order::lemma_sort_asc_ensures(p1@);
        crate::order::lemma_sort_asc_ensures(p2@);
        if s1@ == s2@ {
            assert(p1@.to_multiset() == p2@.to_multiset());
        }
        if p1@.to_multiset() == p2@.to_multiset() {
            crate::order::lemma_sorted_is_sort_asc(p1@, s2@);
        }
    }
    !eq
}

/// Counts the ordered pairs whose profiles differ, the second graph read
/// through `pm`.
fn count_diffs(c1: &CaugiGraph, c2: &CaugiGraph, pm: &Vec<u32>) -> (r: u64)
    requires
        c1@.wf(),
        c2@.wf(),
        c1@.nodes == c2@.nodes,
        pm@.len() == c1@.nodes,
        forall|j: int| 0 <= j < pm@.len() ==> (#[trigger] pm@[j]) < c2@.nodes,
    ensures
        r as int == diff_count(c1@, c2@, pm@, c1@.nodes as int),
{
    let ghost g1 = c1@;
    let ghost g2 = c2@;
    let n = c1.n();
    let mut count: u64 = 0;
    let mut u: u32 = 0;
    while u < n
        invariant
            g1 == c1@,
            g2 == c2@,
            g1.wf(),
            g2.wf(),
            g1.nodes == g2.nodes,
            n == g1.nodes,
            pm@.len() == n,
            forall|j: int| 0 <= j < pm@.len() ==> (#[trigger] pm@[j]) < g2.nodes,
            0 <= u <= n,
            count as int == diff_count(g1, g2, pm@, u as int),
        decreases n - u,
    {
        let mut v: u32 = 0;
        while v < n
            invariant
                g1 == c1@,
                g2 == c2@,
                g1.wf(),
                g2.wf(),
                g1.nodes == g2.nodes,
                n == g1.nodes,
                pm@.len() == n,
                forall|j: int| 0 <= j < pm@.len() ==> (#[trigger] pm@[j]) < g2.nodes,
                0 <= u < n,
                0 <= v <= n,
                count as int == diff_count(g1, g2, pm@, u as int) + diff_count_row(
                    g1,
                    g2,
                    pm@,
                    u as int,
                    v as int,
                ),
            decreases n - v,
        {
            if v != u {
                let d = pair_differs_exec(c1, c2, u, v, pm[u as usize], pm[v as usize]);
                if d {
                    proof {
                        lemma_diff_count_bound(g1, g2, pm@, u as int);
                        lemma_diff_count_row_bound(g1, g2, pm@, u as int, v as int);
                        assert((u as int) * (g1.nodes as int) + (v as int) + 1 <= 0xffff_ffff
                            * 0x1_0000_0000) by (nonlinear_arith)
                            requires
                                0 <= u as int <= 0xffff_ffff,
                                0 <= v as int <= 0xffff_fffe,
                                g1.nodes as int <= 0xffff_ffff,
                        ;
                    }
                    count = count + 1;
                }
            }
            v += 1;
        }
        u += 1;
    }
    count
}

/// Unlabeled structural distance: the count of ordered node pairs whose
/// edge profile differs between the two graphs, compared index-for-index,
/// together with the number of ordered pairs. Fails on a size mismatch.
pub fn hd(c1: &CaugiGraph, c2: &CaugiGraph) -> (r: Result<(u64, u64), GraphError>)
    requires
        c1@.wf(),
        c2@.wf(),
    ensures
        match r {
            Ok(p) => {
                &&& c1@.nodes == c2@.nodes
                &&& p.0 as int == diff_count(c1@, c2@, identity_perm(c1@.nodes as int), c1@.nodes as int)
                &&& p.1 as int == (c1@.nodes as int) * (c1@.nodes as int - 1)
            },
            Err(e) => c1@.nodes != c2@.nodes && e == GraphError::SizeMismatch,
        },
{
    let n = c1.n();
    if n != c2.n() {
        return Err(GraphError::SizeMismatch);
    }
    let mut pm: Vec<u32> = Vec::new();
    let mut j: u32 = 0;
    while j < n
        invariant
            0 <= j <= n,
            pm@.len() == j,
            forall|q: int| 0 <= q < j ==> (#[trigger] pm@[q]) == q,
        decreases n - j,
    {
        pm.push(j);
        j += 1;
    }
    proof {
        assert(pm@ =~= identity_perm(n as int));
    }
    let count = count_diffs(c1, c2, &pm);
    proof {
        assert((n as int) * (n as int) <= 0xffff_ffff * 0xffff_ffff) by (nonlinear_arith)
            requires
                0 <= n as int <= 0xffff_ffff,
        ;
        assert((n as int) * (n as int) >= n as int) by (nonlinear_arith)
            requires
                0 <= n as int,
        ;
        assert((n as int) * (n as int) - (n as int) == (n as int) * (n as int - 1))
            by (nonlinear_arith);
    }
    let pairs = (n as u64) * (n as u64) - (n as u64);
    Ok((count, pairs))
}

/// The identity relabeling on `n` nodes.
pub open spec fn identity_perm(n: int) -> Seq<u32> {
    Seq::new(n as nat, |q: int| q as u32)
}

/// Structural distance after relabeling the second graph's nodes through
/// `perm`: pair (u, v) of the first graph is held against pair
/// (perm[u], perm[v]) of the second. Fails on a size mismatch, then on a
/// relabeling entry out of range.
pub fn shd_with_perm(c1: &CaugiGraph, c2: &CaugiGraph, perm: &Vec<u32>) -> (r: Result<
    (u64, u64),
    GraphError,
>)
    requires
        c1@.wf(),
        c2@.wf(),
    ensures
        match r {
            Ok(p) => {
                &&& c1@.nodes == c2@.nodes
                &&& perm@.len() == c1@.nodes
                &&& (forall|j: int| 0 <= j < perm@.len() ==> (#[trigger] perm@[j]) < c2@.nodes)
                &&& p.0 as int == diff_count(c1@, c2@, perm@, c1@.nodes as int)
                &&& p.1 as int == (c1@.nodes as int) * (c1@.nodes as int - 1)
            },
            Err(e) => {
                &&& (c1@.nodes != c2@.nodes || perm@.len() != c1@.nodes || exists|j: int|
                    0 <= j < perm@.len() && (#[trigger] perm@[j]) >= c2@.nodes)
                &&& e == if c1@.nodes != c2@.nodes || perm@.len() != c1@.nodes {
                    GraphError::SizeMismatch
                } else {
                    GraphError::InvalidNodeId
                }
            },
        },
{
    let n = c1.n();
    if n != c2.n() {
        return Err(GraphError::SizeMismatch);
    }
    if perm.len() != n as usize {
        return Err(GraphError::SizeMismatch);
    }
    let mut j: usize = 0;
    while j < perm.len()
        invariant
            perm@.len() == c1@.nodes,
            n == c1@.nodes,
            c1@.nodes == c2@.nodes,
            0 <= j <= perm@.len(),
            forall|q: int| 0 <= q < j ==> (#[trigger] perm@[q]) < c2@.nodes,
        decreases perm@.len() - j,
    {
        if perm[j] >= n {
            proof {
                assert((#[trigger] perm@[j as int]) >= c2@.nodes);
            }
            return Err(GraphError::InvalidNodeId);
        }
        j += 1;
    }
    let count = count_diffs(c1, c2, perm);
    proof {
        assert((n as int) * (n as int) <= 0xffff_ffff * 0xffff_ffff) by (nonlinear_arith)
            requires
                0 <= n as int <= 0xffff_ffff,
        ;
        assert((n as int) * (n as int) >= n as int) by (nonlinear_arith)
            requires
                0 <= n as int,
        ;
        assert((n as int) * (n as int) - (n as int) == (n as int) * (n as int - 1))
            by (nonlinear_arith);
    }
    let pairs = (n as u64) * (n as u64) - (n as u64);
    Ok((count, pairs))
}

/// A graph is at distance zero from itself: every pair's profile equals
/// itself, so the raw count of `hd(g, g)` is zero.
pub proof fn lemma_hd_self_zero(g: GraphV, i: int)
    requires
        0 <= i <= g.nodes,
    ensures
        diff_count(g, g, identity_perm(g.nodes as int), i) == 0,
    decreases i,
{
    if i > 0 {
        lemma_hd_self_zero(g, i - 1);
        lemma_hd_self_row_zero(g, i - 1, g.nodes as int);
    }
}

proof fn lemma_hd_self_row_zero(g: GraphV, u: int, j: int)
    requires
        0 <= u < g.nodes,
        0 <= j <= g.nodes,
    ensures
        diff_count_row(g, g, identity_perm(g.nodes as int), u, j) == 0,
    decreases j,
{
    if j > 0 {
        lemma_hd_self_row_zero(g, u, j - 1);
        assert(identity_perm(g.nodes as int)[u] == u as u32);
        assert(identity_perm(g.nodes as int)[j - 1] == (j - 1) as u32);
    }
}

/// The distance is invariant under any relabeling of the second graph that
/// the permutation correctly inverts: when the relabeled pairs carry the
/// same profiles, the counts agree pair for pair.
pub proof fn lemma_shd_relabel_invariant(
    g1: GraphV,
    g2: GraphV,
    g3: GraphV,
    pm2: Seq<u32>,
    pm3: Seq<u32>,
    i: int,
)
    requires
        0 <= i <= g1.nodes,
        forall|u: int, v: int|
            0 <= u < g1.nodes && 0 <= v < g1.nodes ==> #[trigger] pair_profile(
                g2,
                pm2[u] as int,
                pm2[v] as int,
            ) == pair_profile(g3, pm3[u] as int, pm3[v] as int),
    ensures
        diff_count(g1, g2, pm2, i) == diff_count(g1, g3, pm3, i),
    decreases i,
{
    if i > 0 {
        lemma_shd_relabel_invariant(g1, g2, g3, pm2, pm3, i - 1);
        lemma_shd_relabel_row(g1, g2, g3, pm2, pm3, i - 1, g1.nodes as int);
    }
}

proof fn lemma_shd_relabel_row(
    g1: GraphV,
    g2: GraphV,
    g3: GraphV,
    pm2: Seq<u32>,
    pm3: Seq<u32>,
    u: int,
    j: int,
)
    requires
        0 <= u < g1.nodes,
        0 <= j <= g1.nodes,
        forall|u2: int, v: int|
            0 <= u2 < g1.nodes && 0 <= v < g1.nodes ==> #[trigger] pair_profile(
                g2,
                pm2[u2] as int,
                pm2[v] as int,
            ) == pair_profile(g3, pm3[u2] as int, pm3[v] as int),
    ensures
        diff_count_row(g1, g2, pm2, u, j) == diff_count_row(g1, g3, pm3, u, j),
    decreases j,
{
    if j > 0 {
        lemma_shd_relabel_row(g1, g2, g3, pm2, pm3, u, j - 1);
        assert(pair_profile(g2, pm2[u] as int, pm2[j - 1] as int) == pair_profile(
            g3,
            pm3[u] as int,
            pm3[j - 1] as int,
        ));
    }
}

} // verus!
