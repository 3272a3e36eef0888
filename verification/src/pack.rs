//! The packed-neighborhood index shared by every typed view: per node, one
//! contiguous window per edge-class bucket, each window sorted ascending, so
//! that a per-class query is one O(1) slice of a flat array.

use vstd::prelude::*;
use crate::graph::{CaugiGraph, GraphV};
use crate::order::{sort_asc, sorted_ids};

verus! {

/// The packed index: `ranges` gives each node's span in `nbrs`, `deg` the
/// bucket widths (`nb` per node), and `nbrs` the flat neighbor array.
#[derive(Debug)]
pub struct ViewIndex {
    pub ranges: Vec<usize>,
    pub deg: Vec<usize>,
    pub nbrs: Vec<u32>,
}

/// Sum of the `b` bucket widths starting at `base`.
pub open spec fn sum_deg(deg: Seq<usize>, base: int, b: int) -> int
    decreases b,
{
    if b <= 0 {
        0
    } else {
        sum_deg(deg, base, b - 1) + deg[base + b - 1]
    }
}

/// Start of node `i`'s bucket `b` in the flat neighbor array.
pub open spec fn wstart(ranges: Seq<usize>, deg: Seq<usize>, nb: int, i: int, b: int) -> int {
    ranges[i] + sum_deg(deg, i * nb, b)
}

/// Selects the arcs assigned to bucket `b`.
pub open spec fn bk_sel(bks: Seq<u8>, b: int) -> spec_fn(GraphV, int) -> bool {
    |g: GraphV, k: int| (bks[k] as int) == b
}

/// The neighbors of row `i` whose arcs are assigned to bucket `b`, in row
/// order.
pub open spec fn bucket_cols(g: GraphV, bks: Seq<u8>, i: int, b: int) -> Seq<u32> {
    g.sel_cols(i, bk_sel(bks, b))
}

/// Bucket `b` of node `i` is a window of the flat array holding exactly its
/// assigned neighbors in ascending order.
pub open spec fn bucket_window_ok(
    g: GraphV,
    bks: Seq<u8>,
    nb: int,
    ranges: Seq<usize>,
    deg: Seq<usize>,
    nbrs: Seq<u32>,
    i: int,
    b: int,
) -> bool {
    let s = wstart(ranges, deg, nb, i, b);
    &&& 0 <= s
    &&& s + deg[i * nb + b] <= nbrs.len()
    &&& deg[i * nb + b] == bucket_cols(g, bks, i, b).len()
    &&& nbrs.subrange(s, s + deg[i * nb + b]) == sort_asc(bucket_cols(g, bks, i, b))
}

/// The whole packed index is consistent with the graph and the bucket
/// assignment: nodes tile the flat array, each node's buckets tile its span,
/// and every bucket window is its sorted assigned-neighbor list.
pub open spec fn view_index_ok(
    g: GraphV,
    bks: Seq<u8>,
    nb: int,
    ranges: Seq<usize>,
    deg: Seq<usize>,
    nbrs: Seq<u32>,
) -> bool {
    &&& nb >= 1
    &&& bks.len() == g.entries.len()
    &&& ranges.len() == g.nodes + 1
    &&& deg.len() == g.nodes * nb
    &&& ranges[0] == 0
    &&& ranges[g.nodes as int] == nbrs.len()
    &&& forall|i: int| 0 <= i < g.nodes ==> (#[trigger] ranges[i]) <= ranges[i + 1]
    &&& forall|i: int|
        0 <= i < g.nodes ==> #[trigger] wstart(ranges, deg, nb, i, nb) == ranges[i + 1]
    &&& forall|i: int, b: int|
        0 <= i < g.nodes && 0 <= b < nb ==> #[trigger] bucket_window_ok(
            g,
            bks,
            nb,
            ranges,
            deg,
            nbrs,
            i,
            b,
        )
}

/// A width array and an extension of it give the same sums over any span
/// of the shorter one.
proof fn lemma_sum_deg_agree(d1: Seq<usize>, d2: Seq<usize>, base: int, b: int)
    requires
        0 <= base,
        base + b <= d1.len(),
        d1.len() <= d2.len(),
        forall|x: int| 0 <= x < d1.len() ==> d1[x] == d2[x],
    ensures
        sum_deg(d1, base, b) == sum_deg(d2, base, b),
    decreases b,
{
    if b > 0 {
        lemma_sum_deg_agree(d1, d2, base, b - 1);
    }
}

/// Bucket sums are nonnegative.
proof fn lemma_sum_deg_nonneg(deg: Seq<usize>, base: int, b: int)
    ensures
        sum_deg(deg, base, b) >= 0,
    decreases b,
{
    if b > 0 {
        lemma_sum_deg_nonneg(deg, base, b - 1);
    }
}

/// Builds the packed index for a graph whose arcs were assigned buckets
/// below `nb`, by collecting and sorting each node's buckets in order.
#[verifier::rlimit(100)]
pub fn pack_buckets(core: &CaugiGraph, bks: &Vec<u8>, nb: usize) -> (r: ViewIndex)
    requires
        core@.wf(),
        bks@.len() == core@.entries.len(),
        1 <= nb,
        forall|k: int| 0 <= k < bks@.len() ==> ((#[trigger] bks@[k]) as int) < nb,
    ensures
        view_index_ok(core@, bks@, nb as int, r.ranges@, r.deg@, r.nbrs@),
{
    let n = core.n() as usize;
    let ghost g = core@;
    let mut ranges: Vec<usize> = Vec::new();
    let mut deg: Vec<usize> = Vec::new();
    let mut nbrs: Vec<u32> = Vec::new();
    ranges.push(0);
    let mut i: usize = 0;
    while i < n
        invariant
            g == core@,
            g.wf(),
            bks@.len() == g.entries.len(),
            forall|k: int| 0 <= k < bks@.len() ==> ((#[trigger] bks@[k]) as int) < nb,
            1 <= nb,
            n == g.nodes as usize,
            0 <= i <= n,
            ranges@.len() == i + 1,
            deg@.len() == i * nb,
            ranges@[0] == 0,
            ranges@[i as int] == nbrs@.len(),
            forall|i2: int| 0 <= i2 < i ==> (#[trigger] ranges@[i2]) <= ranges@[i2 + 1],
            forall|i2: int|
                0 <= i2 < i ==> #[trigger] wstart(ranges@, deg@, nb as int, i2, nb as int)
                    == ranges@[i2 + 1],
            forall|i2: int, b: int|
                0 <= i2 < i && 0 <= b < nb ==> #[trigger] bucket_window_ok(
                    g,
                    bks@,
                    nb as int,
                    ranges@,
                    deg@,
                    nbrs@,
                    i2,
                    b,
                ),
        decreases n - i,
    {
        let (ks, ke) = core.row_range(i as u32);
        let ghost ranges0 = ranges@;
        let mut b: usize = 0;
        while b < nb
            invariant
                g == core@,
                g.wf(),
                bks@.len() == g.entries.len(),
                forall|k: int| 0 <= k < bks@.len() ==> ((#[trigger] bks@[k]) as int) < nb,
                1 <= nb,
                n == g.nodes as usize,
                0 <= i < n,
                ks == g.row_ranges[i as int],
                ke == g.row_ranges[i as int + 1],
                0 <= b <= nb,
                ranges@.len() == i + 1,
                deg@.len() == i * nb + b,
                ranges@[0] == 0,
                nbrs@.len() == wstart(ranges@, deg@, nb as int, i as int, b as int),
                ranges@[i as int] <= nbrs@.len(),
                forall|i2: int| 0 <= i2 < i ==> (#[trigger] ranges@[i2]) <= ranges@[i2 + 1],
                forall|i2: int|
                    0 <= i2 < i ==> #[trigger] wstart(ranges@, deg@, nb as int, i2, nb as int)
                        == ranges@[i2 + 1],
                forall|i2: int, b2: int|
                    (0 <= i2 < i && 0 <= b2 < nb) || (i2 == i && 0 <= b2 < b) ==> #[trigger]
                    bucket_window_ok(
                        g,
                        bks@,
                        nb as int,
                        ranges@,
                        deg@,
                        nbrs@,
                        i2,
                        b2,
                    ),
            decreases nb - b,
        {
            let mut tmp: Vec<u32> = Vec::new();
            let mut jj: usize = 0;
            let rlen = ke - ks;
            while jj < rlen
                invariant
                    g == core@,
                    g.wf(),
                    bks@.len() == g.entries.len(),
                    0 <= i < n,
                    n == g.nodes as usize,
                    ks == g.row_ranges[i as int],
                    ke == g.row_ranges[i as int + 1],
                    rlen == ke - ks,
                    0 <= jj <= rlen,
                    0 <= b < nb,
                    tmp@ == g.sel_cols_upto(i as int, bk_sel(bks@, b as int), jj as int),
                decreases rlen - jj,
            {
                let k = ks + jj;
                proof {
                    crate::graph::lemma_ranges_monotone(g, i as int + 1, g.nodes as int);
                    assert(k < g.entries.len());
                }
                let bk = bks[k];
                if bk as usize == b {
                    let e = core.entry(k);
                    tmp.push(e.col);
                }
                jj += 1;
            }
            let srt = sorted_ids(&tmp);
            let ghost deg0 = deg@;
            let ghost nbrs0 = nbrs@;
            deg.push(srt.len());
            let mut srt2 = srt;
            nbrs.append(&mut srt2);
            proof {
                let ib = i as int * nb + b;
                crate::order::lemma_sort_asc_ensures(tmp@);
                assert(tmp@ == g.sel_cols(i as int, bk_sel(bks@, b as int)));
                assert(deg@ == deg0.push(srt@.len() as usize));
                assert(nbrs@ == nbrs0 + srt@);
                // the new window sits exactly at the old end of the array
                lemma_sum_deg_agree(deg0, deg@, i as int * nb, b as int);
                assert(wstart(ranges@, deg@, nb as int, i as int, b as int) == nbrs0.len() as int);
                assert(deg@[ib] == srt@.len());
                assert(nbrs@.subrange(nbrs0.len() as int, nbrs0.len() + srt@.len() as int) =~= srt@);
                assert(sum_deg(deg@, i as int * nb, b as int + 1) == sum_deg(
                    deg@,
                    i as int * nb,
                    b as int,
                ) + deg@[ib]);
                assert(bucket_window_ok(
                    g,
                    bks@,
                    nb as int,
                    ranges@,
                    deg@,
                    nbrs@,
                    i as int,
                    b as int,
                ));
                // earlier windows are untouched
                assert forall|i2: int, b2: int|
                    (0 <= i2 < i && 0 <= b2 < nb) || (i2 == i && 0 <= b2 < b) implies #[trigger]
                bucket_window_ok(g, bks@, nb as int, ranges@, deg@, nbrs@, i2, b2) by {
                    assert(bucket_window_ok(g, bks@, nb as int, ranges@, deg0, nbrs0, i2, b2));
                    if i2 < i {
                        vstd::arithmetic::mul::lemma_mul_inequality(i2 + 1, i as int, nb as int);
                        assert((i2 + 1) * (nb as int) == i2 * (nb as int) + nb) by (nonlinear_arith);
                        assert(i2 * (nb as int) + nb <= (i as int) * (nb as int));
                    }
                    lemma_sum_deg_agree(deg0, deg@, i2 * nb, b2);
                    lemma_sum_deg_agree(deg0, deg@, i2 * nb, b2 + 1);
                    let s = wstart(ranges@, deg@, nb as int, i2, b2);
                    assert(s == wstart(ranges@, deg0, nb as int, i2, b2));
                    assert(deg@[i2 * nb + b2] == deg0[i2 * nb + b2]);
                    assert(nbrs@.subrange(s, s + deg0[i2 * nb + b2]) =~= nbrs0.subrange(
                        s,
                        s + deg0[i2 * nb + b2],
                    ));
                }
                assert forall|i2: int|
                    0 <= i2 < i implies #[trigger] wstart(ranges@, deg@, nb as int, i2, nb as int)
                    == ranges@[i2 + 1] by {
                    vstd::arithmetic::mul::lemma_mul_inequality(i2 + 1, i as int, nb as int);
                    assert((i2 + 1) * (nb as int) == i2 * (nb as int) + nb) by (nonlinear_arith);
                    lemma_sum_deg_agree(deg0, deg@, i2 * nb, nb as int);
                    assert(wstart(ranges@, deg0, nb as int, i2, nb as int) == ranges@[i2 + 1]);
                }
            }
            b += 1;
        }
        let end = nbrs.len();
        let ghost deg1 = deg@;
        let ghost nbrs1 = nbrs@;
        ranges.push(end);
        proof {
            let ii = i as int;
            assert(ranges@ == ranges0.push(end));
            assert(ranges@[ii + 1] == end);
            assert forall|i2: int| 0 <= i2 < i + 1 implies (#[trigger] ranges@[i2]) <= ranges@[i2
                + 1] by {
                if i2 < ii {
                    assert(ranges@[i2] == ranges0[i2] && ranges@[i2 + 1] == ranges0[i2 + 1]);
                } else {
                    lemma_sum_deg_nonneg(deg@, ii * nb, nb as int);
                }
            }
            assert forall|i2: int|
                0 <= i2 < i + 1 implies #[trigger] wstart(ranges@, deg@, nb as int, i2, nb as int)
                == ranges@[i2 + 1] by {
                if i2 < ii {
                    assert(ranges@[i2] == ranges0[i2] && ranges@[i2 + 1] == ranges0[i2 + 1]);
                    assert(wstart(ranges0, deg1, nb as int, i2, nb as int) == wstart(
                        ranges@,
                        deg@,
                        nb as int,
                        i2,
                        nb as int,
                    ));
                } else {
                    assert(wstart(ranges@, deg@, nb as int, ii, nb as int) == wstart(
                        ranges0,
                        deg1,
                        nb as int,
                        ii,
                        nb as int,
                    ));
                }
            }
            assert forall|i2: int, b2: int|
                (0 <= i2 < i + 1 && 0 <= b2 < nb) implies #[trigger] bucket_window_ok(
                g,
                bks@,
                nb as int,
                ranges@,
                deg@,
                nbrs@,
                i2,
                b2,
            ) by {
                assert(bucket_window_ok(g, bks@, nb as int, ranges0, deg1, nbrs1, i2, b2));
                assert(ranges@[i2] == ranges0[i2]);
                assert(wstart(ranges@, deg@, nb as int, i2, b2) == wstart(
                    ranges0,
                    deg1,
                    nb as int,
                    i2,
                    b2,
                ));
            }
            assert((i as int + 1) * (nb as int) == (i as int) * (nb as int) + nb) by (nonlinear_arith);
        }
        i += 1;
    }
    ViewIndex { ranges, deg, nbrs }
}

/// Every row offset of a consistent index lies within the flat array.
pub proof fn lemma_range_end_in_array(
    g: GraphV,
    bks: Seq<u8>,
    nb: int,
    ranges: Seq<usize>,
    deg: Seq<usize>,
    nbrs: Seq<u32>,
    i: int,
)
    requires
        view_index_ok(g, bks, nb, ranges, deg, nbrs),
        0 <= i <= g.nodes,
    ensures
        ranges[i] <= nbrs.len(),
    decreases g.nodes - i,
{
    if i < g.nodes {
        lemma_range_end_in_array(g, bks, nb, ranges, deg, nbrs, i + 1);
    }
}

} // verus!
