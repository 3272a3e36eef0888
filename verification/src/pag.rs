//! PAG view: all six edge classes over an acyclic directed sub-part, with
//! packed per-node neighborhoods giving O(1) slice queries. Buckets per
//! node: parents, undirected, children, bidirected, partial, partially
//! directed, partially undirected.

use std::sync::Arc;
use vstd::prelude::*;
use vstd::slice::slice_subrange;
use crate::acyclic::directed_part_is_acyclic;
use crate::admg::contains_id;
use crate::edges::EdgeClass;
use crate::errors::GraphError;
use crate::graph::{
    class_sel, lemma_class_cols_adj, lemma_no_self_reach, lemma_sel_cols_eq, trigger_k,
    CaugiGraph, GraphV,
};
use crate::order::{lemma_concat_contains, sort_asc};
use crate::pack::{
    bk_sel, bucket_cols, bucket_window_ok, pack_buckets, sum_deg, view_index_ok, wstart,
    ViewIndex,
};
use crate::traverse::reach_set;

verus! {

/// Bucket of an arc in a PAG row.
pub open spec fn pag_bucket(g: GraphV, k: int) -> u8 {
    match g.class_at(k) {
        EdgeClass::Directed => if g.entries[k].side == 1 {
            0
        } else {
            2
        },
        EdgeClass::Undirected => 1,
        EdgeClass::Bidirected => 3,
        EdgeClass::Partial => 4,
        EdgeClass::PartiallyDirected => 5,
        EdgeClass::PartiallyUndirected => 6,
    }
}

/// The bucket assignment of every arc.
pub open spec fn pag_bks(g: GraphV) -> Seq<u8> {
    Seq::new(g.entries.len(), |k: int| pag_bucket(g, k))
}

/// Membership in the Markov blanket of `i` in a PAG: parents, children,
/// co-parents of children other than `i`, and the neighbors of every
/// non-directed class.
pub open spec fn pag_in_blanket(g: GraphV, i: int, u: int) -> bool {
    ||| g.dir_adj(true, u, i)
    ||| g.dir_adj(false, u, i)
    ||| g.class_adj(EdgeClass::Undirected, u, i)
    ||| g.class_adj(EdgeClass::Bidirected, u, i)
    ||| g.class_adj(EdgeClass::Partial, u, i)
    ||| g.class_adj(EdgeClass::PartiallyDirected, u, i)
    ||| g.class_adj(EdgeClass::PartiallyUndirected, u, i)
    ||| (u != i && exists|c: int| #[trigger] g.dir_adj(false, c, i) && g.dir_adj(true, u, c))
}

/// The PAG bucket lists are the per-class neighbor lists.
proof fn lemma_pag_buckets(g: GraphV, i: int)
    requires
        g.wf(),
        0 <= i < g.nodes,
    ensures
        bucket_cols(g, pag_bks(g), i, 0) == g.parent_cols(i),
        bucket_cols(g, pag_bks(g), i, 1) == g.class_cols(i, EdgeClass::Undirected),
        bucket_cols(g, pag_bks(g), i, 2) == g.child_cols(i),
        bucket_cols(g, pag_bks(g), i, 3) == g.class_cols(i, EdgeClass::Bidirected),
        bucket_cols(g, pag_bks(g), i, 4) == g.class_cols(i, EdgeClass::Partial),
        bucket_cols(g, pag_bks(g), i, 5) == g.class_cols(i, EdgeClass::PartiallyDirected),
        bucket_cols(g, pag_bks(g), i, 6) == g.class_cols(i, EdgeClass::PartiallyUndirected),
{
    crate::graph::lemma_ranges_monotone(g, i + 1, g.nodes as int);
    assert forall|k: int| g.in_row(i, #[trigger] trigger_k(k)) implies bk_sel(pag_bks(g), 0)(g, k)
        == crate::graph::parent_sel()(g, k) && bk_sel(pag_bks(g), 1)(g, k) == class_sel(
        EdgeClass::Undirected,
    )(g, k) && bk_sel(pag_bks(g), 2)(g, k) == crate::graph::child_sel()(g, k) && bk_sel(
        pag_bks(g),
        3,
    )(g, k) == class_sel(EdgeClass::Bidirected)(g, k) && bk_sel(pag_bks(g), 4)(g, k) == class_sel(
        EdgeClass::Partial,
    )(g, k) && bk_sel(pag_bks(g), 5)(g, k) == class_sel(EdgeClass::PartiallyDirected)(g, k)
        && bk_sel(pag_bks(g), 6)(g, k) == class_sel(EdgeClass::PartiallyUndirected)(g, k) by {
        assert(0 <= k < g.entries.len());
        assert(pag_bks(g)[k] == pag_bucket(g, k));
    }
    lemma_sel_cols_eq(g, i, bk_sel(pag_bks(g), 0), crate::graph::parent_sel(), g.row_len(i));
    lemma_sel_cols_eq(g, i, bk_sel(pag_bks(g), 1), class_sel(EdgeClass::Undirected), g.row_len(i));
    lemma_sel_cols_eq(g, i, bk_sel(pag_bks(g), 2), crate::graph::child_sel(), g.row_len(i));
    lemma_sel_cols_eq(g, i, bk_sel(pag_bks(g), 3), class_sel(EdgeClass::Bidirected), g.row_len(i));
    lemma_sel_cols_eq(g, i, bk_sel(pag_bks(g), 4), class_sel(EdgeClass::Partial), g.row_len(i));
    lemma_sel_cols_eq(
        g,
        i,
        bk_sel(pag_bks(g), 5),
        class_sel(EdgeClass::PartiallyDirected),
        g.row_len(i),
    );
    lemma_sel_cols_eq(
        g,
        i,
        bk_sel(pag_bks(g), 6),
        class_sel(EdgeClass::PartiallyUndirected),
        g.row_len(i),
    );
}

/// The eight membership tests decide PAG Markov-blanket membership.
proof fn lemma_pag_blanket_test(
    g: GraphV,
    i: int,
    v: u32,
    ch_s: Seq<u32>,
    inp: bool,
    inc: bool,
    inu: bool,
    inb: bool,
    inpa: bool,
    inpd: bool,
    inpu: bool,
    cop: bool,
)
    requires
        g.wf(),
        0 <= i < g.nodes,
        (v as int) < g.nodes,
        ch_s == sort_asc(g.child_cols(i)),
        inp == g.dir_adj(true, v as int, i),
        inc == g.dir_adj(false, v as int, i),
        inu == g.class_adj(EdgeClass::Undirected, v as int, i),
        inb == g.class_adj(EdgeClass::Bidirected, v as int, i),
        inpa == g.class_adj(EdgeClass::Partial, v as int, i),
        inpd == g.class_adj(EdgeClass::PartiallyDirected, v as int, i),
        inpu == g.class_adj(EdgeClass::PartiallyUndirected, v as int, i),
        cop <==> exists|jx: int|
            0 <= jx < ch_s.len() && g.dir_adj(true, v as int, (#[trigger] ch_s[jx]) as int),
    ensures
        (inp || inc || inu || inb || inpa || inpd || inpu || (v as int != i && cop))
            == pag_in_blanket(g, i, v as int),
{
    crate::order::lemma_sort_asc_ensures(g.child_cols(i));
    crate::graph::lemma_parent_child_cols_adj(g, i);
    if v as int != i && cop {
        let jx = choose|jx: int|
            0 <= jx < ch_s.len() && g.dir_adj(true, v as int, (#[trigger] ch_s[jx]) as int);
        assert(ch_s.contains(ch_s[jx]));
        assert(g.child_cols(i).contains(ch_s[jx]));
        assert(g.dir_adj(false, (ch_s[jx]) as int, i));
        assert(pag_in_blanket(g, i, v as int));
    }
    if pag_in_blanket(g, i, v as int) && !(inp || inc || inu || inb || inpa || inpd || inpu) {
        assert(v as int != i);
        let c = choose|c: int| #[trigger] g.dir_adj(false, c, i) && g.dir_adj(true, v as int, c);
        crate::graph::lemma_dir_adj_in_range(g, false, c, i);
        assert(g.dir_adj(false, (c as u32) as int, i));
        assert(g.child_cols(i).contains(c as u32));
        assert(ch_s.contains(c as u32));
        let jx = choose|jx: int| 0 <= jx < ch_s.len() && ch_s[jx] == c as u32;
        assert(g.dir_adj(true, v as int, (ch_s[jx]) as int));
        assert(cop);
    }
}

/// At every node of a PAG, the seven buckets taken together as a set are
/// exactly the node's neighbor set: packing loses no neighbor and invents
/// none. `neighbors_of` returns the concatenation on the left; `all_cols`
/// lists the raw row.
#[verifier::rlimit(100)]
pub proof fn lemma_pag_bucket_union(g: GraphV, i: int)
    requires
        g.wf(),
        0 <= i < g.nodes,
    ensures
        (sort_asc(g.parent_cols(i)) + sort_asc(g.class_cols(i, EdgeClass::Undirected)) + sort_asc(
            g.child_cols(i),
        ) + sort_asc(g.class_cols(i, EdgeClass::Bidirected)) + sort_asc(
            g.class_cols(i, EdgeClass::Partial),
        ) + sort_asc(g.class_cols(i, EdgeClass::PartiallyDirected)) + sort_asc(
            g.class_cols(i, EdgeClass::PartiallyUndirected),
        )).to_set() == g.all_cols(i).to_set(),
{
    let s1 = sort_asc(g.parent_cols(i));
    let s2 = sort_asc(g.class_cols(i, EdgeClass::Undirected));
    let s3 = sort_asc(g.child_cols(i));
    let s4 = sort_asc(g.class_cols(i, EdgeClass::Bidirected));
    let s5 = sort_asc(g.class_cols(i, EdgeClass::Partial));
    let s6 = sort_asc(g.class_cols(i, EdgeClass::PartiallyDirected));
    let s7 = sort_asc(g.class_cols(i, EdgeClass::PartiallyUndirected));
    let cat = s1 + s2 + s3 + s4 + s5 + s6 + s7;
    crate::graph::lemma_ranges_monotone(g, i + 1, g.nodes as int);
    crate::order::lemma_sort_asc_ensures(g.parent_cols(i));
    crate::order::lemma_sort_asc_ensures(g.class_cols(i, EdgeClass::Undirected));
    crate::order::lemma_sort_asc_ensures(g.child_cols(i));
    crate::order::lemma_sort_asc_ensures(g.class_cols(i, EdgeClass::Bidirected));
    crate::order::lemma_sort_asc_ensures(g.class_cols(i, EdgeClass::Partial));
    crate::order::lemma_sort_asc_ensures(g.class_cols(i, EdgeClass::PartiallyDirected));
    crate::order::lemma_sort_asc_ensures(g.class_cols(i, EdgeClass::PartiallyUndirected));
    assert forall|x: u32| cat.contains(x) <==> g.all_cols(i).contains(x) by {
        lemma_concat_contains(s1 + s2 + s3 + s4 + s5 + s6, s7, x);
        lemma_concat_contains(s1 + s2 + s3 + s4 + s5, s6, x);
        lemma_concat_contains(s1 + s2 + s3 + s4, s5, x);
        lemma_concat_contains(s1 + s2 + s3, s4, x);
        lemma_concat_contains(s1 + s2, s3, x);
        lemma_concat_contains(s1, s2, x);
        crate::graph::lemma_sel_cols_contains(g, i, crate::graph::parent_sel(), x);
        crate::graph::lemma_sel_cols_contains(g, i, class_sel(EdgeClass::Undirected), x);
        crate::graph::lemma_sel_cols_contains(g, i, crate::graph::child_sel(), x);
        crate::graph::lemma_sel_cols_contains(g, i, class_sel(EdgeClass::Bidirected), x);
        crate::graph::lemma_sel_cols_contains(g, i, class_sel(EdgeClass::Partial), x);
        crate::graph::lemma_sel_cols_contains(g, i, class_sel(EdgeClass::PartiallyDirected), x);
        crate::graph::lemma_sel_cols_contains(g, i, class_sel(EdgeClass::PartiallyUndirected), x);
        crate::graph::lemma_sel_cols_contains(g, i, crate::graph::all_sel(), x);
        if g.all_cols(i).contains(x) {
            let k = choose|k: int|
                g.in_row(i, #[trigger] trigger_k(k)) && crate::graph::all_sel()(g, k)
                    && g.entries[k].col == x;
            assert(0 <= k < g.entries.len());
            if g.class_at(k) == EdgeClass::Directed {
                assert(g.entries[k].side == 0 || g.entries[k].side == 1);
                if g.entries[k].side == 1 {
                    assert(crate::graph::parent_sel()(g, k));
                    assert(g.parent_cols(i).contains(x));
                } else {
                    assert(crate::graph::child_sel()(g, k));
                    assert(g.child_cols(i).contains(x));
                }
            } else {
                let c = g.class_at(k);
                assert(class_sel(c)(g, k));
                assert(g.class_cols(i, c).contains(x));
                assert(c == EdgeClass::Undirected || c == EdgeClass::Bidirected || c
                    == EdgeClass::Partial || c == EdgeClass::PartiallyDirected || c
                    == EdgeClass::PartiallyUndirected);
            }
        }
        if g.parent_cols(i).contains(x) {
            let k = choose|k: int|
                g.in_row(i, #[trigger] trigger_k(k)) && crate::graph::parent_sel()(g, k)
                    && g.entries[k].col == x;
            assert(crate::graph::all_sel()(g, k));
        }
        if g.child_cols(i).contains(x) {
            let k = choose|k: int|
                g.in_row(i, #[trigger] trigger_k(k)) && crate::graph::child_sel()(g, k)
                    && g.entries[k].col == x;
            assert(crate::graph::all_sel()(g, k));
        }
        if g.class_cols(i, EdgeClass::Undirected).contains(x) {
            let k = choose|k: int|
                g.in_row(i, #[trigger] trigger_k(k)) && class_sel(EdgeClass::Undirected)(g, k)
                    && g.entries[k].col == x;
            assert(crate::graph::all_sel()(g, k));
        }
        if g.class_cols(i, EdgeClass::Bidirected).contains(x) {
            let k = choose|k: int|
                g.in_row(i, #[trigger] trigger_k(k)) && class_sel(EdgeClass::Bidirected)(g, k)
                    && g.entries[k].col == x;
            assert(crate::graph::all_sel()(g, k));
        }
        if g.class_cols(i, EdgeClass::Partial).contains(x) {
            let k = choose|k: int|
                g.in_row(i, #[trigger] trigger_k(k)) && class_sel(EdgeClass::Partial)(g, k)
                    && g.entries[k].col == x;
            assert(crate::graph::all_sel()(g, k));
        }
        if g.class_cols(i, EdgeClass::PartiallyDirected).contains(x) {
            let k = choose|k: int|
                g.in_row(i, #[trigger] trigger_k(k)) && class_sel(EdgeClass::PartiallyDirected)(
                    g,
                    k,
                ) && g.entries[k].col == x;
            assert(crate::graph::all_sel()(g, k));
        }
        if g.class_cols(i, EdgeClass::PartiallyUndirected).contains(x) {
            let k = choose|k: int|
                g.in_row(i, #[trigger] trigger_k(k)) && class_sel(EdgeClass::PartiallyUndirected)(
                    g,
                    k,
                ) && g.entries[k].col == x;
            assert(crate::graph::all_sel()(g, k));
        }
    }
    assert(cat.to_set() =~= g.all_cols(i).to_set());
}

/// The whole-row window splits into the seven bucket windows, in bucket
/// order, each sorted ascending.
#[verifier::rlimit(100)]
proof fn lemma_pag_neighbors_concat(
    g: GraphV,
    ranges: Seq<usize>,
    deg: Seq<usize>,
    nbrs: Seq<u32>,
    i: int,
    w0: int,
    w1: int,
    w2: int,
    w3: int,
    w4: int,
    w5: int,
    w6: int,
    w7: int,
)
    requires
        g.wf(),
        0 <= i < g.nodes,
        view_index_ok(g, pag_bks(g), 7, ranges, deg, nbrs),
        w0 == wstart(ranges, deg, 7, i, 0),
        w1 == wstart(ranges, deg, 7, i, 1),
        w2 == wstart(ranges, deg, 7, i, 2),
        w3 == wstart(ranges, deg, 7, i, 3),
        w4 == wstart(ranges, deg, 7, i, 4),
        w5 == wstart(ranges, deg, 7, i, 5),
        w6 == wstart(ranges, deg, 7, i, 6),
        w7 == wstart(ranges, deg, 7, i, 7),
    ensures
        0 <= w0 <= w1 <= w2 <= w3 <= w4 <= w5 <= w6 <= w7 <= nbrs.len(),
        nbrs.subrange(w0, w7) == sort_asc(g.parent_cols(i)) + sort_asc(
            g.class_cols(i, EdgeClass::Undirected),
        ) + sort_asc(g.child_cols(i)) + sort_asc(g.class_cols(i, EdgeClass::Bidirected))
            + sort_asc(g.class_cols(i, EdgeClass::Partial)) + sort_asc(
            g.class_cols(i, EdgeClass::PartiallyDirected),
        ) + sort_asc(g.class_cols(i, EdgeClass::PartiallyUndirected)),
{
    lemma_pag_buckets(g, i);
    assert(bucket_window_ok(g, pag_bks(g), 7, ranges, deg, nbrs, i, 0));
    assert(bucket_window_ok(g, pag_bks(g), 7, ranges, deg, nbrs, i, 1));
    assert(bucket_window_ok(g, pag_bks(g), 7, ranges, deg, nbrs, i, 2));
    assert(bucket_window_ok(g, pag_bks(g), 7, ranges, deg, nbrs, i, 3));
    assert(bucket_window_ok(g, pag_bks(g), 7, ranges, deg, nbrs, i, 4));
    assert(bucket_window_ok(g, pag_bks(g), 7, ranges, deg, nbrs, i, 5));
    assert(bucket_window_ok(g, pag_bks(g), 7, ranges, deg, nbrs, i, 6));
    let ii7 = i * 7;
    assert(sum_deg(deg, ii7, 0) == 0);
    assert(sum_deg(deg, ii7, 1) == sum_deg(deg, ii7, 0) + deg[ii7]);
    assert(sum_deg(deg, ii7, 2) == sum_deg(deg, ii7, 1) + deg[ii7 + 1]);
    assert(sum_deg(deg, ii7, 3) == sum_deg(deg, ii7, 2) + deg[ii7 + 2]);
    assert(sum_deg(deg, ii7, 4) == sum_deg(deg, ii7, 3) + deg[ii7 + 3]);
    assert(sum_deg(deg, ii7, 5) == sum_deg(deg, ii7, 4) + deg[ii7 + 4]);
    assert(sum_deg(deg, ii7, 6) == sum_deg(deg, ii7, 5) + deg[ii7 + 5]);
    assert(sum_deg(deg, ii7, 7) == sum_deg(deg, ii7, 6) + deg[ii7 + 6]);
    assert(nbrs.subrange(w0, w1) == sort_asc(g.parent_cols(i)));
    assert(nbrs.subrange(w1, w2) == sort_asc(g.class_cols(i, EdgeClass::Undirected)));
    assert(nbrs.subrange(w2, w3) == sort_asc(g.child_cols(i)));
    assert(nbrs.subrange(w3, w4) == sort_asc(g.class_cols(i, EdgeClass::Bidirected)));
    assert(nbrs.subrange(w4, w5) == sort_asc(g.class_cols(i, EdgeClass::Partial)));
    assert(nbrs.subrange(w5, w6) == sort_asc(g.class_cols(i, EdgeClass::PartiallyDirected)));
    assert(nbrs.subrange(w6, w7) == sort_asc(g.class_cols(i, EdgeClass::PartiallyUndirected)));
    crate::pack::lemma_range_end_in_array(g, pag_bks(g), 7, ranges, deg, nbrs, i + 1);
    assert(nbrs.subrange(w0, w7) =~= nbrs.subrange(w0, w1) + nbrs.subrange(w1, w2)
        + nbrs.subrange(w2, w3) + nbrs.subrange(w3, w4) + nbrs.subrange(w4, w5) + nbrs.subrange(
        w5,
        w6,
    ) + nbrs.subrange(w6, w7));
}

/// Partial ancestral graph: a validated wrapper around a shared core that
/// accepts all six edge classes over an acyclic directed sub-part.
#[derive(Debug)]
pub struct Pag {
    core: Arc<CaugiGraph>,
    idx: ViewIndex,
}

impl View for Pag {
    type V = GraphV;

    closed spec fn view(&self) -> GraphV {
        self.core@
    }
}

impl Pag {
    /// The view is validated and its packed index describes its core.
    pub closed spec fn wf(self) -> bool {
        &&& self.core@.wf()
        &&& self.core@.directed_acyclic()
        &&& view_index_ok(
            self.core@,
            pag_bks(self.core@),
            7,
            self.idx.ranges@,
            self.idx.deg@,
            self.idx.nbrs@,
        )
    }

    /// Validates the core as a PAG and packs its neighborhoods. All six edge
    /// classes are accepted; only a directed cycle is rejected.
    #[verifier::rlimit(100)]
    pub fn new(core: Arc<CaugiGraph>) -> (r: Result<Pag, GraphError>)
        requires
            core@.wf(),
        ensures
            match r {
                Ok(v) => {
                    &&& v.wf()
                    &&& v@ == core@
                    &&& core@.directed_acyclic()
                },
                Err(e) => {
                    &&& !core@.directed_acyclic()
                    &&& e == GraphError::DirectedCycle
                },
            },
    {
        let cg: &CaugiGraph = &core;
        if !directed_part_is_acyclic(cg) {
            return Err(GraphError::DirectedCycle);
        }
        let ghost g = core@;
        let m = cg.entries.len();
        let mut bks: Vec<u8> = Vec::new();
        let mut k: usize = 0;
        while k < m
            invariant
                g == core@,
                g == cg@,
                g.wf(),
                m == g.entries.len(),
                0 <= k <= m,
                bks@.len() == k,
                forall|k2: int| 0 <= k2 < k ==> (#[trigger] bks@[k2]) == pag_bucket(g, k2),
            decreases m - k,
        {
            let c = cg.arc_class(k);
            let e = cg.entry(k);
            let b: u8 = match c {
                EdgeClass::Directed => if e.side == 1 {
                    0
                } else {
                    2
                },
                EdgeClass::Undirected => 1,
                EdgeClass::Bidirected => 3,
                EdgeClass::Partial => 4,
                EdgeClass::PartiallyDirected => 5,
                EdgeClass::PartiallyUndirected => 6,
            };
            bks.push(b);
            k += 1;
        }
        proof {
            assert(bks@ =~= pag_bks(g));
        }
        let idx = pack_buckets(cg, &bks, 7);
        Ok(Pag { core, idx })
    }

    /// Number of nodes.
    pub fn n(&self) -> (r: u32)
        ensures
            r == self@.nodes,
    {
        let cg: &CaugiGraph = &self.core;
        cg.n()
    }

    /// The eight window boundaries of node `i`'s row, in bucket order.
    #[verifier::rlimit(100)]
    fn bounds(&self, i: u32) -> (r: (usize, usize, usize, usize, usize, usize, usize, usize))
        requires
            self.wf(),
            (i as int) < self@.nodes,
        ensures
            r.0 == wstart(self.idx.ranges@, self.idx.deg@, 7, i as int, 0),
            r.1 == wstart(self.idx.ranges@, self.idx.deg@, 7, i as int, 1),
            r.2 == wstart(self.idx.ranges@, self.idx.deg@, 7, i as int, 2),
            r.3 == wstart(self.idx.ranges@, self.idx.deg@, 7, i as int, 3),
            r.4 == wstart(self.idx.ranges@, self.idx.deg@, 7, i as int, 4),
            r.5 == wstart(self.idx.ranges@, self.idx.deg@, 7, i as int, 5),
            r.6 == wstart(self.idx.ranges@, self.idx.deg@, 7, i as int, 6),
            r.7 == wstart(self.idx.ranges@, self.idx.deg@, 7, i as int, 7),
            r.0 <= r.1 <= r.2 <= r.3 <= r.4 <= r.5 <= r.6 <= r.7 <= self.idx.nbrs@.len(),
            r.7 == self.idx.ranges@[i as int + 1],
    {
        proof {
            let gg = self.core@;
            let bb = pag_bks(self.core@);
            assert forall|b: int| 0 <= b < 7 implies #[trigger] bucket_window_ok(
                gg,
                bb,
                7,
                self.idx.ranges@,
                self.idx.deg@,
                self.idx.nbrs@,
                i as int,
                b,
            ) by {}
            crate::pack::lemma_range_end_in_array(
                gg,
                bb,
                7,
                self.idx.ranges@,
                self.idx.deg@,
                self.idx.nbrs@,
                i as int + 1,
            );
        }
        let dlen = self.idx.deg.len();
        proof {
            assert(self.idx.deg@.len() == self.core@.nodes * 7);
            assert((i as int) + 1 <= self.core@.nodes);
            assert(7 * (i as int) + 7 <= self.core@.nodes * 7);
            assert(7 * (i as int) + 6 < dlen);
        }
        let ii = i as usize;
        let s = self.idx.ranges[ii];
        let d0 = self.idx.deg[7 * ii];
        let d1 = self.idx.deg[7 * ii + 1];
        let d2 = self.idx.deg[7 * ii + 2];
        let d3 = self.idx.deg[7 * ii + 3];
        let d4 = self.idx.deg[7 * ii + 4];
        let d5 = self.idx.deg[7 * ii + 5];
        let d6 = self.idx.deg[7 * ii + 6];
        let e = self.idx.ranges[ii + 1];
        proof {
            assert(sum_deg(self.idx.deg@, 7 * (i as int), 0) == 0);
            assert(sum_deg(self.idx.deg@, 7 * (i as int), 1) == d0);
            assert(sum_deg(self.idx.deg@, 7 * (i as int), 2) == d0 + d1);
            assert(sum_deg(self.idx.deg@, 7 * (i as int), 3) == d0 + d1 + d2);
            assert(sum_deg(self.idx.deg@, 7 * (i as int), 4) == d0 + d1 + d2 + d3);
            assert(sum_deg(self.idx.deg@, 7 * (i as int), 5) == d0 + d1 + d2 + d3 + d4);
            assert(sum_deg(self.idx.deg@, 7 * (i as int), 6) == d0 + d1 + d2 + d3 + d4 + d5);
            assert(sum_deg(self.idx.deg@, 7 * (i as int), 7) == d0 + d1 + d2 + d3 + d4 + d5 + d6);
            assert((i as int) * 7 == 7 * (i as int));
            assert(wstart(self.idx.ranges@, self.idx.deg@, 7, i as int, 7) == self.idx.ranges@[
                i as int + 1]);
        }
        (
            s,
            s + d0,
            s + d0 + d1,
            s + d0 + d1 + d2,
            s + d0 + d1 + d2 + d3,
            s + d0 + d1 + d2 + d3 + d4,
            s + d0 + d1 + d2 + d3 + d4 + d5,
            e,
        )
    }

    /// One bucket window as a slice.
    #[verifier::rlimit(100)]
    fn window(&self, i: u32, lo: usize, hi: usize, b: int) -> (r: &[u32])
        requires
            self.wf(),
            (i as int) < self@.nodes,
            0 <= b < 7,
            lo == wstart(self.idx.ranges@, self.idx.deg@, 7, i as int, b),
            hi == lo + self.idx.deg@[(i as int) * 7 + b],
        ensures
            r@ == sort_asc(bucket_cols(self@, pag_bks(self@), i as int, b)),
    {
        proof {
            assert(bucket_window_ok(
                self.core@,
                pag_bks(self.core@),
                7,
                self.idx.ranges@,
                self.idx.deg@,
                self.idx.nbrs@,
                i as int,
                b,
            ));
        }
        slice_subrange(self.idx.nbrs.as_slice(), lo, hi)
    }

    /// Directed parents of `i`, ascending.
    #[verifier::rlimit(100)]
    pub fn parents_of(&self, i: u32) -> (r: &[u32])
        requires
            self.wf(),
            (i as int) < self@.nodes,
        ensures
            r@ == sort_asc(self@.parent_cols(i as int)),
    {
        let (s, pm, _, _, _, _, _, _) = self.bounds(i);
        proof {
            lemma_pag_buckets(self.core@, i as int);
            assert(bucket_window_ok(
                self.core@,
                pag_bks(self.core@),
                7,
                self.idx.ranges@,
                self.idx.deg@,
                self.idx.nbrs@,
                i as int,
                0,
            ));
        }
        slice_subrange(self.idx.nbrs.as_slice(), s, pm)
    }

    /// Undirected neighbors of `i`, ascending.
    #[verifier::rlimit(100)]
    pub fn undirected_of(&self, i: u32) -> (r: &[u32])
        requires
            self.wf(),
            (i as int) < self@.nodes,
        ensures
            r@ == sort_asc(self@.class_cols(i as int, EdgeClass::Undirected)),
    {
        let (_, pm, um, _, _, _, _, _) = self.bounds(i);
        proof {
            lemma_pag_buckets(self.core@, i as int);
            assert(bucket_window_ok(
                self.core@,
                pag_bks(self.core@),
                7,
                self.idx.ranges@,
                self.idx.deg@,
                self.idx.nbrs@,
                i as int,
                1,
            ));
        }
        slice_subrange(self.idx.nbrs.as_slice(), pm, um)
    }

    /// Directed children of `i`, ascending.
    #[verifier::rlimit(100)]
    pub fn children_of(&self, i: u32) -> (r: &[u32])
        requires
            self.wf(),
            (i as int) < self@.nodes,
        ensures
            r@ == sort_asc(self@.child_cols(i as int)),
    {
        let (_, _, um, cm, _, _, _, _) = self.bounds(i);
        proof {
            lemma_pag_buckets(self.core@, i as int);
            assert(bucket_window_ok(
                self.core@,
                pag_bks(self.core@),
                7,
                self.idx.ranges@,
                self.idx.deg@,
                self.idx.nbrs@,
                i as int,
                2,
            ));
        }
        slice_subrange(self.idx.nbrs.as_slice(), um, cm)
    }

    /// Bidirected neighbors of `i`, ascending.
    #[verifier::rlimit(100)]
    pub fn bidirected_of(&self, i: u32) -> (r: &[u32])
        requires
            self.wf(),
            (i as int) < self@.nodes,
        ensures
            r@ == sort_asc(self@.class_cols(i as int, EdgeClass::Bidirected)),
    {
        let (_, _, _, cm, bim, _, _, _) = self.bounds(i);
        proof {
            lemma_pag_buckets(self.core@, i as int);
            assert(bucket_window_ok(
                self.core@,
                pag_bks(self.core@),
                7,
                self.idx.ranges@,
                self.idx.deg@,
                self.idx.nbrs@,
                i as int,
                3,
            ));
        }
        slice_subrange(self.idx.nbrs.as_slice(), cm, bim)
    }

    /// Partial (circle-arrow) neighbors of `i`, ascending.
    #[verifier::rlimit(100)]
    pub fn partial_of(&self, i: u32) -> (r: &[u32])
        requires
            self.wf(),
            (i as int) < self@.nodes,
        ensures
            r@ == sort_asc(self@.class_cols(i as int, EdgeClass::Partial)),
    {
        let (_, _, _, _, bim, pm2, _, _) = self.bounds(i);
        proof {
            lemma_pag_buckets(self.core@, i as int);
            assert(bucket_window_ok(
                self.core@,
                pag_bks(self.core@),
                7,
                self.idx.ranges@,
                self.idx.deg@,
                self.idx.nbrs@,
                i as int,
                4,
            ));
        }
        slice_subrange(self.idx.nbrs.as_slice(), bim, pm2)
    }

    /// Partially directed neighbors of `i`, ascending.
    #[verifier::rlimit(100)]
    pub fn partially_directed_of(&self, i: u32) -> (r: &[u32])
        requires
            self.wf(),
            (i as int) < self@.nodes,
        ensures
            r@ == sort_asc(self@.class_cols(i as int, EdgeClass::PartiallyDirected)),
    {
        let (_, _, _, _, _, pm2, pdm, _) = self.bounds(i);
        proof {
            lemma_pag_buckets(self.core@, i as int);
            assert(bucket_window_ok(
                self.core@,
                pag_bks(self.core@),
                7,
                self.idx.ranges@,
                self.idx.deg@,
                self.idx.nbrs@,
                i as int,
                5,
            ));
        }
        slice_subrange(self.idx.nbrs.as_slice(), pm2, pdm)
    }

    /// Partially undirected neighbors of `i`, ascending.
    #[verifier::rlimit(100)]
    pub fn partially_undirected_of(&self, i: u32) -> (r: &[u32])
        requires
            self.wf(),
            (i as int) < self@.nodes,
        ensures
            r@ == sort_asc(self@.class_cols(i as int, EdgeClass::PartiallyUndirected)),
    {
        let (_, _, _, _, _, _, pdm, e) = self.bounds(i);
        proof {
            lemma_pag_buckets(self.core@, i as int);
            assert(bucket_window_ok(
                self.core@,
                pag_bks(self.core@),
                7,
                self.idx.ranges@,
                self.idx.deg@,
                self.idx.nbrs@,
                i as int,
                6,
            ));
        }
        slice_subrange(self.idx.nbrs.as_slice(), pdm, e)
    }

    /// All neighbors of `i`, the seven buckets in order, each ascending.
    pub fn neighbors_of(&self, i: u32) -> (r: &[u32])
        requires
            self.wf(),
            (i as int) < self@.nodes,
        ensures
            r@ == sort_asc(self@.parent_cols(i as int)) + sort_asc(
                self@.class_cols(i as int, EdgeClass::Undirected),
            ) + sort_asc(self@.child_cols(i as int)) + sort_asc(
                self@.class_cols(i as int, EdgeClass::Bidirected),
            ) + sort_asc(self@.class_cols(i as int, EdgeClass::Partial)) + sort_asc(
                self@.class_cols(i as int, EdgeClass::PartiallyDirected),
            ) + sort_asc(self@.class_cols(i as int, EdgeClass::PartiallyUndirected)),
    {
        let (s, w1, w2, w3, w4, w5, w6, e) = self.bounds(i);
        proof {
            lemma_pag_neighbors_concat(
                self.core@,
                self.idx.ranges@,
                self.idx.deg@,
                self.idx.nbrs@,
                i as int,
                s as int,
                w1 as int,
                w2 as int,
                w3 as int,
                w4 as int,
                w5 as int,
                w6 as int,
                e as int,
            );
        }
        slice_subrange(self.idx.nbrs.as_slice(), s, e)
    }

    /// Proper ancestors of `i` over directed edges only, strictly ascending;
    /// never contains `i` itself.
    pub fn ancestors_of(&self, i: u32) -> (r: Vec<u32>)
        requires
            self.wf(),
            (i as int) < self@.nodes,
        ensures
            forall|a: int, b: int| 0 <= a < b < r@.len() ==> r@[a] < r@[b],
            forall|u: u32| r@.contains(u) <==> self@.dir_reaches(true, i as int, u as int),
            !r@.contains(i),
    {
        let cg: &CaugiGraph = &self.core;
        let r = reach_set(cg, i, true);
        proof {
            lemma_no_self_reach(self@, true, i as int);
        }
        r
    }

    /// Proper descendants of `i` over directed edges only, strictly
    /// ascending; never contains `i` itself.
    pub fn descendants_of(&self, i: u32) -> (r: Vec<u32>)
        requires
            self.wf(),
            (i as int) < self@.nodes,
        ensures
            forall|a: int, b: int| 0 <= a < b < r@.len() ==> r@[a] < r@[b],
            forall|u: u32| r@.contains(u) <==> self@.dir_reaches(false, i as int, u as int),
            !r@.contains(i),
    {
        let cg: &CaugiGraph = &self.core;
        let r = reach_set(cg, i, false);
        proof {
            lemma_no_self_reach(self@, false, i as int);
        }
        r
    }

    /// Markov blanket of `i`: parents, children, co-parents of each child
    /// excluding `i`, and every non-directed-class neighbor; strictly
    /// ascending.
    #[verifier::rlimit(100)]
    pub fn markov_blanket_of(&self, i: u32) -> (r: Vec<u32>)
        requires
            self.wf(),
            (i as int) < self@.nodes,
        ensures
            forall|a: int, b: int| 0 <= a < b < r@.len() ==> r@[a] < r@[b],
            forall|u: u32| r@.contains(u) <==> pag_in_blanket(self@, i as int, u as int),
    {
        let ghost g = self@;
        let n = self.n();
        let pa = self.parents_of(i);
        let ch = self.children_of(i);
        let ud = self.undirected_of(i);
        let bd = self.bidirected_of(i);
        let pt = self.partial_of(i);
        let pd = self.partially_directed_of(i);
        let pu = self.partially_undirected_of(i);
        let mut out: Vec<u32> = Vec::new();
        let mut v: u32 = 0;
        while v < n
            invariant
                g == self@,
                self.wf(),
                n == g.nodes,
                0 <= (i as int) < g.nodes,
                0 <= v <= n,
                pa@ == sort_asc(g.parent_cols(i as int)),
                ch@ == sort_asc(g.child_cols(i as int)),
                ud@ == sort_asc(g.class_cols(i as int, EdgeClass::Undirected)),
                bd@ == sort_asc(g.class_cols(i as int, EdgeClass::Bidirected)),
                pt@ == sort_asc(g.class_cols(i as int, EdgeClass::Partial)),
                pd@ == sort_asc(g.class_cols(i as int, EdgeClass::PartiallyDirected)),
                pu@ == sort_asc(g.class_cols(i as int, EdgeClass::PartiallyUndirected)),
                forall|j: int| 0 <= j < out@.len() ==> (#[trigger] out@[j]) < v,
                forall|a: int, b: int| 0 <= a < b < out@.len() ==> out@[a] < out@[b],
                forall|u: u32|
                    out@.contains(u) <==> (u < v && pag_in_blanket(g, i as int, u as int)),
            decreases n - v,
        {
            let inp = contains_id(pa, v);
            let inc = contains_id(ch, v);
            let inu = contains_id(ud, v);
            let inb = contains_id(bd, v);
            let inpa = contains_id(pt, v);
            let inpd = contains_id(pd, v);
            let inpu = contains_id(pu, v);
            let mut cop: bool = false;
            let mut cx: usize = 0;
            if v != i {
                while cx < ch.len()
                    invariant
                        g == self@,
                        self.wf(),
                        0 <= (i as int) < g.nodes,
                        (v as int) < g.nodes,
                        ch@ == sort_asc(g.child_cols(i as int)),
                        0 <= cx <= ch@.len(),
                        cop <==> exists|jx: int|
                            0 <= jx < cx && g.dir_adj(true, v as int, (#[trigger] ch@[jx]) as int),
                    decreases ch@.len() - cx,
                {
                    let c = ch[cx];
                    proof {
                        crate::order::lemma_sort_asc_ensures(g.child_cols(i as int));
                        crate::graph::lemma_parent_child_cols_adj(g, i as int);
                        assert(ch@[cx as int] == c);
                        assert(ch@.contains(c));
                        assert(g.child_cols(i as int).contains(c));
                        assert(g.dir_adj(false, c as int, i as int));
                        crate::graph::lemma_dir_adj_in_range(g, false, c as int, i as int);
                    }
                    let cpa = self.parents_of(c);
                    let here = contains_id(cpa, v);
                    proof {
                        crate::order::lemma_sort_asc_ensures(g.parent_cols(c as int));
                        crate::graph::lemma_parent_child_cols_adj(g, c as int);
                        if here {
                            assert(g.parent_cols(c as int).contains(v));
                            assert(g.dir_adj(true, v as int, (ch@[cx as int]) as int));
                        }
                    }
                    let ghost was = cop;
                    if here {
                        cop = true;
                    }
                    proof {
                        assert(cop <==> exists|jx: int|
                            0 <= jx < cx + 1 && g.dir_adj(
                                true,
                                v as int,
                                (#[trigger] ch@[jx]) as int,
                            )) by {
                            if cop {
                                if here {
                                    assert(g.dir_adj(true, v as int, (ch@[cx as int]) as int));
                                } else {
                                    let jx = choose|jx: int|
                                        0 <= jx < cx && g.dir_adj(
                                            true,
                                            v as int,
                                            (#[trigger] ch@[jx]) as int,
                                        );
                                    assert(g.dir_adj(true, v as int, (ch@[jx]) as int));
                                }
                            } else {
                                if exists|jx: int|
                                    0 <= jx < cx + 1 && g.dir_adj(
                                        true,
                                        v as int,
                                        (#[trigger] ch@[jx]) as int,
                                    ) {
                                    let jx = choose|jx: int|
                                        0 <= jx < cx + 1 && g.dir_adj(
                                            true,
                                            v as int,
                                            (#[trigger] ch@[jx]) as int,
                                        );
                                    if jx == cx as int {
                                        assert(g.parent_cols(c as int).contains(v));
                                        assert(cpa@.contains(v));
                                        assert(false);
                                    } else {
                                        assert(was);
                                        assert(false);
                                    }
                                }
                            }
                        }
                    }
                    cx += 1;
                }
            }
            let inmb = inp || inc || inu || inb || inpa || inpd || inpu || (v != i && cop);
            let ghost out0 = out@;
            if inmb {
                out.push(v);
            }
            proof {
                crate::order::lemma_sort_asc_ensures(g.parent_cols(i as int));
                crate::order::lemma_sort_asc_ensures(g.child_cols(i as int));
                crate::order::lemma_sort_asc_ensures(g.class_cols(i as int, EdgeClass::Undirected));
                crate::order::lemma_sort_asc_ensures(g.class_cols(i as int, EdgeClass::Bidirected));
                crate::order::lemma_sort_asc_ensures(g.class_cols(i as int, EdgeClass::Partial));
                crate::order::lemma_sort_asc_ensures(
                    g.class_cols(i as int, EdgeClass::PartiallyDirected),
                );
                crate::order::lemma_sort_asc_ensures(
                    g.class_cols(i as int, EdgeClass::PartiallyUndirected),
                );
                crate::graph::lemma_parent_child_cols_adj(g, i as int);
                lemma_class_cols_adj(g, i as int, EdgeClass::Undirected);
                lemma_class_cols_adj(g, i as int, EdgeClass::Bidirected);
                lemma_class_cols_adj(g, i as int, EdgeClass::Partial);
                lemma_class_cols_adj(g, i as int, EdgeClass::PartiallyDirected);
                lemma_class_cols_adj(g, i as int, EdgeClass::PartiallyUndirected);
                assert(sort_asc(g.parent_cols(i as int)).contains(v) <==> g.parent_cols(
                    i as int,
                ).contains(v));
                assert(g.parent_cols(i as int).contains(v) <==> g.dir_adj(
                    true,
                    v as int,
                    i as int,
                ));
                assert(inp == g.dir_adj(true, v as int, i as int));
                assert(sort_asc(g.child_cols(i as int)).contains(v) <==> g.child_cols(
                    i as int,
                ).contains(v));
                assert(g.child_cols(i as int).contains(v) <==> g.dir_adj(
                    false,
                    v as int,
                    i as int,
                ));
                assert(inc == g.dir_adj(false, v as int, i as int));
                assert(sort_asc(g.class_cols(i as int, EdgeClass::Undirected)).contains(v)
                    <==> g.class_cols(i as int, EdgeClass::Undirected).contains(v));
                assert(inu == g.class_adj(EdgeClass::Undirected, v as int, i as int));
                assert(sort_asc(g.class_cols(i as int, EdgeClass::Bidirected)).contains(v)
                    <==> g.class_cols(i as int, EdgeClass::Bidirected).contains(v));
                assert(inb == g.class_adj(EdgeClass::Bidirected, v as int, i as int));
                assert(sort_asc(g.class_cols(i as int, EdgeClass::Partial)).contains(v)
                    <==> g.class_cols(i as int, EdgeClass::Partial).contains(v));
                assert(inpa == g.class_adj(EdgeClass::Partial, v as int, i as int));
                assert(sort_asc(g.class_cols(i as int, EdgeClass::PartiallyDirected)).contains(v)
                    <==> g.class_cols(i as int, EdgeClass::PartiallyDirected).contains(v));
                assert(inpd == g.class_adj(EdgeClass::PartiallyDirected, v as int, i as int));
                assert(sort_asc(g.class_cols(i as int, EdgeClass::PartiallyUndirected)).contains(v)
                    <==> g.class_cols(i as int, EdgeClass::PartiallyUndirected).contains(v));
                assert(inpu == g.class_adj(EdgeClass::PartiallyUndirected, v as int, i as int));
                if v != i {
                    lemma_pag_blanket_test(
                        g,
                        i as int,
                        v,
                        ch@,
                        inp,
                        inc,
                        inu,
                        inb,
                        inpa,
                        inpd,
                        inpu,
                        cop,
                    );
                } else {
                    assert((v as int) == (i as int));
                }
                assert(inmb == pag_in_blanket(g, i as int, v as int));
                assert forall|u: u32|
                    out@.contains(u) <==> (u < v + 1 && pag_in_blanket(g, i as int, u as int))
                by {
                    if out@.contains(u) {
                        let j = choose|j: int| 0 <= j < out@.len() && out@[j] == u;
                        if j < out0.len() {
                            assert(out0[j] == u);
                            assert(out0.contains(u));
                        } else {
                            assert(u == v);
                        }
                    }
                    if out0.contains(u) {
                        let j = choose|j: int| 0 <= j < out0.len() && out0[j] == u;
                        assert(out@[j] == u);
                    }
                    if u == v && inmb {
                        assert(out@[out@.len() - 1] == u);
                    }
                }
            }
            v += 1;
        }
        proof {
            assert forall|u: u32| out@.contains(u) <==> pag_in_blanket(g, i as int, u as int) by {
                if pag_in_blanket(g, i as int, u as int) && !((u as int) < g.nodes) {
                    if g.dir_adj(true, u as int, i as int) {
                        crate::graph::lemma_dir_adj_in_range(g, true, u as int, i as int);
                    } else if g.dir_adj(false, u as int, i as int) {
                        crate::graph::lemma_dir_adj_in_range(g, false, u as int, i as int);
                    } else if g.class_adj(EdgeClass::Undirected, u as int, i as int) {
                        crate::graph::lemma_class_adj_in_range(
                            g,
                            EdgeClass::Undirected,
                            u as int,
                            i as int,
                        );
                    } else if g.class_adj(EdgeClass::Bidirected, u as int, i as int) {
                        crate::graph::lemma_class_adj_in_range(
                            g,
                            EdgeClass::Bidirected,
                            u as int,
                            i as int,
                        );
                    } else if g.class_adj(EdgeClass::Partial, u as int, i as int) {
                        crate::graph::lemma_class_adj_in_range(
                            g,
                            EdgeClass::Partial,
                            u as int,
                            i as int,
                        );
                    } else if g.class_adj(EdgeClass::PartiallyDirected, u as int, i as int) {
                        crate::graph::lemma_class_adj_in_range(
                            g,
                            EdgeClass::PartiallyDirected,
                            u as int,
                            i as int,
                        );
                    } else if g.class_adj(EdgeClass::PartiallyUndirected, u as int, i as int) {
                        crate::graph::lemma_class_adj_in_range(
                            g,
                            EdgeClass::PartiallyUndirected,
                            u as int,
                            i as int,
                        );
                    } else {
                        let c = choose|c: int|
                            #[trigger] g.dir_adj(false, c, i as int) && g.dir_adj(
                                true,
                                u as int,
                                c,
                            );
                        crate::graph::lemma_dir_adj_in_range(g, true, u as int, c);
                    }
                }
            }
        }
        out
    }

    /// Nodes with no directed parent; with the flag set, nodes with an
    /// undirected neighbor are excluded as well, since an undirected edge
    /// signals unresolved possible parentage. Ascending.
    #[verifier::rlimit(100)]
    pub fn exogenous_nodes(&self, undirected_as_parents: bool) -> (r: Vec<u32>)
        requires
            self.wf(),
        ensures
            forall|a: int, b: int| 0 <= a < b < r@.len() ==> r@[a] < r@[b],
            forall|u: u32|
                r@.contains(u) <==> ((u as int) < self@.nodes && !(exists|p: int|
                    self@.dir_adj(true, p, u as int)) && (undirected_as_parents ==> !(exists|
                    p: int,
                |
                    self@.class_adj(EdgeClass::Undirected, p, u as int)))),
    {
        let ghost g = self@;
        let n = self.n();
        let mut out: Vec<u32> = Vec::new();
        let mut v: u32 = 0;
        while v < n
            invariant
                g == self@,
                self.wf(),
                n == g.nodes,
                0 <= v <= n,
                forall|a: int, b: int| 0 <= a < b < out@.len() ==> out@[a] < out@[b],
                forall|j: int| 0 <= j < out@.len() ==> (#[trigger] out@[j]) < v,
                forall|u: u32|
                    out@.contains(u) <==> ((u as int) < v && !(exists|p: int|
                        g.dir_adj(true, p, u as int)) && (undirected_as_parents ==> !(exists|
                        p: int,
                    |
                        g.class_adj(EdgeClass::Undirected, p, u as int)))),
            decreases n - v,
        {
            let pa = self.parents_of(v);
            let ud = self.undirected_of(v);
            let ghost out0 = out@;
            let keep = pa.len() == 0 && (!undirected_as_parents || ud.len() == 0);
            if keep {
                out.push(v);
            }
            proof {
                crate::order::lemma_sort_asc_ensures(g.parent_cols(v as int));
                crate::order::lemma_sort_asc_ensures(g.class_cols(v as int, EdgeClass::Undirected));
                crate::graph::lemma_parent_child_cols_adj(g, v as int);
                lemma_class_cols_adj(g, v as int, EdgeClass::Undirected);
                assert(keep == (!(exists|p: int| g.dir_adj(true, p, v as int)) && (
                undirected_as_parents ==> !(exists|p: int|
                    g.class_adj(EdgeClass::Undirected, p, v as int))))) by {
                    if pa.len() == 0 {
                        assert(!exists|p: int| g.dir_adj(true, p, v as int)) by {
                            if exists|p: int| g.dir_adj(true, p, v as int) {
                                let p = choose|p: int| g.dir_adj(true, p, v as int);
                                crate::graph::lemma_dir_adj_in_range(g, true, p, v as int);
                                assert(g.dir_adj(true, (p as u32) as int, v as int));
                                assert(g.parent_cols(v as int).contains(p as u32));
                                assert(pa@.contains(p as u32));
                                assert(false);
                            }
                        }
                    } else {
                        assert(pa@.contains(pa@[0]));
                        assert(g.parent_cols(v as int).contains(pa@[0]));
                        assert(g.dir_adj(true, (pa@[0]) as int, v as int));
                    }
                    if ud.len() == 0 {
                        assert(!exists|p: int| g.class_adj(EdgeClass::Undirected, p, v as int))
                            by {
                            if exists|p: int| g.class_adj(EdgeClass::Undirected, p, v as int) {
                                let p = choose|p: int|
                                    g.class_adj(EdgeClass::Undirected, p, v as int);
                                crate::graph::lemma_class_adj_in_range(
                                    g,
                                    EdgeClass::Undirected,
                                    p,
                                    v as int,
                                );
                                assert(g.class_adj(
                                    EdgeClass::Undirected,
                                    (p as u32) as int,
                                    v as int,
                                ));
                                assert(g.class_cols(v as int, EdgeClass::Undirected).contains(
                                    p as u32,
                                ));
                                assert(ud@.contains(p as u32));
                                assert(false);
                            }
                        }
                    } else {
                        assert(ud@.contains(ud@[0]));
                        assert(g.class_cols(v as int, EdgeClass::Undirected).contains(ud@[0]));
                        assert(g.class_adj(EdgeClass::Undirected, (ud@[0]) as int, v as int));
                    }
                }
                assert forall|u: u32|
                    out@.contains(u) <==> ((u as int) < v + 1 && !(exists|p: int|
                        g.dir_adj(true, p, u as int)) && (undirected_as_parents ==> !(exists|
                        p: int,
                    |
                        g.class_adj(EdgeClass::Undirected, p, u as int)))) by {
                    if out@.contains(u) {
                        let j = choose|j: int| 0 <= j < out@.len() && out@[j] == u;
                        if j < out0.len() {
                            assert(out0[j] == u);
                            assert(out0.contains(u));
                        } else {
                            assert(u == v);
                        }
                    }
                    if out0.contains(u) {
                        let j = choose|j: int| 0 <= j < out0.len() && out0[j] == u;
                        assert(out@[j] == u);
                    }
                    if u == v && keep {
                        assert(out@[out@.len() - 1] == u);
                    }
                }
            }
            v += 1;
        }
        out
    }

    /// Read-only access to the shared core.
    pub fn core_ref(&self) -> (r: &CaugiGraph)
        ensures
            r@ == self@,
    {
        &self.core
    }
}

} // verus!
