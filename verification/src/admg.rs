//! ADMG view: directed plus bidirected edges over an acyclic directed
//! sub-part, with packed per-node neighborhoods giving O(1) slice queries.
//! Buckets per node: parents, bidirected neighbors, children.

use std::sync::Arc;
use vstd::prelude::*;
use vstd::slice::slice_subrange;
use crate::acyclic::directed_part_is_acyclic;
use crate::edges::EdgeClass;
use crate::errors::GraphError;
use crate::graph::{
    class_sel, lemma_class_cols_adj, lemma_no_self_reach, lemma_sel_cols_eq, trigger_k,
    CaugiGraph, GraphV,
};
use crate::order::{lemma_concat_contains, sort_asc};
use crate::pack::{
    bk_sel, bucket_cols, bucket_window_ok, pack_buckets, sum_deg, view_index_ok, wstart,
    ViewIndex,
};
use crate::traverse::reach_set;

verus! {

/// Every arc's class is allowed in an ADMG: directed or bidirected.
pub open spec fn admg_classes_ok(g: GraphV) -> bool {
    forall|k: int|
        0 <= k < g.entries.len() ==> ((#[trigger] g.class_at(k)) == EdgeClass::Directed
            || g.class_at(k) == EdgeClass::Bidirected)
}

/// Bucket of an arc in an ADMG row: 0 parents, 1 bidirected, 2 children.
pub open spec fn admg_bucket(g: GraphV, k: int) -> u8 {
    if g.class_at(k) == EdgeClass::Directed {
        if g.entries[k].side == 1 {
            0
        } else {
            2
        }
    } else {
        1
    }
}

/// The bucket assignment of every arc.
pub open spec fn admg_bks(g: GraphV) -> Seq<u8> {
    Seq::new(g.entries.len(), |k: int| admg_bucket(g, k))
}

/// Membership in the Markov blanket of `i` in an ADMG: parents, children,
/// bidirected neighbors, and co-parents of children other than `i` itself.
pub open spec fn admg_in_blanket(g: GraphV, i: int, u: int) -> bool {
    ||| g.dir_adj(true, u, i)
    ||| g.dir_adj(false, u, i)
    ||| g.class_adj(EdgeClass::Bidirected, u, i)
    ||| (u != i && exists|c: int| #[trigger] g.dir_adj(false, c, i) && g.dir_adj(true, u, c))
}

/// The ADMG bucket lists are the parent, bidirected and child lists.
proof fn lemma_admg_buckets(g: GraphV, i: int)
    requires
        g.wf(),
        admg_classes_ok(g),
        0 <= i < g.nodes,
    ensures
        bucket_cols(g, admg_bks(g), i, 0) == g.parent_cols(i),
        bucket_cols(g, admg_bks(g), i, 1) == g.class_cols(i, EdgeClass::Bidirected),
        bucket_cols(g, admg_bks(g), i, 2) == g.child_cols(i),
{
    crate::graph::lemma_ranges_monotone(g, i + 1, g.nodes as int);
    assert forall|k: int| g.in_row(i, #[trigger] trigger_k(k)) implies bk_sel(admg_bks(g), 0)(
        g,
        k,
    ) == crate::graph::parent_sel()(g, k) && bk_sel(admg_bks(g), 1)(g, k) == class_sel(
        EdgeClass::Bidirected,
    )(g, k) && bk_sel(admg_bks(g), 2)(g, k) == crate::graph::child_sel()(g, k) by {
        assert(0 <= k < g.entries.len());
        assert(admg_bks(g)[k] == admg_bucket(g, k));
    }
    lemma_sel_cols_eq(g, i, bk_sel(admg_bks(g), 0), crate::graph::parent_sel(), g.row_len(i));
    lemma_sel_cols_eq(
        g,
        i,
        bk_sel(admg_bks(g), 1),
        class_sel(EdgeClass::Bidirected),
        g.row_len(i),
    );
    lemma_sel_cols_eq(g, i, bk_sel(admg_bks(g), 2), crate::graph::child_sel(), g.row_len(i));
}

/// At every node of an ADMG, the parent, bidirected and child buckets taken
/// together as a set are exactly the node's neighbor set: packing loses no
/// neighbor and invents none. `neighbors_of` returns the concatenation on
/// the left; `all_cols` lists the raw row.
pub proof fn lemma_admg_bucket_union(g: GraphV, i: int)
    requires
        g.wf(),
        admg_classes_ok(g),
        0 <= i < g.nodes,
    ensures
        (sort_asc(g.parent_cols(i)) + sort_asc(g.class_cols(i, EdgeClass::Bidirected)) + sort_asc(
            g.child_cols(i),
        )).to_set() == g.all_cols(i).to_set(),
{
    let cat = sort_asc(g.parent_cols(i)) + sort_asc(g.class_cols(i, EdgeClass::Bidirected))
        + sort_asc(g.child_cols(i));
    crate::graph::lemma_ranges_monotone(g, i + 1, g.nodes as int);
    crate::order::lemma_sort_asc_ensures(g.parent_cols(i));
    crate::order::lemma_sort_asc_ensures(g.class_cols(i, EdgeClass::Bidirected));
    crate::order::lemma_sort_asc_ensures(g.child_cols(i));
    assert forall|x: u32| cat.contains(x) <==> g.all_cols(i).contains(x) by {
        lemma_concat_contains(
            sort_asc(g.parent_cols(i)) + sort_asc(g.class_cols(i, EdgeClass::Bidirected)),
            sort_asc(g.child_cols(i)),
            x,
        );
        lemma_concat_contains(
            sort_asc(g.parent_cols(i)),
            sort_asc(g.class_cols(i, EdgeClass::Bidirected)),
            x,
        );
        crate::graph::lemma_sel_cols_contains(g, i, crate::graph::parent_sel(), x);
        crate::graph::lemma_sel_cols_contains(g, i, class_sel(EdgeClass::Bidirected), x);
        crate::graph::lemma_sel_cols_contains(g, i, crate::graph::child_sel(), x);
        crate::graph::lemma_sel_cols_contains(g, i, crate::graph::all_sel(), x);
        if g.all_cols(i).contains(x) {
            let k = choose|k: int|
                g.in_row(i, #[trigger] trigger_k(k)) && crate::graph::all_sel()(g, k)
                    && g.entries[k].col == x;
            assert(0 <= k < g.entries.len());
            if g.class_at(k) == EdgeClass::Directed {
                assert(g.entries[k].side == 0 || g.entries[k].side == 1);
                if g.entries[k].side == 1 {
                    assert(crate::graph::parent_sel()(g, k));
                    assert(g.parent_cols(i).contains(x));
                } else {
                    assert(crate::graph::child_sel()(g, k));
                    assert(g.child_cols(i).contains(x));
                }
            } else {
                assert(g.class_at(k) == EdgeClass::Bidirected);
                assert(class_sel(EdgeClass::Bidirected)(g, k));
                assert(g.class_cols(i, EdgeClass::Bidirected).contains(x));
            }
        }
        if g.parent_cols(i).contains(x) || g.class_cols(i, EdgeClass::Bidirected).contains(x)
            || g.child_cols(i).contains(x) {
            assert(g.all_cols(i).contains(x)) by {
                if g.parent_cols(i).contains(x) {
                    let k = choose|k: int|
                        g.in_row(i, #[trigger] trigger_k(k)) && crate::graph::parent_sel()(g, k)
                            && g.entries[k].col == x;
                    assert(crate::graph::all_sel()(g, k));
                } else if g.class_cols(i, EdgeClass::Bidirected).contains(x) {
                    let k = choose|k: int|
                        g.in_row(i, #[trigger] trigger_k(k)) && class_sel(EdgeClass::Bidirected)(
                            g,
                            k,
                        ) && g.entries[k].col == x;
                    assert(crate::graph::all_sel()(g, k));
                } else {
                    let k = choose|k: int|
                        g.in_row(i, #[trigger] trigger_k(k)) && crate::graph::child_sel()(g, k)
                            && g.entries[k].col == x;
                    assert(crate::graph::all_sel()(g, k));
                }
            }
        }
    }
    assert(cat.to_set() =~= g.all_cols(i).to_set());
}

/// Whether the sorted id slice holds `x`, by linear scan.
pub fn contains_id(s: &[u32], x: u32) -> (r: bool)
    ensures
        r == s@.contains(x),
{
    let n = s.len();
    let mut j: usize = 0;
    while j < n
        invariant
            n == s@.len(),
            0 <= j <= n,
            forall|q: int| 0 <= q < j ==> (#[trigger] s@[q]) != x,
        decreases n - j,
    {
        if s[j] == x {
            proof {
                assert(s@[j as int] == x);
            }
            return true;
        }
        j += 1;
    }
    false
}

/// The four membership tests decide Markov-blanket membership.
proof fn lemma_blanket_test(
    g: GraphV,
    i: int,
    v: u32,
    ch_s: Seq<u32>,
    inp: bool,
    inc: bool,
    inb: bool,
    cop: bool,
)
    requires
        g.wf(),
        0 <= i < g.nodes,
        (v as int) < g.nodes,
        ch_s == sort_asc(g.child_cols(i)),
        inp == g.dir_adj(true, v as int, i),
        inc == g.dir_adj(false, v as int, i),
        inb == g.class_adj(EdgeClass::Bidirected, v as int, i),
        cop <==> exists|jx: int|
            0 <= jx < ch_s.len() && g.dir_adj(true, v as int, (#[trigger] ch_s[jx]) as int),
    ensures
        (inp || inc || inb || (v as int != i && cop)) == admg_in_blanket(g, i, v as int),
{
    crate::order::lemma_sort_asc_ensures(g.child_cols(i));
    crate::graph::lemma_parent_child_cols_adj(g, i);
    if v as int != i && cop {
        let jx = choose|jx: int|
            0 <= jx < ch_s.len() && g.dir_adj(true, v as int, (#[trigger] ch_s[jx]) as int);
        assert(ch_s.contains(ch_s[jx]));
        assert(g.child_cols(i).contains(ch_s[jx]));
        assert(g.dir_adj(false, (ch_s[jx]) as int, i));
        assert(admg_in_blanket(g, i, v as int));
    }
    if admg_in_blanket(g, i, v as int) && !(inp || inc || inb) {
        assert(v as int != i);
        let c = choose|c: int| #[trigger] g.dir_adj(false, c, i) && g.dir_adj(true, v as int, c);
        crate::graph::lemma_dir_adj_in_range(g, false, c, i);
        assert(g.dir_adj(false, (c as u32) as int, i));
        assert(g.child_cols(i).contains(c as u32));
        assert(ch_s.contains(c as u32));
        let jx = choose|jx: int| 0 <= jx < ch_s.len() && ch_s[jx] == c as u32;
        assert(g.dir_adj(true, v as int, (ch_s[jx]) as int));
        assert(cop);
    }
}

/// The whole-row window splits into the three bucket windows: parents,
/// bidirected neighbors, children, each sorted ascending.
#[verifier::rlimit(100)]
proof fn lemma_admg_neighbors_concat(
    g: GraphV,
    ranges: Seq<usize>,
    deg: Seq<usize>,
    nbrs: Seq<u32>,
    i: int,
    s: int,
    pm: int,
    bm: int,
    e: int,
)
    requires
        g.wf(),
        admg_classes_ok(g),
        0 <= i < g.nodes,
        view_index_ok(g, admg_bks(g), 3, ranges, deg, nbrs),
        s == wstart(ranges, deg, 3, i, 0),
        pm == wstart(ranges, deg, 3, i, 1),
        bm == wstart(ranges, deg, 3, i, 2),
        e == wstart(ranges, deg, 3, i, 3),
    ensures
        0 <= s <= pm <= bm <= e <= nbrs.len(),
        nbrs.subrange(s, e) == sort_asc(g.parent_cols(i)) + sort_asc(
            g.class_cols(i, EdgeClass::Bidirected),
        ) + sort_asc(g.child_cols(i)),
{
    lemma_admg_buckets(g, i);
    assert(bucket_window_ok(g, admg_bks(g), 3, ranges, deg, nbrs, i, 0));
    assert(bucket_window_ok(g, admg_bks(g), 3, ranges, deg, nbrs, i, 1));
    assert(bucket_window_ok(g, admg_bks(g), 3, ranges, deg, nbrs, i, 2));
    let ii3 = i * 3;
    assert(sum_deg(deg, ii3, 0) == 0);
    assert(sum_deg(deg, ii3, 1) == sum_deg(deg, ii3, 0) + deg[ii3]);
    assert(sum_deg(deg, ii3, 2) == sum_deg(deg, ii3, 1) + deg[ii3 + 1]);
    assert(sum_deg(deg, ii3, 3) == sum_deg(deg, ii3, 2) + deg[ii3 + 2]);
    assert(nbrs.subrange(s, pm) == sort_asc(g.parent_cols(i)));
    assert(nbrs.subrange(pm, bm) == sort_asc(g.class_cols(i, EdgeClass::Bidirected)));
    assert(nbrs.subrange(bm, e) == sort_asc(g.child_cols(i)));
    crate::pack::lemma_range_end_in_array(g, admg_bks(g), 3, ranges, deg, nbrs, i + 1);
    assert(nbrs.subrange(s, e) =~= nbrs.subrange(s, pm) + nbrs.subrange(pm, bm) + nbrs.subrange(
        bm,
        e,
    ));
}

/// Acyclic directed mixed graph: a validated wrapper around a shared core
/// whose arcs are directed or bidirected only and whose directed sub-part
/// is acyclic.
#[derive(Debug)]
pub struct Admg {
    core: Arc<CaugiGraph>,
    idx: ViewIndex,
}

impl View for Admg {
    type V = GraphV;

    closed spec fn view(&self) -> GraphV {
        self.core@
    }
}

impl Admg {
    /// The view is validated and its packed index describes its core.
    pub closed spec fn wf(self) -> bool {
        &&& self.core@.wf()
        &&& self.core@.directed_acyclic()
        &&& admg_classes_ok(self.core@)
        &&& view_index_ok(
            self.core@,
            admg_bks(self.core@),
            3,
            self.idx.ranges@,
            self.idx.deg@,
            self.idx.nbrs@,
        )
    }

    /// Validates the core as an ADMG and packs its neighborhoods. Rejects a
    /// directed cycle first, then any arc whose class is neither directed
    /// nor bidirected; both failures are structural.
    #[verifier::rlimit(100)]
    pub fn new(core: Arc<CaugiGraph>) -> (r: Result<Admg, GraphError>)
        requires
            core@.wf(),
        ensures
            match r {
                Ok(v) => {
                    &&& v.wf()
                    &&& v@ == core@
                    &&& core@.directed_acyclic()
                    &&& admg_classes_ok(core@)
                },
                Err(e) => {
                    &&& !(core@.directed_acyclic() && admg_classes_ok(core@))
                    &&& e == if !core@.directed_acyclic() {
                        GraphError::DirectedCycle
                    } else {
                        GraphError::DisallowedEdgeClass
                    }
                },
            },
    {
        let cg: &CaugiGraph = &core;
        if !directed_part_is_acyclic(cg) {
            return Err(GraphError::DirectedCycle);
        }
        let ghost g = core@;
        let m = cg.entries.len();
        let mut bks: Vec<u8> = Vec::new();
        let mut k: usize = 0;
        while k < m
            invariant
                g == core@,
                g == cg@,
                g.wf(),
                g.directed_acyclic(),
                m == g.entries.len(),
                0 <= k <= m,
                bks@.len() == k,
                forall|k2: int| 0 <= k2 < k ==> (#[trigger] bks@[k2]) == admg_bucket(g, k2),
                forall|k2: int|
                    0 <= k2 < k ==> ((#[trigger] g.class_at(k2)) == EdgeClass::Directed
                        || g.class_at(k2) == EdgeClass::Bidirected),
            decreases m - k,
        {
            let c = cg.arc_class(k);
            let e = cg.entry(k);
            let b: u8 = match c {
                EdgeClass::Directed => if e.side == 1 {
                    0
                } else {
                    2
                },
                EdgeClass::Bidirected => 1,
                _ => {
                    proof {
                        assert(g.class_at(k as int) != EdgeClass::Directed && g.class_at(k as int)
                            != EdgeClass::Bidirected);
                    }
                    return Err(GraphError::DisallowedEdgeClass);
                },
            };
            bks.push(b);
            k += 1;
        }
        proof {
            assert(bks@ =~= admg_bks(g));
            assert(admg_classes_ok(g));
        }
        let idx = pack_buckets(cg, &bks, 3);
        Ok(Admg { core, idx })
    }

    /// Number of nodes.
    pub fn n(&self) -> (r: u32)
        ensures
            r == self@.nodes,
    {
        let cg: &CaugiGraph = &self.core;
        cg.n()
    }

    /// Window bounds of node `i`: start, end of parents, end of bidirected,
    /// start of children (which run to the row's end).
    #[verifier::rlimit(100)]
    fn bounds(&self, i: u32) -> (r: (usize, usize, usize, usize))
        requires
            self.wf(),
            (i as int) < self@.nodes,
        ensures
            r.0 == wstart(self.idx.ranges@, self.idx.deg@, 3, i as int, 0),
            r.1 == wstart(self.idx.ranges@, self.idx.deg@, 3, i as int, 1),
            r.2 == wstart(self.idx.ranges@, self.idx.deg@, 3, i as int, 2),
            r.3 == wstart(self.idx.ranges@, self.idx.deg@, 3, i as int, 3),
            r.0 <= r.1 <= r.2 <= r.3 <= self.idx.nbrs@.len(),
            r.3 == self.idx.ranges@[i as int + 1],
    {
        proof {
            assert(bucket_window_ok(
                self.core@,
                admg_bks(self.core@),
                3,
                self.idx.ranges@,
                self.idx.deg@,
                self.idx.nbrs@,
                i as int,
                0,
            ));
            assert(bucket_window_ok(
                self.core@,
                admg_bks(self.core@),
                3,
                self.idx.ranges@,
                self.idx.deg@,
                self.idx.nbrs@,
                i as int,
                1,
            ));
            assert(bucket_window_ok(
                self.core@,
                admg_bks(self.core@),
                3,
                self.idx.ranges@,
                self.idx.deg@,
                self.idx.nbrs@,
                i as int,
                2,
            ));
        }
        let dlen = self.idx.deg.len();
        proof {
            assert(self.idx.deg@.len() == self.core@.nodes * 3);
            assert((i as int) + 1 <= self.core@.nodes);
            assert(3 * (i as int) + 3 <= self.core@.nodes * 3);
            assert(3 * (i as int) + 2 < dlen);
        }
        let ii = i as usize;
        let s = self.idx.ranges[ii];
        let d0 = self.idx.deg[3 * ii];
        let d1 = self.idx.deg[3 * ii + 1];
        let d2 = self.idx.deg[3 * ii + 2];
        let e = self.idx.ranges[ii + 1];
        proof {
            assert(sum_deg(self.idx.deg@, 3 * (i as int), 0) == 0);
            assert(sum_deg(self.idx.deg@, 3 * (i as int), 1) == d0);
            assert(sum_deg(self.idx.deg@, 3 * (i as int), 2) == d0 + d1);
            assert(sum_deg(self.idx.deg@, 3 * (i as int), 3) == d0 + d1 + d2);
            assert((i as int) * 3 == 3 * (i as int));
            assert(wstart(self.idx.ranges@, self.idx.deg@, 3, i as int, 3) == self.idx.ranges@[
                i as int + 1]);
            crate::pack::lemma_range_end_in_array(
                self.core@,
                admg_bks(self.core@),
                3,
                self.idx.ranges@,
                self.idx.deg@,
                self.idx.nbrs@,
                i as int + 1,
            );
        }
        (s, s + d0, s + d0 + d1, e)
    }

    /// Directed parents of `i`, ascending; strictly ascending on a simple
    /// graph.
    pub fn parents_of(&self, i: u32) -> (r: &[u32])
        requires
            self.wf(),
            (i as int) < self@.nodes,
        ensures
            r@ == sort_asc(self@.parent_cols(i as int)),
    {
        let (s, pm, _, _) = self.bounds(i);
        proof {
            lemma_admg_buckets(self.core@, i as int);
            assert(bucket_window_ok(
                self.core@,
                admg_bks(self.core@),
                3,
                self.idx.ranges@,
                self.idx.deg@,
                self.idx.nbrs@,
                i as int,
                0,
            ));
        }
        slice_subrange(self.idx.nbrs.as_slice(), s, pm)
    }

    /// Bidirected neighbors of `i`, ascending.
    pub fn bidirected_of(&self, i: u32) -> (r: &[u32])
        requires
            self.wf(),
            (i as int) < self@.nodes,
        ensures
            r@ == sort_asc(self@.class_cols(i as int, EdgeClass::Bidirected)),
    {
        let (_, pm, bm, _) = self.bounds(i);
        proof {
            lemma_admg_buckets(self.core@, i as int);
            assert(bucket_window_ok(
                self.core@,
                admg_bks(self.core@),
                3,
                self.idx.ranges@,
                self.idx.deg@,
                self.idx.nbrs@,
                i as int,
                1,
            ));
        }
        slice_subrange(self.idx.nbrs.as_slice(), pm, bm)
    }

    /// Directed children of `i`, ascending.
    pub fn children_of(&self, i: u32) -> (r: &[u32])
        requires
            self.wf(),
            (i as int) < self@.nodes,
        ensures
            r@ == sort_asc(self@.child_cols(i as int)),
    {
        let (_, _, bm, e) = self.bounds(i);
        proof {
            lemma_admg_buckets(self.core@, i as int);
            assert(bucket_window_ok(
                self.core@,
                admg_bks(self.core@),
                3,
                self.idx.ranges@,
                self.idx.deg@,
                self.idx.nbrs@,
                i as int,
                2,
            ));
        }
        slice_subrange(self.idx.nbrs.as_slice(), bm, e)
    }

    /// All neighbors of `i`: parents, then bidirected neighbors, then
    /// children, each part ascending.
    pub fn neighbors_of(&self, i: u32) -> (r: &[u32])
        requires
            self.wf(),
            (i as int) < self@.nodes,
        ensures
            r@ == sort_asc(self@.parent_cols(i as int)) + sort_asc(
                self@.class_cols(i as int, EdgeClass::Bidirected),
            ) + sort_asc(self@.child_cols(i as int)),
    {
        let (s, pm, bm, e) = self.bounds(i);
        proof {
            lemma_admg_neighbors_concat(
                self.core@,
                self.idx.ranges@,
                self.idx.deg@,
                self.idx.nbrs@,
                i as int,
                s as int,
                pm as int,
                bm as int,
                e as int,
            );
        }
        slice_subrange(self.idx.nbrs.as_slice(), s, e)
    }

    /// Proper ancestors of `i` over directed edges only, strictly ascending;
    /// never contains `i` itself.
    pub fn ancestors_of(&self, i: u32) -> (r: Vec<u32>)
        requires
            self.wf(),
            (i as int) < self@.nodes,
        ensures
            forall|a: int, b: int| 0 <= a < b < r@.len() ==> r@[a] < r@[b],
            forall|u: u32| r@.contains(u) <==> self@.dir_reaches(true, i as int, u as int),
            !r@.contains(i),
    {
        let cg: &CaugiGraph = &self.core;
        let r = reach_set(cg, i, true);
        proof {
            lemma_no_self_reach(self@, true, i as int);
        }
        r
    }

    /// Proper descendants of `i` over directed edges only, strictly
    /// ascending; never contains `i` itself.
    pub fn descendants_of(&self, i: u32) -> (r: Vec<u32>)
        requires
            self.wf(),
            (i as int) < self@.nodes,
        ensures
            forall|a: int, b: int| 0 <= a < b < r@.len() ==> r@[a] < r@[b],
            forall|u: u32| r@.contains(u) <==> self@.dir_reaches(false, i as int, u as int),
            !r@.contains(i),
    {
        let cg: &CaugiGraph = &self.core;
        let r = reach_set(cg, i, false);
        proof {
            lemma_no_self_reach(self@, false, i as int);
        }
        r
    }

    /// Markov blanket of `i`: parents, children, co-parents of each child
    /// excluding `i`, and bidirected neighbors; strictly ascending.
    #[verifier::rlimit(100)]
    pub fn markov_blanket_of(&self, i: u32) -> (r: Vec<u32>)
        requires
            self.wf(),
            (i as int) < self@.nodes,
        ensures
            forall|a: int, b: int| 0 <= a < b < r@.len() ==> r@[a] < r@[b],
            forall|u: u32| r@.contains(u) <==> admg_in_blanket(self@, i as int, u as int),
    {
        let ghost g = self@;
        let n = self.n();
        let pa = self.parents_of(i);
        let ch = self.children_of(i);
        let bd = self.bidirected_of(i);
        proof {
            crate::order::lemma_sort_asc_ensures(g.parent_cols(i as int));
            crate::order::lemma_sort_asc_ensures(g.child_cols(i as int));
            crate::order::lemma_sort_asc_ensures(g.class_cols(i as int, EdgeClass::Bidirected));
            crate::graph::lemma_parent_child_cols_adj(g, i as int);
            lemma_class_cols_adj(g, i as int, EdgeClass::Bidirected);
        }
        let mut out: Vec<u32> = Vec::new();
        let mut v: u32 = 0;
        while v < n
            invariant
                g == self@,
                self.wf(),
                n == g.nodes,
                0 <= (i as int) < g.nodes,
                0 <= v <= n,
                pa@ == sort_asc(g.parent_cols(i as int)),
                ch@ == sort_asc(g.child_cols(i as int)),
                bd@ == sort_asc(g.class_cols(i as int, EdgeClass::Bidirected)),
                forall|j: int| 0 <= j < out@.len() ==> (#[trigger] out@[j]) < v,
                forall|a: int, b: int| 0 <= a < b < out@.len() ==> out@[a] < out@[b],
                forall|u: u32|
                    out@.contains(u) <==> (u < v && admg_in_blanket(g, i as int, u as int)),
            decreases n - v,
        {
            let inp = contains_id(pa, v);
            let inc = contains_id(ch, v);
            let inb = contains_id(bd, v);
            let mut cop: bool = false;
            let mut cx: usize = 0;
            if v != i {
                while cx < ch.len()
                    invariant
                        g == self@,
                        self.wf(),
                        0 <= (i as int) < g.nodes,
                        (v as int) < g.nodes,
                        ch@ == sort_asc(g.child_cols(i as int)),
                        0 <= cx <= ch@.len(),
                        cop <==> exists|jx: int|
                            0 <= jx < cx && g.dir_adj(true, v as int, (#[trigger] ch@[jx]) as int),
                    decreases ch@.len() - cx,
                {
                    let c = ch[cx];
                    proof {
                        crate::order::lemma_sort_asc_ensures(g.child_cols(i as int));
                        crate::graph::lemma_parent_child_cols_adj(g, i as int);
                        assert(ch@[cx as int] == c);
                        assert(ch@.contains(c));
                        assert(g.child_cols(i as int).contains(c));
                        assert(g.dir_adj(false, c as int, i as int));
                        crate::graph::lemma_dir_adj_in_range(g, false, c as int, i as int);
                    }
                    let cpa = self.parents_of(c);
                    let here = contains_id(cpa, v);
                    proof {
                        crate::order::lemma_sort_asc_ensures(g.parent_cols(c as int));
                        crate::graph::lemma_parent_child_cols_adj(g, c as int);
                        if here {
                            assert(g.parent_cols(c as int).contains(v));
                            assert(g.dir_adj(true, v as int, (ch@[cx as int]) as int));
                        }
                    }
                    let ghost was = cop;
                    if here {
                        cop = true;
                    }
                    proof {
                        assert(cop <==> exists|jx: int|
                            0 <= jx < cx + 1 && g.dir_adj(
                                true,
                                v as int,
                                (#[trigger] ch@[jx]) as int,
                            )) by {
                            if cop {
                                if here {
                                    assert(g.dir_adj(true, v as int, (ch@[cx as int]) as int));
                                } else {
                                    let jx = choose|jx: int|
                                        0 <= jx < cx && g.dir_adj(
                                            true,
                                            v as int,
                                            (#[trigger] ch@[jx]) as int,
                                        );
                                    assert(g.dir_adj(true, v as int, (ch@[jx]) as int));
                                }
                            } else {
                                if exists|jx: int|
                                    0 <= jx < cx + 1 && g.dir_adj(
                                        true,
                                        v as int,
                                        (#[trigger] ch@[jx]) as int,
                                    ) {
                                    let jx = choose|jx: int|
                                        0 <= jx < cx + 1 && g.dir_adj(
                                            true,
                                            v as int,
                                            (#[trigger] ch@[jx]) as int,
                                        );
                                    if jx == cx as int {
                                        assert(g.parent_cols(c as int).contains(v));
                                        assert(cpa@.contains(v));
                                        assert(false);
                                    } else {
                                        assert(was);
                                        assert(false);
                                    }
                                }
                            }
                        }
                    }
                    cx += 1;
                }
            }
            let inmb = inp || inc || inb || (v != i && cop);
            let ghost out0 = out@;
            if inmb {
                out.push(v);
            }
            proof {
                crate::order::lemma_sort_asc_ensures(g.parent_cols(i as int));
                crate::order::lemma_sort_asc_ensures(g.child_cols(i as int));
                crate::order::lemma_sort_asc_ensures(
                    g.class_cols(i as int, EdgeClass::Bidirected),
                );
                crate::graph::lemma_parent_child_cols_adj(g, i as int);
                lemma_class_cols_adj(g, i as int, EdgeClass::Bidirected);
                assert(inp == pa@.contains(v));
                assert(sort_asc(g.parent_cols(i as int)).contains(v) <==> g.parent_cols(
                    i as int,
                ).contains(v));
                assert(g.parent_cols(i as int).contains(v) <==> g.dir_adj(
                    true,
                    v as int,
                    i as int,
                ));
                assert(inp == g.dir_adj(true, v as int, i as int));
                assert(sort_asc(g.child_cols(i as int)).contains(v) <==> g.child_cols(
                    i as int,
                ).contains(v));
                assert(g.child_cols(i as int).contains(v) <==> g.dir_adj(
                    false,
                    v as int,
                    i as int,
                ));
                assert(inc == g.dir_adj(false, v as int, i as int));
                assert(sort_asc(g.class_cols(i as int, EdgeClass::Bidirected)).contains(v)
                    <==> g.class_cols(i as int, EdgeClass::Bidirected).contains(v));
                assert(g.class_cols(i as int, EdgeClass::Bidirected).contains(v)
                    <==> g.class_adj(EdgeClass::Bidirected, v as int, i as int));
                assert(inb == g.class_adj(EdgeClass::Bidirected, v as int, i as int));
                if v != i {
                    lemma_blanket_test(g, i as int, v, ch@, inp, inc, inb, cop);
                } else {
                    assert((v as int) == (i as int));
                }
                assert(inmb == admg_in_blanket(g, i as int, v as int));
                assert forall|u: u32|
                    out@.contains(u) <==> (u < v + 1 && admg_in_blanket(g, i as int, u as int))
                by {
                    if out@.contains(u) {
                        let j = choose|j: int| 0 <= j < out@.len() && out@[j] == u;
                        if j < out0.len() {
                            assert(out0[j] == u);
                            assert(out0.contains(u));
                        } else {
                            assert(u == v);
                        }
                    }
                    if out0.contains(u) {
                        let j = choose|j: int| 0 <= j < out0.len() && out0[j] == u;
                        assert(out@[j] == u);
                    }
                    if u == v && inmb {
                        assert(out@[out@.len() - 1] == u);
                    }
                }
            }
            v += 1;
        }
        proof {
            assert forall|u: u32|
                out@.contains(u) <==> admg_in_blanket(g, i as int, u as int) by {
                if admg_in_blanket(g, i as int, u as int) && !((u as int) < g.nodes) {
                    if g.dir_adj(true, u as int, i as int) {
                        crate::graph::lemma_dir_adj_in_range(g, true, u as int, i as int);
                    } else if g.dir_adj(false, u as int, i as int) {
                        crate::graph::lemma_dir_adj_in_range(g, false, u as int, i as int);
                    } else if g.class_adj(EdgeClass::Bidirected, u as int, i as int) {
                        crate::graph::lemma_class_adj_in_range(
                            g,
                            EdgeClass::Bidirected,
                            u as int,
                            i as int,
                        );
                    } else {
                        let c = choose|c: int|
                            #[trigger] g.dir_adj(false, c, i as int) && g.dir_adj(
                                true,
                                u as int,
                                c,
                            );
                        crate::graph::lemma_dir_adj_in_range(g, true, u as int, c);
                    }
                }
            }
        }
        out
    }

    /// Nodes with no directed parent, ascending.
    #[verifier::rlimit(100)]
    pub fn exogenous_nodes(&self) -> (r: Vec<u32>)
        requires
            self.wf(),
        ensures
            forall|a: int, b: int| 0 <= a < b < r@.len() ==> r@[a] < r@[b],
            forall|u: u32|
                r@.contains(u) <==> ((u as int) < self@.nodes && !exists|p: int|
                    self@.dir_adj(true, p, u as int)),
    {
        let ghost g = self@;
        let n = self.n();
        let mut out: Vec<u32> = Vec::new();
        let mut v: u32 = 0;
        while v < n
            invariant
                g == self@,
                self.wf(),
                n == g.nodes,
                0 <= v <= n,
                forall|a: int, b: int| 0 <= a < b < out@.len() ==> out@[a] < out@[b],
                forall|j: int| 0 <= j < out@.len() ==> (#[trigger] out@[j]) < v,
                forall|u: u32|
                    out@.contains(u) <==> ((u as int) < v && !exists|p: int|
                        g.dir_adj(true, p, u as int)),
            decreases n - v,
        {
            let pa = self.parents_of(v);
            let ghost out0 = out@;
            let empty = pa.len() == 0;
            if empty {
                out.push(v);
            }
            proof {
                crate::order::lemma_sort_asc_ensures(g.parent_cols(v as int));
                crate::graph::lemma_parent_child_cols_adj(g, v as int);
                if empty {
                    assert(!exists|p: int| g.dir_adj(true, p, v as int)) by {
                        if exists|p: int| g.dir_adj(true, p, v as int) {
                            let p = choose|p: int| g.dir_adj(true, p, v as int);
                            crate::graph::lemma_dir_adj_in_range(g, true, p, v as int);
                            assert(g.dir_adj(true, (p as u32) as int, v as int));
                            assert(g.parent_cols(v as int).contains(p as u32));
                            assert(pa@.contains(p as u32));
                            assert(false);
                        }
                    }
                } else {
                    assert(pa@.contains(pa@[0]));
                    assert(g.parent_cols(v as int).contains(pa@[0]));
                    assert(g.dir_adj(true, (pa@[0]) as int, v as int));
                }
                assert forall|u: u32|
                    out@.contains(u) <==> ((u as int) < v + 1 && !exists|p: int|
                        g.dir_adj(true, p, u as int)) by {
                    if out@.contains(u) {
                        let j = choose|j: int| 0 <= j < out@.len() && out@[j] == u;
                        if j < out0.len() {
                            assert(out0[j] == u);
                            assert(out0.contains(u));
                        } else {
                            assert(u == v);
                        }
                    }
                    if out0.contains(u) {
                        let j = choose|j: int| 0 <= j < out0.len() && out0[j] == u;
                        assert(out@[j] == u);
                    }
                    if u == v && empty {
                        assert(out@[out@.len() - 1] == u);
                    }
                }
            }
            v += 1;
        }
        out
    }

    /// Read-only access to the shared core.
    pub fn core_ref(&self) -> (r: &CaugiGraph)
        ensures
            r@ == self@,
    {
        &self.core
    }
}

} // verus!
