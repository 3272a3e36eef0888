//! The mutable accumulator that validates arcs against a registry and
//! finalizes them into an immutable `CaugiGraph` by a counting pass, a
//! prefix sum, a scatter into row segments, and a per-row sort by neighbor.

use vstd::prelude::*;
use vstd::relations::sorted_by;
use crate::edges::EdgeRegistry;
use crate::errors::GraphError;
use crate::graph::{ArcEntry, CaugiGraph, GraphV};
use crate::order::{entry_le, sorted_entries};

verus! {

/// One pending arc: a stored arc together with the row it will land in.
#[derive(Clone, Copy, Debug, PartialEq, Eq, Structural)]
pub struct PendingArc {
    pub row: u32,
    pub col: u32,
    pub etype: u8,
    pub side: u8,
}

/// The stored form of a pending arc.
pub open spec fn arc_of(a: PendingArc) -> ArcEntry {
    ArcEntry { col: a.col, etype: a.etype, side: a.side }
}

/// The stored arcs of `p` that belong to row `i`, in order of addition.
pub open spec fn pend_row(p: Seq<PendingArc>, i: int) -> Seq<ArcEntry>
    decreases p.len(),
{
    if p.len() == 0 {
        Seq::empty()
    } else {
        let prev = pend_row(p.drop_last(), i);
        if p.last().row == i {
            prev.push(arc_of(p.last()))
        } else {
            prev
        }
    }
}

/// Number of pending arcs of row `i`.
pub open spec fn cnt_row(p: Seq<PendingArc>, i: int) -> int {
    pend_row(p, i).len() as int
}

/// Number of pending arcs of all rows below `i`.
pub open spec fn cnt_rows_lt(p: Seq<PendingArc>, i: int) -> int
    decreases i,
{
    if i <= 0 {
        0
    } else {
        cnt_rows_lt(p, i - 1) + cnt_row(p, i - 1)
    }
}

/// The arcs of node `i`'s row of a graph.
pub open spec fn row_entries(g: GraphV, i: int) -> Seq<ArcEntry> {
    g.entries.subrange(g.row_ranges[i] as int, g.row_ranges[i + 1] as int)
}

/// Pushing one arc extends exactly its own row.
pub proof fn lemma_pend_row_push(p: Seq<PendingArc>, a: PendingArc, i: int)
    ensures
        pend_row(p.push(a), i) == if a.row == i {
            pend_row(p, i).push(arc_of(a))
        } else {
            pend_row(p, i)
        },
{
    assert(p.push(a).drop_last() =~= p);
    assert(p.push(a).last() == a);
}

/// A row never holds more arcs than are pending in all.
pub proof fn lemma_cnt_row_le_len(p: Seq<PendingArc>, i: int)
    ensures
        0 <= cnt_row(p, i) <= p.len(),
    decreases p.len(),
{
    if p.len() > 0 {
        lemma_cnt_row_le_len(p.drop_last(), i);
    }
}

/// Counting a longer prefix can only grow a row.
pub proof fn lemma_cnt_row_take_le(p: Seq<PendingArc>, i: int, j1: int, j2: int)
    requires
        0 <= j1 <= j2 <= p.len(),
    ensures
        cnt_row(p.take(j1), i) <= cnt_row(p.take(j2), i),
    decreases j2 - j1,
{
    if j1 < j2 {
        lemma_cnt_row_take_le(p, i, j1, j2 - 1);
        assert(p.take(j2).drop_last() =~= p.take(j2 - 1));
        lemma_pend_row_push(p.take(j2 - 1), p[j2 - 1], i);
        assert(p.take(j2 - 1).push(p[j2 - 1]) =~= p.take(j2));
    }
}

/// How one more arc changes the below-`i` total.
pub proof fn lemma_cnt_rows_lt_push(p: Seq<PendingArc>, a: PendingArc, i: int)
    ensures
        cnt_rows_lt(p.push(a), i) == cnt_rows_lt(p, i) + if 0 <= (a.row as int) < i {
            1int
        } else {
            0int
        },
    decreases i,
{
    if i > 0 {
        lemma_cnt_rows_lt_push(p, a, i - 1);
        lemma_pend_row_push(p, a, i - 1);
    }
}

/// The below-`i` total never exceeds the number of pending arcs.
pub proof fn lemma_cnt_rows_lt_le_len(p: Seq<PendingArc>, i: int)
    ensures
        0 <= cnt_rows_lt(p, i) <= p.len(),
    decreases p.len(),
{
    if p.len() == 0 {
        assert(p =~= Seq::<PendingArc>::empty());
        lemma_cnt_rows_lt_zero(i);
    } else {
        let q = p.drop_last();
        lemma_cnt_rows_lt_le_len(q, i);
        assert(q.push(p.last()) =~= p);
        lemma_cnt_rows_lt_push(q, p.last(), i);
    }
}

proof fn lemma_cnt_rows_lt_zero(i: int)
    ensures
        cnt_rows_lt(Seq::<PendingArc>::empty(), i) == 0,
    decreases i,
{
    if i > 0 {
        lemma_cnt_rows_lt_zero(i - 1);
    }
}

/// A row's stored arcs all come from pending arcs of that row.
pub proof fn lemma_pend_row_contains(p: Seq<PendingArc>, i: int, e: ArcEntry)
    ensures
        pend_row(p, i).contains(e) <==> exists|j: int|
            0 <= j < p.len() && (#[trigger] p[j]).row == i && arc_of(p[j]) == e,
    decreases p.len(),
{
    if p.len() == 0 {
    } else {
        let q = p.drop_last();
        lemma_pend_row_contains(q, i, e);
        let s = pend_row(p, i);
        let prev = pend_row(q, i);
        if p.last().row == i {
            assert(s == prev.push(arc_of(p.last())));
            if s.contains(e) {
                let idx = choose|idx: int| 0 <= idx < s.len() && s[idx] == e;
                if idx < prev.len() {
                    assert(prev[idx] == e);
                    assert(prev.contains(e));
                    let j = choose|j: int|
                        0 <= j < q.len() && (#[trigger] q[j]).row == i && arc_of(q[j]) == e;
                    assert(p[j] == q[j]);
                } else {
                    assert(e == arc_of(p.last()));
                    assert((p[p.len() - 1]).row == i && arc_of(p[p.len() - 1]) == e);
                }
            }
            if exists|j: int| 0 <= j < p.len() && (#[trigger] p[j]).row == i && arc_of(p[j]) == e {
                let j = choose|j: int|
                    0 <= j < p.len() && (#[trigger] p[j]).row == i && arc_of(p[j]) == e;
                if j < p.len() - 1 {
                    assert(q[j] == p[j]);
                    assert(prev.contains(e));
                    let idx = choose|idx: int| 0 <= idx < prev.len() && prev[idx] == e;
                    assert(s[idx] == e);
                } else {
                    assert(s[s.len() - 1] == e);
                }
            }
        } else {
            assert(s == prev);
            if exists|j: int| 0 <= j < p.len() && (#[trigger] p[j]).row == i && arc_of(p[j]) == e {
                let j = choose|j: int|
                    0 <= j < p.len() && (#[trigger] p[j]).row == i && arc_of(p[j]) == e;
                assert(j < p.len() - 1);
                assert(q[j] == p[j]);
            }
            if prev.contains(e) {
                let j = choose|j: int|
                    0 <= j < q.len() && (#[trigger] q[j]).row == i && arc_of(q[j]) == e;
                assert(p[j] == q[j]);
            }
        }
    }
}


/// Below-totals grow with the bound.
pub proof fn lemma_cnt_rows_lt_mono(p: Seq<PendingArc>, i1: int, i2: int)
    requires
        i1 <= i2,
    ensures
        cnt_rows_lt(p, i1) <= cnt_rows_lt(p, i2),
    decreases i2 - i1,
{
    if i1 < i2 {
        lemma_cnt_rows_lt_mono(p, i1, i2 - 1);
        lemma_cnt_row_le_len(p, i2 - 1);
    }
}

/// When every pending arc's row is below `n`, the below-`n` total is all of
/// them.
pub proof fn lemma_cnt_rows_lt_all(p: Seq<PendingArc>, n: int)
    requires
        0 <= n,
        forall|j: int| 0 <= j < p.len() ==> ((#[trigger] p[j]).row as int) < n,
    ensures
        cnt_rows_lt(p, n) == p.len(),
    decreases p.len(),
{
    if p.len() == 0 {
        assert(p =~= Seq::<PendingArc>::empty());
        lemma_cnt_rows_lt_zero(n);
    } else {
        let q = p.drop_last();
        lemma_cnt_rows_lt_all(q, n);
        assert(q.push(p.last()) =~= p);
        lemma_cnt_rows_lt_push(q, p.last(), n);
        assert(((p[p.len() - 1]).row as int) < n);
    }
}

/// Offsets that start at zero and tile a span place every index in exactly
/// one row; this returns it.
proof fn tile_row(rr: Seq<usize>, nn: int, k: int, i: int) -> (t: int)
    requires
        rr.len() == nn + 1,
        0 <= i < nn,
        forall|q: int| 0 <= q < nn ==> (#[trigger] rr[q]) <= rr[q + 1],
        rr[i] <= k < rr[nn],
    ensures
        i <= t < nn && rr[t] <= k < rr[t + 1],
    decreases nn - i,
{
    if k < rr[i + 1] {
        i
    } else {
        assert(i + 1 < nn) by {
            if i + 1 == nn {
                assert(rr[i + 1] <= k);
            }
        }
        tile_row(rr, nn, k, i + 1)
    }
}

/// No two arcs of the sequence share a neighbor id.
pub open spec fn distinct_cols(s: Seq<ArcEntry>) -> bool {
    forall|a: int, b: int| 0 <= a < b < s.len() ==> (#[trigger] s[a]).col != (#[trigger] s[b]).col
}

/// Distinct neighbor ids survive any reordering.
proof fn lemma_distinct_cols_multiset(q: Seq<ArcEntry>, s: Seq<ArcEntry>)
    requires
        distinct_cols(q),
        s.to_multiset() == q.to_multiset(),
    ensures
        distinct_cols(s),
{
    broadcast use vstd::seq_lib::group_to_multiset_ensures;

    assert(q.no_duplicates()) by {
        assert forall|a: int, b: int|
            (0 <= a < q.len() && 0 <= b < q.len() && a != b) implies q[a] != q[b] by {
            if a < b {
                assert(q[a].col != q[b].col);
            } else {
                assert(q[b].col != q[a].col);
            }
        }
    }
    q.lemma_multiset_has_no_duplicates();
    s.lemma_multiset_has_no_duplicates_conv();
    assert forall|a: int, b: int| 0 <= a < b < s.len() implies (#[trigger] s[a]).col != (
    #[trigger] s[b]).col by {
        if s[a].col == s[b].col {
            assert(s[a] != s[b]);
            assert(s.contains(s[a]) && s.contains(s[b]));
            assert(s.to_multiset().count(s[a]) > 0 && s.to_multiset().count(s[b]) > 0);
            assert(q.to_multiset().count(s[a]) > 0 && q.to_multiset().count(s[b]) > 0);
            assert(q.contains(s[a]) && q.contains(s[b]));
            let a2 = choose|a2: int| 0 <= a2 < q.len() && q[a2] == s[a];
            let b2 = choose|b2: int| 0 <= b2 < q.len() && q[b2] == s[b];
            assert(a2 != b2);
            if a2 < b2 {
                assert(q[a2].col != q[b2].col);
            } else {
                assert(q[b2].col != q[a2].col);
            }
            assert(false);
        }
    }
}

/// In a simple builder, no two arcs of one row share a neighbor.
proof fn lemma_pend_row_distinct(p: Seq<PendingArc>, i: int)
    requires
        forall|j1: int, j2: int|
            0 <= j1 < p.len() && 0 <= j2 < p.len() && j1 != j2 ==> !((#[trigger] p[j1]).row == (
            #[trigger] p[j2]).row && p[j1].col == p[j2].col),
    ensures
        distinct_cols(pend_row(p, i)),
    decreases p.len(),
{
    if p.len() > 0 {
        let q = p.drop_last();
        assert forall|j1: int, j2: int|
            0 <= j1 < q.len() && 0 <= j2 < q.len() && j1 != j2 implies !((#[trigger] q[j1]).row
            == (#[trigger] q[j2]).row && q[j1].col == q[j2].col) by {
            assert(p[j1] == q[j1] && p[j2] == q[j2]);
        }
        lemma_pend_row_distinct(q, i);
        if p.last().row == i {
            let prev = pend_row(q, i);
            let e = arc_of(p.last());
            assert(pend_row(p, i) == prev.push(e));
            assert forall|a: int| 0 <= a < prev.len() implies (#[trigger] prev[a]).col != e.col by {
                if prev[a].col == e.col {
                    lemma_pend_row_contains(q, i, prev[a]);
                    assert(prev.contains(prev[a]));
                    let j = choose|j: int|
                        0 <= j < q.len() && (#[trigger] q[j]).row == i && arc_of(q[j]) == prev[a];
                    assert(p[j] == q[j]);
                    assert(!((p[j]).row == (p[p.len() - 1]).row && p[j].col == p[p.len() - 1].col));
                    assert(false);
                }
            }
            assert forall|a: int, b: int|
                0 <= a < b < pend_row(p, i).len() implies (#[trigger] pend_row(p, i)[a]).col != (
            #[trigger] pend_row(p, i)[b]).col by {
                if b < prev.len() {
                    assert(pend_row(p, i)[a] == prev[a] && pend_row(p, i)[b] == prev[b]);
                } else {
                    assert(pend_row(p, i)[a] == prev[a] && pend_row(p, i)[b] == e);
                }
            }
        }
    }
}

/// Mathematical image of a `GraphBuilder`.
pub struct BuilderV {
    pub nodes: u32,
    pub simple: bool,
    pub registry: crate::edges::RegistryV,
    pub pend: Seq<PendingArc>,
}

/// Pending arcs are in range; in a simple builder the node pairs are
/// pairwise distinct, loop-free, and closed under flipping.
pub open spec fn builder_wf(b: BuilderV) -> bool {
    &&& forall|j: int|
        0 <= j < b.pend.len() ==> (#[trigger] b.pend[j]).row < b.nodes && b.pend[j].col < b.nodes
            && (b.pend[j].etype as int) < b.registry.kinds.len() && (b.pend[j].side == 0
            || b.pend[j].side == 1)
    &&& b.pend.len() % 2 == 0
    &&& forall|t: int|
        0 <= t < b.pend.len() / 2 ==> (#[trigger] b.pend[2 * t]).row == b.pend[2 * t + 1].col
            && b.pend[2 * t].col == b.pend[2 * t + 1].row
    &&& (b.simple ==> forall|j1: int, j2: int|
        0 <= j1 < b.pend.len() && 0 <= j2 < b.pend.len() && j1 != j2 ==> !((
        #[trigger] b.pend[j1]).row == (#[trigger] b.pend[j2]).row && b.pend[j1].col
            == b.pend[j2].col))
    &&& (b.simple ==> forall|j: int|
        0 <= j < b.pend.len() ==> (#[trigger] b.pend[j]).row != b.pend[j].col)
}

/// A node pair is already connected by some pending arc.
pub open spec fn pair_present(p: Seq<PendingArc>, u: u32, v: u32) -> bool {
    exists|j: int| 0 <= j < p.len() && (#[trigger] p[j]).row == u && p[j].col == v
}

/// Exclusively owned accumulator of arcs. `add_edge` validates each edge
/// against the snapshot of the registry; `finalize` consumes the builder and
/// builds the immutable core, so a builder cannot be reused.
#[derive(Debug)]
pub struct GraphBuilder {
    registry: EdgeRegistry,
    n_nodes: u32,
    simple: bool,
    pend: Vec<PendingArc>,
}

impl View for GraphBuilder {
    type V = BuilderV;

    closed spec fn view(&self) -> BuilderV {
        BuilderV {
            nodes: self.n_nodes,
            simple: self.simple,
            registry: self.registry@,
            pend: self.pend@,
        }
    }
}

impl GraphBuilder {
    /// A fresh builder over `n` nodes against a snapshot of `registry`.
    pub fn new_with_registry(n: u32, simple: bool, registry: &EdgeRegistry) -> (b: GraphBuilder)
        ensures
            b@.nodes == n,
            b@.simple == simple,
            b@.registry == registry@,
            b@.pend.len() == 0,
            builder_wf(b@),
    {
        GraphBuilder {
            registry: registry.duplicate(),
            n_nodes: n,
            simple,
            pend: Vec::new(),
        }
    }

    /// Number of nodes.
    pub fn n(&self) -> (r: u32)
        ensures
            r == self@.nodes,
    {
        self.n_nodes
    }

    /// Adds one edge between `u` and `v` of the registered kind `code`.
    /// A symmetric kind is recorded as one arc in each endpoint's row; an
    /// asymmetric kind as a tail-side arc at `u` and a head-side arc at `v`.
    /// Rejects, in this order: a node id out of range, an unassigned code,
    /// and on a simple graph a self-loop or an already-connected pair.
    /// A failed call changes nothing.
    pub fn add_edge(&mut self, u: u32, v: u32, code: u8) -> (r: Result<(), GraphError>)
        requires
            builder_wf(old(self)@),
        ensures
            builder_wf(final(self)@),
            final(self)@.nodes == old(self)@.nodes,
            final(self)@.simple == old(self)@.simple,
            final(self)@.registry == old(self)@.registry,
            match r {
                Ok(()) => {
                    &&& u < old(self)@.nodes
                    &&& v < old(self)@.nodes
                    &&& (code as int) < old(self)@.registry.kinds.len()
                    &&& (old(self)@.simple ==> u != v && !pair_present(old(self)@.pend, u, v))
                    &&& final(self)@.pend == old(self)@.pend.push(
                        PendingArc { row: u, col: v, etype: code, side: 0 },
                    ).push(
                        PendingArc {
                            row: v,
                            col: u,
                            etype: code,
                            side: if old(self)@.registry.kinds[code as int].symmetric {
                                0
                            } else {
                                1
                            },
                        },
                    )
                },
                Err(e) => {
                    &&& final(self)@ == old(self)@
                    &&& e == if u >= old(self)@.nodes || v >= old(self)@.nodes {
                        GraphError::InvalidNodeId
                    } else if (code as int) >= old(self)@.registry.kinds.len() {
                        GraphError::UnknownEdgeCode
                    } else if old(self)@.simple && u == v {
                        GraphError::SelfLoop
                    } else {
                        GraphError::DuplicateEdge
                    }
                    &&& (u >= old(self)@.nodes || v >= old(self)@.nodes || (code as int) >= old(
                        self,
                    )@.registry.kinds.len() || (old(self)@.simple && (u == v || pair_present(
                        old(self)@.pend,
                        u,
                        v,
                    ))))
                },
            },
    {
        if u >= self.n_nodes || v >= self.n_nodes {
            return Err(GraphError::InvalidNodeId);
        }
        let sym = match self.registry.spec_of_code(code) {
            Ok(s) => s.symmetric,
            Err(_) => {
                return Err(GraphError::UnknownEdgeCode);
            },
        };
        if self.simple {
            if u == v {
                return Err(GraphError::SelfLoop);
            }
            let mut j: usize = 0;
            let m = self.pend.len();
            while j < m
                invariant
                    self@ == old(self)@,
                    builder_wf(old(self)@),
                    m == self.pend@.len(),
                    0 <= j <= m,
                    u < old(self)@.nodes,
                    v < old(self)@.nodes,
                    (code as int) < old(self)@.registry.kinds.len(),
                    old(self)@.simple,
                    u != v,
                    forall|q: int|
                        0 <= q < j ==> !((#[trigger] self.pend@[q]).row == u && self.pend@[q].col
                            == v),
                decreases m - j,
            {
                let a = self.pend[j];
                if a.row == u && a.col == v {
                    proof {
                        assert((#[trigger] old(self)@.pend[j as int]).row == u
                            && old(self)@.pend[j as int].col == v);
                        assert(pair_present(old(self)@.pend, u, v));
                    }
                    return Err(GraphError::DuplicateEdge);
                }
                j += 1;
            }
        }
        let a1 = PendingArc { row: u, col: v, etype: code, side: 0 };
        let a2 = PendingArc { row: v, col: u, etype: code, side: if sym { 0 } else { 1 } };
        let ghost p0 = self.pend@;
        self.pend.push(a1);
        self.pend.push(a2);
        proof {
            let oldp = old(self)@.pend;
            let p2 = self.pend@;
            assert(oldp == p0);
            assert(p2 == oldp.push(a1).push(a2));
            if old(self)@.simple {
                assert(!pair_present(oldp, u, v));
                assert(!pair_present(oldp, v, u)) by {
                    if pair_present(oldp, v, u) {
                        let j = choose|j: int|
                            0 <= j < oldp.len() && (#[trigger] oldp[j]).row == v && oldp[j].col
                                == u;
                        let t = j / 2;
                        assert(oldp[2 * t].row == oldp[2 * t + 1].col && oldp[2 * t].col == oldp[2
                            * t + 1].row);
                        if j % 2 == 0 {
                            assert((#[trigger] oldp[j + 1]).row == u && oldp[j + 1].col == v);
                        } else {
                            assert((#[trigger] oldp[j - 1]).row == u && oldp[j - 1].col == v);
                        }
                        assert(pair_present(oldp, u, v));
                    }
                }
            }
            assert forall|t: int| 0 <= t < p2.len() / 2 implies (#[trigger] p2[2 * t]).row == p2[2
                * t + 1].col && p2[2 * t].col == p2[2 * t + 1].row by {
                if 2 * t < oldp.len() {
                    assert(oldp[2 * t].row == oldp[2 * t + 1].col && oldp[2 * t].col == oldp[2 * t
                        + 1].row);
                    assert(p2[2 * t] == oldp[2 * t] && p2[2 * t + 1] == oldp[2 * t + 1]);
                } else {
                    assert(p2[2 * t] == a1 && p2[2 * t + 1] == a2);
                }
            }
        }
        Ok(())
    }

    /// Builds the immutable core: a counting pass per row, a prefix sum into
    /// row offsets, a scatter of every arc into its row's segment, and a sort
    /// of each segment ascending by neighbor id. Consumes the builder, so a
    /// finalized builder cannot be reused; the build itself cannot fail.
    pub fn finalize(self) -> (r: Result<CaugiGraph, GraphError>)
        requires
            builder_wf(self@),
        ensures
            r is Ok,
            match r {
                Ok(c) => {
                    &&& c@.wf()
                    &&& c@.nodes == self@.nodes
                    &&& c@.simple == self@.simple
                    &&& c@.registry == self@.registry
                    &&& forall|i: int|
                        0 <= i < c@.nodes ==> row_entries(c@, i).to_multiset() == pend_row(
                            self@.pend,
                            i,
                        ).to_multiset()
                    &&& forall|i: int|
                        0 <= i < c@.nodes ==> sorted_by(row_entries(c@, i), entry_le())
                },
                Err(_) => true,
            },
    {
        let n = self.n_nodes as usize;
        let m = self.pend.len();
        let ghost p = self.pend@;

        // Counting pass: counts[t] = number of pending arcs of row t.
        let mut counts: Vec<usize> = vec![0usize; n];
        let mut j: usize = 0;
        while j < m
            invariant
                builder_wf(self@),
                p == self.pend@,
                n == self@.nodes as usize,
                m == p.len(),
                counts@.len() == n,
                0 <= j <= m,
                forall|t: int| 0 <= t < n ==> counts@[t] == cnt_row(p.take(j as int), t),
            decreases m - j,
        {
            let a = self.pend[j];
            proof {
                assert((#[trigger] p[j as int]).row < self@.nodes);
                lemma_cnt_row_le_len(p.take(j as int), a.row as int);
                assert(p.take(j as int).len() == j);
            }
            let c0 = counts[a.row as usize];
            counts[a.row as usize] = c0 + 1;
            proof {
                assert(p.take(j as int + 1).drop_last() =~= p.take(j as int));
                assert(p.take(j as int).push(p[j as int]) =~= p.take(j as int + 1));
                assert forall|t: int| 0 <= t < n implies counts@[t] == cnt_row(
                    p.take(j as int + 1),
                    t,
                ) by {
                    lemma_pend_row_push(p.take(j as int), p[j as int], t);
                }
            }
            j += 1;
        }
        proof {
            assert(p.take(m as int) =~= p);
        }

        // Prefix sum: row_ranges[i] = number of pending arcs of rows below i.
        let mut row_ranges: Vec<usize> = Vec::new();
        row_ranges.push(0);
        let mut i: usize = 0;
        while i < n
            invariant
                builder_wf(self@),
                p == self.pend@,
                n == self@.nodes as usize,
                m == p.len(),
                counts@.len() == n,
                0 <= i <= n,
                row_ranges@.len() == i + 1,
                forall|t: int| 0 <= t < n ==> counts@[t] == cnt_row(p, t),
                forall|t: int| 0 <= t <= i ==> row_ranges@[t] == cnt_rows_lt(p, t),
            decreases n - i,
        {
            let r0 = row_ranges[i];
            let c = counts[i];
            proof {
                lemma_cnt_rows_lt_le_len(p, i as int + 1);
                assert(cnt_rows_lt(p, i as int + 1) == cnt_rows_lt(p, i as int) + cnt_row(
                    p,
                    i as int,
                ));
            }
            row_ranges.push(r0 + c);
            i += 1;
        }
        let total = row_ranges[n];
        proof {
            assert forall|j2: int| 0 <= j2 < p.len() implies ((#[trigger] p[j2]).row as int) < (
            n as int) by {}
            lemma_cnt_rows_lt_all(p, n as int);
            assert(total == m);
        }

        // Scatter: each arc lands at its row's cursor.
        let mut entries: Vec<ArcEntry> = vec![ArcEntry { col: 0, etype: 0, side: 0 };total];
        let mut cur: Vec<usize> = Vec::new();
        let mut t0: usize = 0;
        while t0 < n
            invariant
                row_ranges@.len() == n + 1,
                0 <= t0 <= n,
                cur@.len() == t0,
                forall|t: int| 0 <= t < t0 ==> cur@[t] == row_ranges@[t],
            decreases n - t0,
        {
            cur.push(row_ranges[t0]);
            t0 += 1;
        }
        proof {
            assert forall|t: int| 0 <= t <= n implies (#[trigger] row_ranges@[t]) <= total by {
                lemma_cnt_rows_lt_le_len(p, t);
            }
            assert(p.take(0) =~= Seq::<PendingArc>::empty());
            assert forall|t: int| 0 <= t < n implies #[trigger] entries@.subrange(
                row_ranges@[t] as int,
                cur@[t] as int,
            ) == pend_row(p.take(0), t) by {
                assert(entries@.subrange(row_ranges@[t] as int, cur@[t] as int)
                    =~= Seq::<ArcEntry>::empty());
                assert(pend_row(p.take(0), t) =~= Seq::<ArcEntry>::empty());
            }
        }
        let mut j: usize = 0;
        while j < m
            invariant
                builder_wf(self@),
                p == self.pend@,
                n == self@.nodes as usize,
                m == p.len(),
                total == m,
                entries@.len() == total,
                row_ranges@.len() == n + 1,
                cur@.len() == n,
                0 <= j <= m,
                forall|t: int| 0 <= t <= n ==> row_ranges@[t] == cnt_rows_lt(p, t),
                forall|t: int| 0 <= t <= n ==> (#[trigger] row_ranges@[t]) <= total,
                forall|t: int|
                    0 <= t < n ==> cur@[t] == row_ranges@[t] + cnt_row(p.take(j as int), t),
                forall|t: int|
                    0 <= t < n ==> entries@.subrange(row_ranges@[t] as int, cur@[t] as int)
                        == pend_row(p.take(j as int), t),
            decreases m - j,
        {
            let a = self.pend[j];
            let ti = a.row as usize;
            proof {
                assert((#[trigger] p[j as int]).row < self@.nodes);
                assert(p.take(m as int) =~= p);
                lemma_cnt_row_take_le(p, ti as int, j as int + 1, m as int);
                assert(p.take(j as int).push(p[j as int]) =~= p.take(j as int + 1));
                lemma_pend_row_push(p.take(j as int), p[j as int], ti as int);
                assert(cnt_row(p.take(j as int + 1), ti as int) == cnt_row(p.take(j as int), ti as int) + 1);
                assert(cnt_row(p.take(j as int + 1), ti as int) <= cnt_row(p, ti as int));
                assert(cnt_rows_lt(p, ti as int + 1) == cnt_rows_lt(p, ti as int) + cnt_row(
                    p,
                    ti as int,
                ));
                assert(row_ranges@[ti as int + 1] == row_ranges@[ti as int] + cnt_row(p, ti as int));
            }
            let pos = cur[ti];
            let e = ArcEntry { col: a.col, etype: a.etype, side: a.side };
            let ghost before = entries@;
            entries[pos] = e;
            cur[ti] = pos + 1;
            proof {
                let jj = j as int;
                assert(entries@ == before.update(pos as int, e));
                assert forall|t: int| 0 <= t < n implies cur@[t] == row_ranges@[t] + cnt_row(
                    p.take(jj + 1),
                    t,
                ) by {
                    lemma_pend_row_push(p.take(jj), p[jj], t);
                }
                assert forall|t: int| 0 <= t < n implies entries@.subrange(
                    row_ranges@[t] as int,
                    cur@[t] as int,
                ) == pend_row(p.take(jj + 1), t) by {
                    lemma_pend_row_push(p.take(jj), p[jj], t);
                    if t == ti as int {
                        assert(entries@.subrange(row_ranges@[t] as int, pos as int + 1)
                            =~= before.subrange(row_ranges@[t] as int, pos as int).push(e));
                    } else {
                        assert(cnt_rows_lt(p, t + 1) == cnt_rows_lt(p, t) + cnt_row(p, t));
                        lemma_cnt_row_take_le(p, t, jj, m as int);
                        assert(cur@[t] as int <= row_ranges@[t + 1] as int);
                        if t < ti as int {
                            lemma_cnt_rows_lt_mono(p, t + 1, ti as int);
                            assert(row_ranges@[t + 1] <= row_ranges@[ti as int]);
                            assert(cur@[t] as int <= pos as int);
                        } else {
                            lemma_cnt_rows_lt_mono(p, ti as int + 1, t);
                            assert(pos as int + 1 <= row_ranges@[ti as int + 1] as int);
                            assert(row_ranges@[ti as int + 1] <= row_ranges@[t]);
                        }
                        assert(entries@.subrange(row_ranges@[t] as int, cur@[t] as int)
                            =~= before.subrange(row_ranges@[t] as int, cur@[t] as int));
                    }
                }
            }
            j += 1;
        }
        proof {
            assert(p.take(m as int) =~= p);
            assert forall|t: int| 0 <= t < n implies #[trigger] entries@.subrange(
                row_ranges@[t] as int,
                row_ranges@[t + 1] as int,
            ) == pend_row(p, t) by {
                assert(cnt_rows_lt(p, t + 1) == cnt_rows_lt(p, t) + cnt_row(p, t));
                assert(cur@[t] == row_ranges@[t] + cnt_row(p, t));
                assert(row_ranges@[t + 1] as int == cur@[t] as int);
            }
        }

        // Per-row sort by neighbor id.
        let mut i: usize = 0;
        while i < n
            invariant
                builder_wf(self@),
                p == self.pend@,
                n == self@.nodes as usize,
                m == p.len(),
                total == m,
                entries@.len() == total,
                row_ranges@.len() == n + 1,
                0 <= i <= n,
                forall|t: int| 0 <= t <= n ==> row_ranges@[t] == cnt_rows_lt(p, t),
                forall|t: int| 0 <= t <= n ==> (#[trigger] row_ranges@[t]) <= total,
                forall|t: int|
                    i <= t < n ==> #[trigger] entries@.subrange(
                        row_ranges@[t] as int,
                        row_ranges@[t + 1] as int,
                    ) == pend_row(p, t),
                forall|t: int|
                    0 <= t < i ==> #[trigger] entries@.subrange(
                        row_ranges@[t] as int,
                        row_ranges@[t + 1] as int,
                    ).to_multiset() == pend_row(p, t).to_multiset(),
                forall|t: int|
                    0 <= t < i ==> sorted_by(
                        #[trigger] entries@.subrange(row_ranges@[t] as int, row_ranges@[t + 1] as int),
                        entry_le(),
                    ),
            decreases n - i,
        {
            let s0 = row_ranges[i];
            let e0 = row_ranges[i + 1];
            proof {
                lemma_cnt_row_le_len(p, i as int);
                lemma_cnt_rows_lt_mono(p, i as int + 1, n as int);
                lemma_cnt_rows_lt_all(p, n as int);
                assert(cnt_rows_lt(p, i as int + 1) == cnt_rows_lt(p, i as int) + cnt_row(
                    p,
                    i as int,
                ));
                assert(s0 <= e0);
                assert(e0 <= total);
            }
            let mut tmp: Vec<ArcEntry> = Vec::new();
            let mut k: usize = s0;
            while k < e0
                invariant
                    entries@.len() == total,
                    s0 <= k <= e0,
                    e0 <= total,
                    tmp@ == entries@.subrange(s0 as int, k as int),
                decreases e0 - k,
            {
                let x = entries[k];
                tmp.push(x);
                proof {
                    assert(entries@.subrange(s0 as int, k as int + 1) =~= entries@.subrange(
                        s0 as int,
                        k as int,
                    ).push(x));
                }
                k += 1;
            }
            let srt = sorted_entries(&tmp);
            let ghost before = entries@;
            let mut q: usize = 0;
            while q < e0 - s0
                invariant
                    entries@.len() == total,
                    before.len() == total,
                    srt@.len() == e0 - s0,
                    s0 <= e0 <= total,
                    0 <= q <= e0 - s0,
                    forall|x: int| 0 <= x < total && !(s0 <= x < s0 + q) ==> entries@[x] == before[x],
                    forall|x: int| 0 <= x < q ==> entries@[s0 + x] == srt@[x],
                decreases e0 - s0 - q,
            {
                let v = srt[q];
                entries[s0 + q] = v;
                q += 1;
            }
            proof {
                let ii = i as int;
                assert(entries@.subrange(row_ranges@[ii] as int, row_ranges@[ii + 1] as int)
                    =~= srt@);
                assert(tmp@ == before.subrange(s0 as int, e0 as int));
                assert forall|t: int|
                    0 <= t < n && t != ii implies #[trigger] entries@.subrange(
                    row_ranges@[t] as int,
                    row_ranges@[t + 1] as int,
                ) =~= before.subrange(row_ranges@[t] as int, row_ranges@[t + 1] as int) by {
                    assert(cnt_rows_lt(p, t + 1) == cnt_rows_lt(p, t) + cnt_row(p, t));
                    lemma_cnt_row_le_len(p, t);
                    if t < ii {
                        lemma_cnt_rows_lt_mono(p, t + 1, ii);
                        assert(row_ranges@[t + 1] <= row_ranges@[ii]);
                    } else {
                        lemma_cnt_rows_lt_mono(p, ii + 1, t);
                        assert(row_ranges@[ii + 1] <= row_ranges@[t]);
                    }
                }
            }
            i += 1;
        }

        // Assemble and prove well-formedness.
        let core = CaugiGraph {
            registry: self.registry,
            n_nodes: self.n_nodes,
            simple: self.simple,
            row_ranges,
            entries,
        };
        proof {
            let g = core@;
            assert(cnt_rows_lt(p, 0) == 0);
            assert(g.row_ranges[0] == 0);
            assert(g.row_ranges[g.nodes as int] == g.entries.len());
            assert forall|t: int| 0 <= t < g.nodes implies (#[trigger] g.row_ranges[t])
                <= g.row_ranges[t + 1] by {
                assert(cnt_rows_lt(p, t + 1) == cnt_rows_lt(p, t) + cnt_row(p, t));
                lemma_cnt_row_le_len(p, t);
            }
            assert forall|t: int| 0 <= t < g.nodes implies row_entries(g, t).to_multiset()
                == pend_row(p, t).to_multiset() by {}
            assert forall|k: int| 0 <= k < g.entries.len() implies ((#[trigger] g.entries[k]).col
                < g.nodes && (g.entries[k].etype as int) < g.registry.kinds.len() && (
            g.entries[k].side == 0 || g.entries[k].side == 1)) by {
                broadcast use vstd::seq_lib::group_to_multiset_ensures;

                let t = tile_row(g.row_ranges, g.nodes as int, k, 0);
                let s = row_entries(g, t);
                let e = g.entries[k];
                assert(s[k - g.row_ranges[t] as int] == e);
                assert(s.contains(e));
                assert(s.to_multiset().count(e) > 0);
                assert(pend_row(p, t).to_multiset().count(e) > 0);
                assert(pend_row(p, t).contains(e));
                lemma_pend_row_contains(p, t, e);
                let j2 = choose|j2: int|
                    0 <= j2 < p.len() && (#[trigger] p[j2]).row == t && arc_of(p[j2]) == e;
                assert(p[j2].col < self@.nodes);
            }
            if g.simple {
                assert forall|t: int, k1: int, k2: int|
                    g.in_row(t, k1) && g.in_row(t, k2) && k1 != k2 implies g.entries[k1].col
                    != g.entries[k2].col by {
                    lemma_pend_row_distinct(p, t);
                    lemma_distinct_cols_multiset(pend_row(p, t), row_entries(g, t));
                    let s = row_entries(g, t);
                    let a1 = k1 - g.row_ranges[t] as int;
                    let a2 = k2 - g.row_ranges[t] as int;
                    assert(s[a1] == g.entries[k1] && s[a2] == g.entries[k2]);
                    if a1 < a2 {
                        assert(s[a1].col != s[a2].col);
                    } else {
                        assert(s[a2].col != s[a1].col);
                    }
                }
                assert forall|t: int, k: int| g.in_row(t, k) implies (g.entries[k].col as int)
                    != t by {
                    broadcast use vstd::seq_lib::group_to_multiset_ensures;

                    let s = row_entries(g, t);
                    let e = g.entries[k];
                    assert(s[k - g.row_ranges[t] as int] == e);
                    assert(s.contains(e));
                    assert(s.to_multiset().count(e) > 0);
                    assert(pend_row(p, t).to_multiset().count(e) > 0);
                    assert(pend_row(p, t).contains(e));
                    lemma_pend_row_contains(p, t, e);
                    let j2 = choose|j2: int|
                        0 <= j2 < p.len() && (#[trigger] p[j2]).row == t && arc_of(p[j2]) == e;
                    assert(p[j2].row != p[j2].col);
                }
            }
            assert(g.wf());
        }
        Ok(core)
    }
}

} // verus!
