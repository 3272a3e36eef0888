//! The compressed multigraph core: nodes `0..n` and arcs grouped by source
//! node. Each arc carries the neighbor id, an edge-type code into the
//! registry, and a side bit that tells which endpoint of an asymmetric edge
//! the arc represents (0 = tail side, 1 = head side).

use vstd::prelude::*;
use crate::edges::{EdgeClass, EdgeRegistry, RegistryV};
use crate::errors::GraphError;

verus! {

/// One stored arc: the neighbor it points at, its edge-type code, and the
/// side bit of asymmetric edges.
#[derive(Clone, Copy, Debug, PartialEq, Eq, Structural)]
pub struct ArcEntry {
    /// Neighbor node id.
    pub col: u32,
    /// Edge-type code into the registry.
    pub etype: u8,
    /// 0 when this row is the tail endpoint, 1 when it is the head.
    pub side: u8,
}

/// Mathematical image of a `CaugiGraph`.
pub struct GraphV {
    pub nodes: u32,
    pub simple: bool,
    pub registry: RegistryV,
    pub row_ranges: Seq<usize>,
    pub entries: Seq<ArcEntry>,
}

impl GraphV {
    /// Arc `k` lies in node `i`'s row.
    pub open spec fn in_row(self, i: int, k: int) -> bool {
        0 <= i < self.nodes && self.row_ranges[i] <= k < self.row_ranges[i + 1]
    }

    /// Edge class of arc `k`, read through the registry.
    pub open spec fn class_at(self, k: int) -> EdgeClass {
        self.registry.kinds[self.entries[k].etype as int].class
    }

    /// Number of arcs in node `i`'s row.
    pub open spec fn row_len(self, i: int) -> int {
        self.row_ranges[i + 1] - self.row_ranges[i]
    }

    /// Structural well-formedness: rows tile the arc array and every arc's
    /// fields are in range. A simple graph also has, per row, pairwise
    /// distinct neighbors and no self-loop.
    pub open spec fn wf(self) -> bool {
        &&& self.row_ranges.len() == self.nodes + 1
        &&& self.row_ranges[0] == 0
        &&& self.row_ranges[self.nodes as int] == self.entries.len()
        &&& forall|i: int|
            0 <= i < self.nodes ==> (#[trigger] self.row_ranges[i]) <= self.row_ranges[i + 1]
        &&& forall|k: int|
            0 <= k < self.entries.len() ==> ((#[trigger] self.entries[k]).col as int)
                < self.nodes
        &&& forall|k: int|
            0 <= k < self.entries.len() ==> ((#[trigger] self.entries[k]).etype as int)
                < self.registry.kinds.len()
        &&& forall|k: int|
            0 <= k < self.entries.len() ==> ((#[trigger] self.entries[k]).side == 0
                || self.entries[k].side == 1)
        &&& (self.simple ==> forall|i: int, k1: int, k2: int|
            #[trigger] self.in_row(i, k1) && #[trigger] self.in_row(i, k2) && k1 != k2
                ==> self.entries[k1].col != self.entries[k2].col)
        &&& (self.simple ==> forall|i: int, k: int|
            #[trigger] self.in_row(i, k) ==> (self.entries[k].col as int) != i)
    }

    /// An arc in `v`'s row showing `u` as a directed parent of `v` (when
    /// `up`), or as a directed child of `v` (when not).
    pub open spec fn dir_adj(self, up: bool, u: int, v: int) -> bool {
        exists|k: int|
            #[trigger] self.in_row(v, k) && self.class_at(k) == EdgeClass::Directed
                && self.entries[k].side == (if up {
                1u8
            } else {
                0u8
            }) && self.entries[k].col as int == u
    }

    /// An arc in `v`'s row of the given class showing neighbor `u`.
    pub open spec fn class_adj(self, c: EdgeClass, u: int, v: int) -> bool {
        exists|k: int|
            #[trigger] self.in_row(v, k) && self.class_at(k) == c && self.entries[k].col as int
                == u
    }

    /// A directed edge u -> v recorded from either endpoint's row.
    pub open spec fn dir_edge(self, u: int, v: int) -> bool {
        self.dir_adj(false, v, u) || self.dir_adj(true, u, v)
    }

    /// Every step of `p` moves from a node to one of its directed parents
    /// (when `up`) or children (when not).
    pub open spec fn dir_chain(self, up: bool, p: Seq<int>) -> bool {
        forall|j: int| #![trigger p[j]] 0 <= j < p.len() - 1 ==> self.dir_adj(up, p[j + 1], p[j])
    }

    /// Node `u` is reached from `s` by one or more parent steps (when `up`)
    /// or child steps (when not): the ancestor / descendant relation.
    pub open spec fn dir_reaches(self, up: bool, s: int, u: int) -> bool {
        exists|p: Seq<int>|
            p.len() >= 2 && p[0] == s && p[p.len() - 1] == u && #[trigger] self.dir_chain(up, p)
    }

    /// `ord` is a topological order of the directed sub-part: all nodes once,
    /// every directed edge going forward.
    pub open spec fn topo_order_ok(self, ord: Seq<int>) -> bool {
        &&& ord.no_duplicates()
        &&& ord.len() == self.nodes
        &&& forall|v: int| 0 <= v < self.nodes ==> ord.contains(v)
        &&& forall|u: int, v: int, j1: int, j2: int|
            #[trigger] self.dir_edge(u, v) && 0 <= j1 < ord.len() && 0 <= j2 < ord.len() && (
            #[trigger] ord[j1]) == u && (#[trigger] ord[j2]) == v ==> j1 < j2
    }

    /// The directed sub-part is acyclic: some topological order exists.
    pub open spec fn directed_acyclic(self) -> bool {
        exists|ord: Seq<int>| #[trigger] self.topo_order_ok(ord)
    }

    /// The neighbors among the first `j` arcs of row `i` picked by `sel`,
    /// in row order.
    pub open spec fn sel_cols_upto(self, i: int, sel: spec_fn(GraphV, int) -> bool, j: int) -> Seq<
        u32,
    >
        decreases j,
    {
        if j <= 0 {
            Seq::empty()
        } else {
            let k = self.row_ranges[i] + j - 1;
            let prev = self.sel_cols_upto(i, sel, j - 1);
            if sel(self, k) {
                prev.push(self.entries[k].col)
            } else {
                prev
            }
        }
    }

    /// The neighbors of row `i` picked by `sel`, in row order.
    pub open spec fn sel_cols(self, i: int, sel: spec_fn(GraphV, int) -> bool) -> Seq<u32> {
        self.sel_cols_upto(i, sel, self.row_len(i))
    }

    /// Directed parents of `i`, in row order.
    pub open spec fn parent_cols(self, i: int) -> Seq<u32> {
        self.sel_cols(i, parent_sel())
    }

    /// Directed children of `i`, in row order.
    pub open spec fn child_cols(self, i: int) -> Seq<u32> {
        self.sel_cols(i, child_sel())
    }

    /// Neighbors of `i` through arcs of class `c`, in row order.
    pub open spec fn class_cols(self, i: int, c: EdgeClass) -> Seq<u32> {
        self.sel_cols(i, class_sel(c))
    }

    /// All neighbors of `i`, in row order.
    pub open spec fn all_cols(self, i: int) -> Seq<u32> {
        self.sel_cols(i, all_sel())
    }
}

/// Selects arcs that show a directed parent: directed class, head side.
pub open spec fn parent_sel() -> spec_fn(GraphV, int) -> bool {
    |g: GraphV, k: int| g.class_at(k) == EdgeClass::Directed && g.entries[k].side == 1
}

/// Selects arcs that show a directed child: directed class, tail side.
pub open spec fn child_sel() -> spec_fn(GraphV, int) -> bool {
    |g: GraphV, k: int| g.class_at(k) == EdgeClass::Directed && g.entries[k].side == 0
}

/// Selects arcs of one edge class.
pub open spec fn class_sel(c: EdgeClass) -> spec_fn(GraphV, int) -> bool {
    |g: GraphV, k: int| g.class_at(k) == c
}

/// Selects every arc.
pub open spec fn all_sel() -> spec_fn(GraphV, int) -> bool {
    |g: GraphV, k: int| true
}

/// Row offsets are monotone across any span, not only between neighbors.
pub proof fn lemma_ranges_monotone(g: GraphV, i: int, j: int)
    requires
        g.wf(),
        0 <= i <= j <= g.nodes,
    ensures
        g.row_ranges[i] <= g.row_ranges[j],
    decreases j - i,
{
    if i < j {
        lemma_ranges_monotone(g, i + 1, j);
    }
}

/// Every arc lies in exactly one row; this returns it.
pub proof fn row_of_entry(g: GraphV, k: int) -> (i: int)
    requires
        g.wf(),
        0 <= k < g.entries.len(),
    ensures
        g.in_row(i, k),
{
    row_search(g, k, 0)
}

proof fn row_search(g: GraphV, k: int, i: int) -> (r: int)
    requires
        g.wf(),
        0 <= i < g.nodes,
        g.row_ranges[i] <= k < g.entries.len(),
    ensures
        g.in_row(r, k),
    decreases g.nodes - i,
{
    if k < g.row_ranges[i + 1] {
        i
    } else {
        assert(i + 1 < g.nodes) by {
            if i + 1 == g.nodes {
                assert(g.row_ranges[i + 1] == g.entries.len());
            }
        }
        row_search(g, k, i + 1)
    }
}

/// What `sel_cols_upto` holds: exactly the selected neighbors of the first
/// `j` arcs of the row.
pub proof fn lemma_sel_cols_upto_contains(
    g: GraphV,
    i: int,
    sel: spec_fn(GraphV, int) -> bool,
    j: int,
    u: u32,
)
    requires
        g.wf(),
        0 <= i < g.nodes,
        0 <= j <= g.row_len(i),
    ensures
        g.sel_cols_upto(i, sel, j).contains(u) <==> exists|k: int|
            g.row_ranges[i] <= k < g.row_ranges[i] + j && sel(g, #[trigger] trigger_k(k))
                && g.entries[k].col == u,
    decreases j,
{
    if j > 0 {
        lemma_sel_cols_upto_contains(g, i, sel, j - 1, u);
        let s = g.sel_cols_upto(i, sel, j);
        let prev = g.sel_cols_upto(i, sel, j - 1);
        let kk = g.row_ranges[i] + j - 1;
        if sel(g, kk) {
            assert(s == prev.push(g.entries[kk].col));
            if s.contains(u) {
                let idx = choose|idx: int| 0 <= idx < s.len() && s[idx] == u;
                if idx < prev.len() {
                    assert(prev[idx] == u);
                    assert(prev.contains(u));
                    let k = choose|k: int|
                        g.row_ranges[i] <= k < g.row_ranges[i] + (j - 1) && sel(
                            g,
                            #[trigger] trigger_k(k),
                        ) && g.entries[k].col == u;
                    assert(sel(g, trigger_k(k)));
                } else {
                    assert(g.entries[kk].col == u);
                    assert(sel(g, trigger_k(kk)));
                }
            }
            if exists|k: int|
                g.row_ranges[i] <= k < g.row_ranges[i] + j && sel(g, #[trigger] trigger_k(k))
                    && g.entries[k].col == u {
                let k = choose|k: int|
                    g.row_ranges[i] <= k < g.row_ranges[i] + j && sel(g, #[trigger] trigger_k(k))
                        && g.entries[k].col == u;
                if k == kk {
                    assert(s[s.len() - 1] == u);
                    assert(s.contains(u));
                } else {
                    assert(g.row_ranges[i] <= k < g.row_ranges[i] + (j - 1));
                    assert(prev.contains(u));
                    let idx = choose|idx: int| 0 <= idx < prev.len() && prev[idx] == u;
                    assert(s[idx] == u);
                    assert(s.contains(u));
                }
            }
        } else {
            assert(s == prev);
            if exists|k: int|
                g.row_ranges[i] <= k < g.row_ranges[i] + j && sel(g, #[trigger] trigger_k(k))
                    && g.entries[k].col == u {
                let k = choose|k: int|
                    g.row_ranges[i] <= k < g.row_ranges[i] + j && sel(g, #[trigger] trigger_k(k))
                        && g.entries[k].col == u;
                assert(k != kk);
                assert(g.row_ranges[i] <= k < g.row_ranges[i] + (j - 1));
            }
        }
    }
}

/// Identity helper that gives quantifiers over arc indices a stable trigger.
pub open spec fn trigger_k(k: int) -> int {
    k
}

/// The selected-neighbor list of a full row holds exactly the selected
/// neighbors of that row.
pub proof fn lemma_sel_cols_contains(g: GraphV, i: int, sel: spec_fn(GraphV, int) -> bool, u: u32)
    requires
        g.wf(),
        0 <= i < g.nodes,
    ensures
        g.sel_cols(i, sel).contains(u) <==> exists|k: int|
            g.in_row(i, #[trigger] trigger_k(k)) && sel(g, k) && g.entries[k].col == u,
{
    lemma_sel_cols_upto_contains(g, i, sel, g.row_len(i), u);
}

/// In a simple graph, selected-neighbor lists have no duplicates.
pub proof fn lemma_sel_cols_distinct(g: GraphV, i: int, sel: spec_fn(GraphV, int) -> bool, j: int)
    requires
        g.wf(),
        g.simple,
        0 <= i < g.nodes,
        0 <= j <= g.row_len(i),
    ensures
        g.sel_cols_upto(i, sel, j).no_duplicates(),
    decreases j,
{
    if j > 0 {
        lemma_sel_cols_distinct(g, i, sel, j - 1);
        let kk = g.row_ranges[i] + j - 1;
        if sel(g, kk) {
            lemma_sel_cols_upto_contains(g, i, sel, j - 1, g.entries[kk].col);
            assert(!g.sel_cols_upto(i, sel, j - 1).contains(g.entries[kk].col)) by {
                if exists|k: int|
                    g.row_ranges[i] <= k < g.row_ranges[i] + (j - 1) && sel(
                        g,
                        #[trigger] trigger_k(k),
                    ) && g.entries[k].col == g.entries[kk].col {
                    let k = choose|k: int|
                        g.row_ranges[i] <= k < g.row_ranges[i] + (j - 1) && sel(
                            g,
                            #[trigger] trigger_k(k),
                        ) && g.entries[k].col == g.entries[kk].col;
                    assert(g.in_row(i, k) && g.in_row(i, kk) && k != kk);
                    assert(false);
                }
            }
        }
    }
}

/// Two selectors that agree on a row pick the same neighbor list.
pub proof fn lemma_sel_cols_eq(
    g: GraphV,
    i: int,
    s1: spec_fn(GraphV, int) -> bool,
    s2: spec_fn(GraphV, int) -> bool,
    j: int,
)
    requires
        g.wf(),
        0 <= i < g.nodes,
        0 <= j <= g.row_len(i),
        forall|k: int| g.in_row(i, #[trigger] trigger_k(k)) ==> s1(g, k) == s2(g, k),
    ensures
        g.sel_cols_upto(i, s1, j) == g.sel_cols_upto(i, s2, j),
    decreases j,
{
    if j > 0 {
        lemma_sel_cols_eq(g, i, s1, s2, j - 1);
        let kk = g.row_ranges[i] + j - 1;
        assert(g.in_row(i, trigger_k(kk)));
    }
}

/// Both endpoints of a directed edge are nodes of the graph.
pub proof fn lemma_dir_edge_bounds(g: GraphV, u: int, v: int)
    requires
        g.wf(),
        g.dir_edge(u, v),
    ensures
        0 <= u < g.nodes,
        0 <= v < g.nodes,
{
    if g.dir_adj(false, v, u) {
        let k = choose|k: int|
            #[trigger] g.in_row(u, k) && g.class_at(k) == EdgeClass::Directed && g.entries[k].side
                == 0 && g.entries[k].col as int == v;
        lemma_ranges_monotone(g, u + 1, g.nodes as int);
        assert(0 <= k < g.entries.len());
        assert((g.entries[k].col as int) < g.nodes);
    } else {
        let k = choose|k: int|
            #[trigger] g.in_row(v, k) && g.class_at(k) == EdgeClass::Directed && g.entries[k].side
                == 1 && g.entries[k].col as int == u;
        lemma_ranges_monotone(g, v + 1, g.nodes as int);
        assert(0 <= k < g.entries.len());
        assert((g.entries[k].col as int) < g.nodes);
    }
}

proof fn lemma_walk_positions(g: GraphV, ord: Seq<int>, w: Seq<int>, p0: int, pl: int)
    requires
        g.wf(),
        g.topo_order_ok(ord),
        w.len() >= 2,
        forall|j: int| #![trigger w[j]] 0 <= j < w.len() - 1 ==> g.dir_edge(w[j], w[j + 1]),
        0 <= p0 < ord.len(),
        0 <= pl < ord.len(),
        ord[p0] == w[0],
        ord[pl] == w[w.len() - 1],
    ensures
        p0 < pl,
    decreases w.len(),
{
    assert(g.dir_edge(w[0], w[1]));
    if w.len() == 2 {
    } else {
        let w2 = w.subrange(1, w.len() as int);
        lemma_dir_edge_bounds(g, w[0], w[1]);
        assert(ord.contains(w[1]));
        let p1 = choose|p1: int| 0 <= p1 < ord.len() && ord[p1] == w[1];
        assert(p0 < p1);
        assert forall|j: int| #![trigger w2[j]] 0 <= j < w2.len() - 1 implies g.dir_edge(
            w2[j],
            w2[j + 1],
        ) by {
            assert(w2[j] == w[j + 1] && w2[j + 1] == w[j + 2]);
            assert(g.dir_edge(w[j + 1], w[j + 2]));
        }
        lemma_walk_positions(g, ord, w2, p1, pl);
    }
}

/// A closed directed walk rules out every topological order: a graph whose
/// arcs hold such a walk never validates as acyclic.
pub proof fn lemma_cycle_not_acyclic(g: GraphV, w: Seq<int>)
    requires
        g.wf(),
        w.len() >= 2,
        w[0] == w[w.len() - 1],
        forall|j: int| #![trigger w[j]] 0 <= j < w.len() - 1 ==> g.dir_edge(w[j], w[j + 1]),
    ensures
        !g.directed_acyclic(),
{
    if g.directed_acyclic() {
        let ord = choose|ord: Seq<int>| #[trigger] g.topo_order_ok(ord);
        lemma_dir_edge_bounds(g, w[0], w[1]);
        assert(ord.contains(w[0]));
        let p0 = choose|p0: int| 0 <= p0 < ord.len() && ord[p0] == w[0];
        lemma_walk_positions(g, ord, w, p0, p0);
    }
}

/// In an acyclic graph no node is its own ancestor or descendant.
pub proof fn lemma_no_self_reach(g: GraphV, up: bool, i: int)
    requires
        g.wf(),
        g.directed_acyclic(),
    ensures
        !g.dir_reaches(up, i, i),
{
    if g.dir_reaches(up, i, i) {
        let p = choose|p: Seq<int>|
            p.len() >= 2 && p[0] == i && p[p.len() - 1] == i && #[trigger] g.dir_chain(up, p);
        let w = if up {
            p.reverse()
        } else {
            p
        };
        assert(w.len() == p.len());
        assert(w[0] == i && w[w.len() - 1] == i);
        assert forall|j: int| #![trigger w[j]] 0 <= j < w.len() - 1 implies g.dir_edge(
            w[j],
            w[j + 1],
        ) by {
            if up {
                let j2 = p.len() - 2 - j;
                assert(w[j] == p[j2 + 1] && w[j + 1] == p[j2]);
                assert(g.dir_adj(up, p[j2 + 1], p[j2]));
                assert(g.dir_edge(p[j2 + 1], p[j2]));
            } else {
                assert(g.dir_adj(up, p[j + 1], p[j]));
                assert(g.dir_edge(p[j], p[j + 1]));
            }
        }
        lemma_cycle_not_acyclic(g, w);
    }
}

/// Every id a selector picks is a node of the graph.
pub proof fn lemma_sel_cols_in_range(g: GraphV, i: int, sel: spec_fn(GraphV, int) -> bool)
    requires
        g.wf(),
        0 <= i < g.nodes,
    ensures
        forall|u: u32|
            #[trigger] g.sel_cols(i, sel).contains(u) ==> (u as int) < g.nodes,
{
    assert forall|u: u32| #[trigger] g.sel_cols(i, sel).contains(u) implies (u as int)
        < g.nodes by {
        lemma_sel_cols_contains(g, i, sel, u);
        let k = choose|k: int| g.in_row(i, #[trigger] trigger_k(k)) && sel(g, k) && g.entries[k].col == u;
        lemma_ranges_monotone(g, i + 1, g.nodes as int);
        assert(0 <= k < g.entries.len());
        assert((g.entries[k].col as int) < g.nodes);
    }
}

/// The parent selector when `up`, else the child selector.
pub open spec fn dir_sel(up: bool) -> spec_fn(GraphV, int) -> bool {
    if up {
        parent_sel()
    } else {
        child_sel()
    }
}

/// The parent and child lists name exactly the directed-adjacency relation.
pub proof fn lemma_dir_cols_adj(g: GraphV, i: int, up: bool)
    requires
        g.wf(),
        0 <= i < g.nodes,
    ensures
        forall|u: u32|
            #[trigger] g.sel_cols(i, dir_sel(up)).contains(u) <==> g.dir_adj(up, u as int, i),
{
    let sel = dir_sel(up);
    assert forall|u: u32| #[trigger] g.sel_cols(i, sel).contains(u) <==> g.dir_adj(
        up,
        u as int,
        i,
    ) by {
        lemma_sel_cols_contains(g, i, sel, u);
        if g.sel_cols(i, sel).contains(u) {
            let k = choose|k: int|
                g.in_row(i, #[trigger] trigger_k(k)) && sel(g, k) && g.entries[k].col == u;
            assert(g.in_row(i, k) && g.class_at(k) == EdgeClass::Directed && g.entries[k].side
                == (if up { 1u8 } else { 0u8 }) && g.entries[k].col as int == u as int);
        }
        if g.dir_adj(up, u as int, i) {
            let k = choose|k: int|
                #[trigger] g.in_row(i, k) && g.class_at(k) == EdgeClass::Directed
                    && g.entries[k].side == (if up { 1u8 } else { 0u8 }) && g.entries[k].col as int
                    == u as int;
            assert(g.in_row(i, trigger_k(k)) && sel(g, k) && g.entries[k].col == u);
        }
    }
}

/// The parent and child lists name the directed-adjacency relations.
pub proof fn lemma_parent_child_cols_adj(g: GraphV, i: int)
    requires
        g.wf(),
        0 <= i < g.nodes,
    ensures
        forall|u: u32| #[trigger] g.parent_cols(i).contains(u) <==> g.dir_adj(true, u as int, i),
        forall|u: u32| #[trigger] g.child_cols(i).contains(u) <==> g.dir_adj(false, u as int, i),
{
    lemma_dir_cols_adj(g, i, true);
    lemma_dir_cols_adj(g, i, false);
    assert(dir_sel(true) == parent_sel());
    assert(dir_sel(false) == child_sel());
}

/// The per-class lists name exactly the class-adjacency relation.
pub proof fn lemma_class_cols_adj(g: GraphV, i: int, c: EdgeClass)
    requires
        g.wf(),
        0 <= i < g.nodes,
    ensures
        forall|u: u32| #[trigger] g.class_cols(i, c).contains(u) <==> g.class_adj(c, u as int, i),
{
    assert forall|u: u32| #[trigger] g.class_cols(i, c).contains(u) <==> g.class_adj(
        c,
        u as int,
        i,
    ) by {
        lemma_sel_cols_contains(g, i, class_sel(c), u);
        if g.class_cols(i, c).contains(u) {
            let k = choose|k: int|
                g.in_row(i, #[trigger] trigger_k(k)) && class_sel(c)(g, k) && g.entries[k].col
                    == u;
            assert(g.in_row(i, k) && g.class_at(k) == c && g.entries[k].col as int == u as int);
        }
        if g.class_adj(c, u as int, i) {
            let k = choose|k: int|
                #[trigger] g.in_row(i, k) && g.class_at(k) == c && g.entries[k].col as int
                    == u as int;
            assert(g.in_row(i, trigger_k(k)) && class_sel(c)(g, k) && g.entries[k].col == u);
        }
    }
}

/// The endpoint an adjacency arc names is a node of the graph.
pub proof fn lemma_dir_adj_in_range(g: GraphV, up: bool, u: int, v: int)
    requires
        g.wf(),
        g.dir_adj(up, u, v),
    ensures
        0 <= u < g.nodes,
        0 <= v < g.nodes,
{
    let k = choose|k: int|
        #[trigger] g.in_row(v, k) && g.class_at(k) == EdgeClass::Directed && g.entries[k].side
            == (if up { 1u8 } else { 0u8 }) && g.entries[k].col as int == u;
    lemma_ranges_monotone(g, v + 1, g.nodes as int);
    assert(0 <= k < g.entries.len());
    assert((g.entries[k].col as int) < g.nodes);
}

/// The endpoint a class-adjacency arc names is a node of the graph.
pub proof fn lemma_class_adj_in_range(g: GraphV, c: EdgeClass, u: int, v: int)
    requires
        g.wf(),
        g.class_adj(c, u, v),
    ensures
        0 <= u < g.nodes,
        0 <= v < g.nodes,
{
    let k = choose|k: int|
        #[trigger] g.in_row(v, k) && g.class_at(k) == c && g.entries[k].col as int == u;
    lemma_ranges_monotone(g, v + 1, g.nodes as int);
    assert(0 <= k < g.entries.len());
    assert((g.entries[k].col as int) < g.nodes);
}

/// A node an ancestor or descendant path reaches is a node of the graph.
pub proof fn lemma_reach_in_range(g: GraphV, up: bool, s: int, u: int)
    requires
        g.wf(),
        g.dir_reaches(up, s, u),
    ensures
        0 <= u < g.nodes,
{
    let p = choose|p: Seq<int>|
        p.len() >= 2 && p[0] == s && p[p.len() - 1] == u && #[trigger] g.dir_chain(up, p);
    assert(g.dir_adj(up, p[p.len() - 2 + 1], p[p.len() - 2]));
    let v = p[p.len() - 2];
    let k = choose|k: int|
        #[trigger] g.in_row(v, k) && g.class_at(k) == EdgeClass::Directed && g.entries[k].side
            == (if up { 1u8 } else { 0u8 }) && g.entries[k].col as int == u;
    lemma_ranges_monotone(g, v + 1, g.nodes as int);
    assert(0 <= k < g.entries.len());
    assert((g.entries[k].col as int) < g.nodes);
}


/// On a simple graph, the sorted list of any selection of one node's
/// neighbors is strictly ascending: one entry per neighbor, in order.
pub proof fn lemma_simple_sorted_sel_strict(g: GraphV, i: int, sel: spec_fn(GraphV, int) -> bool)
    requires
        g.wf(),
        g.simple,
        0 <= i < g.nodes,
    ensures
        forall|a: int, b: int|
            0 <= a < b < crate::order::sort_asc(g.sel_cols(i, sel)).len()
                ==> crate::order::sort_asc(g.sel_cols(i, sel))[a] < crate::order::sort_asc(
                g.sel_cols(i, sel),
            )[b],
{
    let cols = g.sel_cols(i, sel);
    let srt = crate::order::sort_asc(cols);
    lemma_sel_cols_distinct(g, i, sel, g.row_len(i));
    crate::order::lemma_sort_asc_ensures(cols);
    cols.lemma_multiset_has_no_duplicates();
    srt.lemma_multiset_has_no_duplicates_conv();
    crate::order::lemma_sorted_distinct_strict(srt);
}

/// The immutable compressed multigraph. Built once by a `GraphBuilder`;
/// shared read-only by every typed view that wraps it.
#[derive(Debug)]
pub struct CaugiGraph {
    /// Snapshot of the edge-kind catalog the arcs' codes refer to.
    pub registry: EdgeRegistry,
    /// Number of nodes.
    pub n_nodes: u32,
    /// No self-loops and no duplicate pairs were admitted.
    pub simple: bool,
    /// `n_nodes + 1` offsets into `entries`, one row per node.
    pub row_ranges: Vec<usize>,
    /// The arcs, grouped by row.
    pub entries: Vec<ArcEntry>,
}

impl View for CaugiGraph {
    type V = GraphV;

    open spec fn view(&self) -> GraphV {
        GraphV {
            nodes: self.n_nodes,
            simple: self.simple,
            registry: self.registry@,
            row_ranges: self.row_ranges@,
            entries: self.entries@,
        }
    }
}

impl CaugiGraph {
    /// Number of nodes.
    pub fn n(&self) -> (r: u32)
        ensures
            r == self@.nodes,
    {
        self.n_nodes
    }

    /// The bounds of node `i`'s row in the arc array.
    pub fn row_range(&self, i: u32) -> (r: (usize, usize))
        requires
            self@.wf(),
            i < self@.nodes,
        ensures
            r.0 == self@.row_ranges[i as int],
            r.1 == self@.row_ranges[i as int + 1],
    {
        (self.row_ranges[i as usize], self.row_ranges[i as usize + 1])
    }

    /// Arc `k` of the flat arc array.
    pub fn entry(&self, k: usize) -> (e: ArcEntry)
        requires
            self@.wf(),
            k < self@.entries.len(),
        ensures
            e == self@.entries[k as int],
    {
        self.entries[k]
    }

    /// Edge class of arc `k`, read through the registry snapshot.
    pub fn arc_class(&self, k: usize) -> (c: EdgeClass)
        requires
            self@.wf(),
            k < self@.entries.len(),
        ensures
            c == self@.class_at(k as int),
    {
        let e = self.entries[k];
        match self.registry.spec_of_code(e.etype) {
            Ok(s) => s.class,
            Err(_) => {
                proof {
                    assert(false);
                }
                EdgeClass::Directed
            },
        }
    }
}

} // verus!
