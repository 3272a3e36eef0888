//! Causal queries over the core: d-separation decided by reachability in
//! the moralized ancestor graph, and the naive parent adjustment set.

use vstd::prelude::*;
use crate::edges::EdgeClass;
use crate::errors::GraphError;
use crate::graph::{CaugiGraph, GraphV};

verus! {

/// The id list holds `v`.
pub open spec fn in_ids(s: Seq<u32>, v: int) -> bool {
    exists|m: int| 0 <= m < s.len() && ((#[trigger] s[m]) as int) == v
}

/// `v` is a member of the set or a proper ancestor of one: the ancestral
/// closure that the moralized graph is restricted to.
pub open spec fn in_ancestral(g: GraphV, base: Seq<u32>, v: int) -> bool {
    exists|m: int|
        0 <= m < base.len() && (((#[trigger] base[m]) as int) == v || g.dir_reaches(
            true,
            base[m] as int,
            v,
        ))
}

/// Some arc of either endpoint's row joins `a` and `b`.
pub open spec fn core_adj(g: GraphV, a: int, b: int) -> bool {
    (exists|k: int| #[trigger] g.in_row(a, k) && (g.entries[k].col as int) == b) || (exists|k: int|
        #[trigger] g.in_row(b, k) && (g.entries[k].col as int) == a)
}

/// An arc of `w`'s row connects `a` to `w` with a latent-confounding kind.
pub open spec fn latent_adj(g: GraphV, a: int, w: int) -> bool {
    exists|k: int|
        #[trigger] g.in_row(w, k) && (g.entries[k].col as int) == a
            && g.registry.kinds[g.entries[k].etype as int].flags.latent_confounding
}

/// `a` sends an arrowhead into `w`: a directed parent arc, or a
/// latent-confounding arc, which stands for a hidden common cause.
pub open spec fn into_adj(g: GraphV, a: int, w: int) -> bool {
    g.dir_adj(true, a, w) || latent_adj(g, a, w)
}

/// An arc of either endpoint's row joins `a` and `b` with a kind that stays
/// traversable when conditioned on.
pub open spec fn traversable_adj(g: GraphV, a: int, b: int) -> bool {
    (exists|k: int|
        #[trigger] g.in_row(a, k) && (g.entries[k].col as int) == b
            && g.registry.kinds[g.entries[k].etype as int].flags.traversable_when_conditioned)
        || (exists|k: int|
        #[trigger] g.in_row(b, k) && (g.entries[k].col as int) == a
            && g.registry.kinds[g.entries[k].etype as int].flags.traversable_when_conditioned)
}

/// Adjacency of the moralized ancestor graph over the ancestral closure of
/// `base`: either graph adjacency, or a spouse link between two nodes that
/// both send arrowheads into a common child of the closure.
pub open spec fn moral_adj(g: GraphV, base: Seq<u32>, a: int, b: int) -> bool {
    &&& a != b
    &&& in_ancestral(g, base, a)
    &&& in_ancestral(g, base, b)
    &&& (core_adj(g, a, b) || (exists|w: int|
        0 <= w < g.nodes && #[trigger] in_ancestral(g, base, w) && into_adj(g, a, w) && into_adj(
            g,
            b,
            w,
        )))
}

/// One step of a separating walk: a moral edge whose endpoints are not
/// conditioned on, unless a traversable-when-conditioned kind joins them.
pub open spec fn sep_step(g: GraphV, base: Seq<u32>, zs: Seq<u32>, a: int, b: int) -> bool {
    moral_adj(g, base, a, b) && ((!in_ids(zs, a) && !in_ids(zs, b)) || traversable_adj(g, a, b))
}

/// A walk of the moralized ancestor graph from a member of `xs` to `v`.
pub open spec fn x_walk(g: GraphV, base: Seq<u32>, zs: Seq<u32>, xs: Seq<u32>, v: int) -> bool {
    exists|p: Seq<int>|
        p.len() >= 1 && in_ids(xs, p[0]) && p[p.len() - 1] == v && #[trigger] sep_chain(
            g,
            base,
            zs,
            p,
        )
}

/// Every consecutive pair of `p` is a separating-walk step.
pub open spec fn sep_chain(g: GraphV, base: Seq<u32>, zs: Seq<u32>, p: Seq<int>) -> bool {
    forall|j: int| #![trigger p[j]] 0 <= j < p.len() - 1 ==> sep_step(g, base, zs, p[j], p[j + 1])
}

/// The sets are connected given `zs`: some walk of the moralized ancestor
/// graph of all three sets leads from `xs` to `ys` avoiding `zs`.
pub open spec fn d_connected(g: GraphV, xs: Seq<u32>, ys: Seq<u32>, zs: Seq<u32>) -> bool {
    exists|v: int| #[trigger] x_walk(g, xs + ys + zs, zs, xs, v) && in_ids(ys, v)
}

/// Whether row `a` holds an arc to `b`.
fn has_arc_to(core: &CaugiGraph, a: u32, b: u32) -> (r: bool)
    requires
        core@.wf(),
        (a as int) < core@.nodes,
    ensures
        r == exists|k: int|
            #[trigger] core@.in_row(a as int, k) && (core@.entries[k].col as int) == b as int,
{
    let ghost g = core@;
    let (ks, ke) = core.row_range(a);
    let mut k = ks;
    while k < ke
        invariant
            g == core@,
            g.wf(),
            0 <= (a as int) < g.nodes,
            ks == g.row_ranges[a as int],
            ke == g.row_ranges[a as int + 1],
            ks <= k <= ke,
            forall|k2: int| ks <= k2 < k ==> (g.entries[k2].col as int) != b as int,
        decreases ke - k,
    {
        proof {
            crate::graph::lemma_ranges_monotone(g, a as int + 1, g.nodes as int);
        }
        let e = core.entry(k);
        if e.col == b {
            proof {
                assert(g.in_row(a as int, k as int) && (g.entries[k as int].col as int)
                    == b as int);
            }
            return true;
        }
        k += 1;
    }
    proof {
        if exists|k2: int|
            #[trigger] g.in_row(a as int, k2) && (g.entries[k2].col as int) == b as int {
            let k2 = choose|k2: int|
                #[trigger] g.in_row(a as int, k2) && (g.entries[k2].col as int) == b as int;
            assert(false);
        }
    }
    false
}

/// Whether `a` sends an arrowhead into `w`, read from `w`'s row.
fn has_into(core: &CaugiGraph, a: u32, w: u32) -> (r: bool)
    requires
        core@.wf(),
        (w as int) < core@.nodes,
    ensures
        r == into_adj(core@, a as int, w as int),
{
    let ghost g = core@;
    let (ks, ke) = core.row_range(w);
    let mut k = ks;
    while k < ke
        invariant
            g == core@,
            g.wf(),
            0 <= (w as int) < g.nodes,
            ks == g.row_ranges[w as int],
            ke == g.row_ranges[w as int + 1],
            ks <= k <= ke,
            forall|k2: int|
                ks <= k2 < k ==> !((g.entries[k2].col as int) == a as int && (g.class_at(k2)
                    == EdgeClass::Directed && g.entries[k2].side == 1
                    || g.registry.kinds[g.entries[k2].etype as int].flags.latent_confounding)),
        decreases ke - k,
    {
        proof {
            crate::graph::lemma_ranges_monotone(g, w as int + 1, g.nodes as int);
        }
        let e = core.entry(k);
        let c = core.arc_class(k);
        let sp = match core.registry.spec_of_code(e.etype) {
            Ok(sp) => sp,
            Err(_) => {
                proof {
                    assert(false);
                }
                return false;
            },
        };
        if e.col == a && (matches!(c, EdgeClass::Directed) && e.side == 1
            || sp.flags.latent_confounding) {
            proof {
                assert(g.in_row(w as int, k as int));
                if g.class_at(k as int) == EdgeClass::Directed && g.entries[k as int].side == 1 {
                    assert(g.dir_adj(true, a as int, w as int));
                } else {
                    assert(latent_adj(g, a as int, w as int));
                }
            }
            return true;
        }
        k += 1;
    }
    proof {
        if g.dir_adj(true, a as int, w as int) {
            let k2 = choose|k2: int|
                #[trigger] g.in_row(w as int, k2) && g.class_at(k2) == EdgeClass::Directed
                    && g.entries[k2].side == 1 && (g.entries[k2].col as int) == a as int;
            assert(false);
        }
        if latent_adj(g, a as int, w as int) {
            let k2 = choose|k2: int|
                #[trigger] g.in_row(w as int, k2) && (g.entries[k2].col as int) == a as int
                    && g.registry.kinds[g.entries[k2].etype as int].flags.latent_confounding;
            assert(false);
        }
    }
    false
}

/// Whether a traversable-when-conditioned kind joins `a` to `b`, read from
/// `a`'s row.
fn has_traversable_from(core: &CaugiGraph, a: u32, b: u32) -> (r: bool)
    requires
        core@.wf(),
        (a as int) < core@.nodes,
    ensures
        r == exists|k: int|
            #[trigger] core@.in_row(a as int, k) && (core@.entries[k].col as int) == b as int
                && core@.registry.kinds[core@.entries[k].etype as int].flags.traversable_when_conditioned,
{
    let ghost g = core@;
    let (ks, ke) = core.row_range(a);
    let mut k = ks;
    while k < ke
        invariant
            g == core@,
            g.wf(),
            0 <= (a as int) < g.nodes,
            ks == g.row_ranges[a as int],
            ke == g.row_ranges[a as int + 1],
            ks <= k <= ke,
            forall|k2: int|
                ks <= k2 < k ==> !((g.entries[k2].col as int) == b as int
                    && g.registry.kinds[g.entries[k2].etype as int].flags.traversable_when_conditioned),
        decreases ke - k,
    {
        proof {
            crate::graph::lemma_ranges_monotone(g, a as int + 1, g.nodes as int);
        }
        let e = core.entry(k);
        let sp = match core.registry.spec_of_code(e.etype) {
            Ok(sp) => sp,
            Err(_) => {
                proof {
                    assert(false);
                }
                return false;
            },
        };
        if e.col == b && sp.flags.traversable_when_conditioned {
            proof {
                assert(g.in_row(a as int, k as int));
            }
            return true;
        }
        k += 1;
    }
    proof {
        if exists|k2: int|
            #[trigger] g.in_row(a as int, k2) && (g.entries[k2].col as int) == b as int
                && g.registry.kinds[g.entries[k2].etype as int].flags.traversable_when_conditioned {
            let k2 = choose|k2: int|
                #[trigger] g.in_row(a as int, k2) && (g.entries[k2].col as int) == b as int
                    && g.registry.kinds[g.entries[k2].etype as int].flags.traversable_when_conditioned;
            assert(false);
        }
    }
    false
}

/// Flags the listed ids in a fresh membership vector over `0..n`.
fn mark_ids(n: u32, s: &Vec<u32>) -> (r: Vec<bool>)
    requires
        forall|m: int| 0 <= m < s@.len() ==> (#[trigger] s@[m]) < n,
    ensures
        r@.len() == n,
        forall|v: int| 0 <= v < n ==> ((#[trigger] r@[v]) <==> in_ids(s@, v)),
{
    let nn = n as usize;
    let mut r: Vec<bool> = vec![false; nn];
    let mut m: usize = 0;
    while m < s.len()
        invariant
            nn == n as usize,
            r@.len() == nn,
            forall|m2: int| 0 <= m2 < s@.len() ==> (#[trigger] s@[m2]) < n,
            0 <= m <= s@.len(),
            forall|v: int|
                0 <= v < nn ==> ((#[trigger] r@[v]) <==> exists|m2: int|
                    0 <= m2 < m && ((#[trigger] s@[m2]) as int) == v),
        decreases s@.len() - m,
    {
        let v = s[m];
        let ghost r0 = r@;
        r[v as usize] = true;
        proof {
            assert forall|v2: int|
                0 <= v2 < nn implies ((#[trigger] r@[v2]) <==> exists|m2: int|
                0 <= m2 < m + 1 && ((#[trigger] s@[m2]) as int) == v2) by {
                if v2 == v as int {
                    assert(((#[trigger] s@[m as int]) as int) == v2);
                } else {
                    assert(r@[v2] == r0[v2]);
                    if r@[v2] {
                        let m2 = choose|m2: int|
                            0 <= m2 < m && ((#[trigger] s@[m2]) as int) == v2;
                        assert(((#[trigger] s@[m2]) as int) == v2);
                    }
                    if exists|m2: int| 0 <= m2 < m + 1 && ((#[trigger] s@[m2]) as int) == v2 {
                        let m2 = choose|m2: int|
                            0 <= m2 < m + 1 && ((#[trigger] s@[m2]) as int) == v2;
                        assert(m2 < m);
                        assert(r0[v2]);
                    }
                }
            }
        }
        m += 1;
    }
    r
}

/// Flags the ancestral closure of the listed ids: each member and every
/// proper ancestor of one.
fn scope_flags(core: &CaugiGraph, base: &Vec<u32>) -> (r: Vec<bool>)
    requires
        core@.wf(),
        forall|m: int| 0 <= m < base@.len() ==> (#[trigger] base@[m]) < core@.nodes,
    ensures
        r@.len() == core@.nodes,
        forall|v: int|
            0 <= v < core@.nodes ==> ((#[trigger] r@[v]) <==> in_ancestral(core@, base@, v)),
{
    let ghost g = core@;
    let n = core.n();
    let nn = n as usize;
    let mut r: Vec<bool> = vec![false; nn];
    let mut m: usize = 0;
    while m < base.len()
        invariant
            g == core@,
            g.wf(),
            n == g.nodes,
            nn == n as usize,
            r@.len() == nn,
            forall|m2: int| 0 <= m2 < base@.len() ==> (#[trigger] base@[m2]) < n,
            0 <= m <= base@.len(),
            forall|v: int|
                0 <= v < nn ==> ((#[trigger] r@[v]) <==> exists|m2: int|
                    0 <= m2 < m && (((#[trigger] base@[m2]) as int) == v || g.dir_reaches(
                        true,
                        base@[m2] as int,
                        v,
                    ))),
        decreases base@.len() - m,
    {
        let b = base[m];
        let ghost r0 = r@;
        r[b as usize] = true;
        let anc = crate::traverse::reach_set(core, b, true);
        proof {
            assert forall|j: int| 0 <= j < anc@.len() implies ((#[trigger] anc@[j]) as int)
                < n by {
                assert(anc@.contains(anc@[j]));
                crate::graph::lemma_reach_in_range(g, true, b as int, anc@[j] as int);
            }
        }
        let ghost r1 = r@;
        let mut q: usize = 0;
        while q < anc.len()
            invariant
                g == core@,
                g.wf(),
                n == g.nodes,
                nn == n as usize,
                r@.len() == nn,
                (b as int) < n,
                0 <= q <= anc@.len(),
                r1 == r0.update(b as int, true),
                forall|u: u32| anc@.contains(u) <==> g.dir_reaches(true, b as int, u as int),
                forall|j: int| 0 <= j < anc@.len() ==> ((#[trigger] anc@[j]) as int) < n,
                forall|v: int|
                    0 <= v < nn ==> ((#[trigger] r@[v]) <==> (r1[v] || exists|j: int|
                        0 <= j < q && ((#[trigger] anc@[j]) as int) == v)),
            decreases anc@.len() - q,
        {
            let u = anc[q];
            proof {
                assert(anc@.contains(anc@[q as int]));
                crate::graph::lemma_reach_in_range(g, true, b as int, u as int);
            }
            let ghost r2 = r@;
            r[u as usize] = true;
            proof {
                assert forall|v2: int|
                    0 <= v2 < nn implies ((#[trigger] r@[v2]) <==> (r1[v2] || exists|j: int|
                    0 <= j < q + 1 && ((#[trigger] anc@[j]) as int) == v2)) by {
                    if v2 == u as int {
                        assert(((#[trigger] anc@[q as int]) as int) == v2);
                    } else {
                        assert(r@[v2] == r2[v2]);
                        if r@[v2] && !r1[v2] {
                            let j = choose|j: int|
                                0 <= j < q && ((#[trigger] anc@[j]) as int) == v2;
                            assert(((#[trigger] anc@[j]) as int) == v2);
                        }
                        if exists|j: int| 0 <= j < q + 1 && ((#[trigger] anc@[j]) as int) == v2 {
                            let j = choose|j: int|
                                0 <= j < q + 1 && ((#[trigger] anc@[j]) as int) == v2;
                            assert(j < q);
                            assert(r2[v2]);
                        }
                    }
                }
            }
            q += 1;
        }
        proof {
            assert forall|v: int|
                0 <= v < nn implies ((#[trigger] r@[v]) <==> exists|m2: int|
                0 <= m2 < m + 1 && (((#[trigger] base@[m2]) as int) == v || g.dir_reaches(
                    true,
                    base@[m2] as int,
                    v,
                ))) by {
                if r@[v] {
                    if r1[v] && !r0[v] {
                        assert(v == b as int);
                        assert(((#[trigger] base@[m as int]) as int) == v);
                    } else if r0[v] {
                        let m2 = choose|m2: int|
                            0 <= m2 < m && (((#[trigger] base@[m2]) as int) == v || g.dir_reaches(
                                true,
                                base@[m2] as int,
                                v,
                            ));
                        assert(((#[trigger] base@[m2]) as int) == v || g.dir_reaches(
                            true,
                            base@[m2] as int,
                            v,
                        ));
                    } else {
                        let j = choose|j: int| 0 <= j < anc@.len() && ((#[trigger] anc@[j]) as int) == v;
                        assert(anc@.contains(anc@[j]));
                        assert(g.dir_reaches(true, b as int, v));
                        assert(((#[trigger] base@[m as int]) as int) == b as int || g.dir_reaches(
                            true,
                            base@[m as int] as int,
                            v,
                        ));
                    }
                }
                if exists|m2: int|
                    0 <= m2 < m + 1 && (((#[trigger] base@[m2]) as int) == v || g.dir_reaches(
                        true,
                        base@[m2] as int,
                        v,
                    )) {
                    let m2 = choose|m2: int|
                        0 <= m2 < m + 1 && (((#[trigger] base@[m2]) as int) == v || g.dir_reaches(
                            true,
                            base@[m2] as int,
                            v,
                        ));
                    if m2 < m {
                        assert(r0[v]);
                        assert(r1[v] || r0[v]);
                        assert(r@[v]);
                    } else {
                        if (base@[m2] as int) == v {
                            assert(r1[v]);
                        } else {
                            assert(g.dir_reaches(true, b as int, v));
                            assert(anc@.contains(v as u32));
                            let j = choose|j: int|
                                0 <= j < anc@.len() && (#[trigger] anc@[j]) == v as u32;
                            assert(((#[trigger] anc@[j]) as int) == v);
                        }
                    }
                }
            }
        }
        m += 1;
    }
    r
}

/// Decides one separating-walk step between two nodes, against membership
/// flags for the ancestral scope and the conditioning set.
fn step_test(
    core: &CaugiGraph,
    scope: &Vec<bool>,
    cond: &Vec<bool>,
    a: u32,
    b: u32,
    Ghost(base): Ghost<Seq<u32>>,
    Ghost(zsg): Ghost<Seq<u32>>,
) -> (r: bool)
    requires
        core@.wf(),
        scope@.len() == core@.nodes,
        cond@.len() == core@.nodes,
        (a as int) < core@.nodes,
        (b as int) < core@.nodes,
        forall|v: int|
            0 <= v < core@.nodes ==> ((#[trigger] scope@[v]) <==> in_ancestral(core@, base, v)),
        forall|v: int| 0 <= v < core@.nodes ==> ((#[trigger] cond@[v]) <==> in_ids(zsg, v)),
    ensures
        r == sep_step(core@, base, zsg, a as int, b as int),
{
    let ghost g = core@;
    let n = core.n();
    if a == b {
        return false;
    }
    if !scope[a as usize] || !scope[b as usize] {
        return false;
    }
    let mut moral = has_arc_to(core, a, b) || has_arc_to(core, b, a);
    if !moral {
        let mut w: u32 = 0;
        while w < n
            invariant
                g == core@,
                g.wf(),
                n == g.nodes,
                scope@.len() == n,
                (a as int) < n,
                (b as int) < n,
                forall|v: int|
                    0 <= v < n ==> ((#[trigger] scope@[v]) <==> in_ancestral(g, base, v)),
                0 <= w <= n,
                !moral ==> forall|w2: int|
                    0 <= w2 < w ==> !(#[trigger] in_ancestral(g, base, w2) && into_adj(g, a as int, w2)
                        && into_adj(g, b as int, w2)),
                moral ==> exists|w2: int|
                    0 <= w2 < g.nodes && #[trigger] in_ancestral(g, base, w2) && into_adj(
                        g,
                        a as int,
                        w2,
                    ) && into_adj(g, b as int, w2),
            decreases n - w,
        {
            if !moral && scope[w as usize] && has_into(core, a, w) && has_into(core, b, w) {
                moral = true;
            }
            w += 1;
        }
    }
    if !moral {
        proof {
            assert(!moral_adj(g, base, a as int, b as int)) by {
                if moral_adj(g, base, a as int, b as int) {
                    if !core_adj(g, a as int, b as int) {
                        let w2 = choose|w2: int|
                            0 <= w2 < g.nodes && #[trigger] in_ancestral(g, base, w2) && into_adj(
                                g,
                                a as int,
                                w2,
                            ) && into_adj(g, b as int, w2);
                        assert(in_ancestral(g, base, w2));
                        assert(false);
                    }
                }
            }
        }
        return false;
    }
    if !cond[a as usize] && !cond[b as usize] {
        return true;
    }
    has_traversable_from(core, a, b) || has_traversable_from(core, b, a)
}

/// The nodes one separating-walk step away from `u`, each once.
fn step_list(
    core: &CaugiGraph,
    scope: &Vec<bool>,
    cond: &Vec<bool>,
    u: u32,
    Ghost(base): Ghost<Seq<u32>>,
    Ghost(zsg): Ghost<Seq<u32>>,
) -> (r: Vec<u32>)
    requires
        core@.wf(),
        scope@.len() == core@.nodes,
        cond@.len() == core@.nodes,
        (u as int) < core@.nodes,
        forall|v: int|
            0 <= v < core@.nodes ==> ((#[trigger] scope@[v]) <==> in_ancestral(core@, base, v)),
        forall|v: int| 0 <= v < core@.nodes ==> ((#[trigger] cond@[v]) <==> in_ids(zsg, v)),
    ensures
        forall|j: int| 0 <= j < r@.len() ==> ((#[trigger] r@[j]) as int) < core@.nodes,
        forall|b: int|
            0 <= b < core@.nodes ==> (r@.contains(b as u32) <==> sep_step(
                core@,
                base,
                zsg,
                u as int,
                b,
            )),
{
    let ghost g = core@;
    let n = core.n();
    let mut out: Vec<u32> = Vec::new();
    let mut v: u32 = 0;
    while v < n
        invariant
            g == core@,
            g.wf(),
            n == g.nodes,
            scope@.len() == n,
            cond@.len() == n,
            (u as int) < n,
            forall|v2: int|
                0 <= v2 < n ==> ((#[trigger] scope@[v2]) <==> in_ancestral(g, base, v2)),
            forall|v2: int| 0 <= v2 < n ==> ((#[trigger] cond@[v2]) <==> in_ids(zsg, v2)),
            0 <= v <= n,
            forall|j: int| 0 <= j < out@.len() ==> ((#[trigger] out@[j]) as int) < v,
            forall|b: int|
                0 <= b < v ==> (out@.contains(b as u32) <==> sep_step(g, base, zsg, u as int, b)),
        decreases n - v,
    {
        let st = step_test(core, scope, cond, u, v, Ghost(base), Ghost(zsg));
        let ghost out0 = out@;
        if st {
            out.push(v);
        }
        proof {
            assert forall|b: int|
                0 <= b < v + 1 implies (out@.contains(b as u32) <==> sep_step(
                g,
                base,
                zsg,
                u as int,
                b,
            )) by {
                if b == v as int {
                    if st {
                        assert(out@[out@.len() - 1] == b as u32);
                    } else {
                        if out@.contains(b as u32) {
                            let j = choose|j: int| 0 <= j < out@.len() && out@[j] == b as u32;
                            assert(out0[j] == b as u32);
                            assert(false);
                        }
                    }
                } else {
                    if out@.contains(b as u32) {
                        let j = choose|j: int| 0 <= j < out@.len() && out@[j] == b as u32;
                        if j < out0.len() {
                            assert(out0[j] == b as u32);
                            assert(out0.contains(b as u32));
                        } else {
                            assert(b == v as int);
                        }
                    }
                    if sep_step(g, base, zsg, u as int, b) {
                        assert(out0.contains(b as u32));
                        let j = choose|j: int| 0 <= j < out0.len() && out0[j] == b as u32;
                        assert(out@[j] == b as u32);
                    }
                }
            }
        }
        v += 1;
    }
    out
}

/// A walk to `u` extended by one step is a walk to the step's target.
proof fn lemma_walk_extend(g: GraphV, base: Seq<u32>, zsg: Seq<u32>, xs: Seq<u32>, u: int, w: int)
    requires
        x_walk(g, base, zsg, xs, u),
        sep_step(g, base, zsg, u, w),
    ensures
        x_walk(g, base, zsg, xs, w),
{
    let p = choose|p: Seq<int>|
        p.len() >= 1 && in_ids(xs, p[0]) && p[p.len() - 1] == u && #[trigger] sep_chain(
            g,
            base,
            zsg,
            p,
        );
    let p2 = p.push(w);
    assert forall|j: int| #![trigger p2[j]] 0 <= j < p2.len() - 1 implies sep_step(
        g,
        base,
        zsg,
        p2[j],
        p2[j + 1],
    ) by {
        if j < p.len() - 1 {
            assert(p2[j] == p[j] && p2[j + 1] == p[j + 1]);
            assert(p[j] == p[j]);
            assert(sep_step(g, base, zsg, p[j], p[j + 1]));
        } else {
            assert(p2[j] == u && p2[j + 1] == w);
        }
    }
    assert(sep_chain(g, base, zsg, p2));
    assert(p2[0] == p[0]);
}

/// When the seeds are seen and the seen-set is closed under steps, it holds
/// the end of every walk from the seeds.
proof fn lemma_walk_closed(
    g: GraphV,
    base: Seq<u32>,
    zsg: Seq<u32>,
    xs: Seq<u32>,
    n: int,
    seen: Seq<bool>,
    p: Seq<int>,
)
    requires
        seen.len() == n,
        forall|m: int| 0 <= m < xs.len() ==> ((#[trigger] xs[m]) as int) < n,
        forall|m: int| 0 <= m < xs.len() ==> seen[(#[trigger] xs[m]) as int],
        forall|v: int, b: int|
            0 <= v < n && seen[v] && #[trigger] sep_step(g, base, zsg, v, b) ==> 0 <= b < n
                && seen[b],
        p.len() >= 1,
        in_ids(xs, p[0]),
        sep_chain(g, base, zsg, p),
    ensures
        0 <= p[p.len() - 1] < n && seen[p[p.len() - 1]],
    decreases p.len(),
{
    if p.len() == 1 {
        let m = choose|m: int| 0 <= m < xs.len() && ((#[trigger] xs[m]) as int) == p[0];
        assert(seen[(xs[m]) as int]);
    } else {
        let q = p.drop_last();
        assert forall|j: int| #![trigger q[j]] 0 <= j < q.len() - 1 implies sep_step(
            g,
            base,
            zsg,
            q[j],
            q[j + 1],
        ) by {
            assert(q[j] == p[j] && q[j + 1] == p[j + 1]);
            assert(p[j] == p[j]);
            assert(sep_step(g, base, zsg, p[j], p[j + 1]));
        }
        assert(q[0] == p[0]);
        lemma_walk_closed(g, base, zsg, xs, n, seen, q);
        assert(p[p.len() - 2] == p[p.len() - 2]);
        assert(sep_step(g, base, zsg, p[(p.len() - 2)], p[(p.len() - 2) + 1]));
    }
}

/// The frontier property survives popping an already-seen node.
proof fn lemma_bfs_skip(
    g: GraphV,
    base: Seq<u32>,
    zsg: Seq<u32>,
    xs: Seq<u32>,
    n: int,
    seen1: Seq<bool>,
    stack0: Seq<u32>,
    stack1: Seq<u32>,
    u: u32,
)
    requires
        seen1.len() == n,
        (u as int) < n,
        seen1[u as int],
        stack0.len() > 0,
        stack0[stack0.len() - 1] == u,
        stack1 == stack0.drop_last(),
        forall|m: int|
            0 <= m < xs.len() ==> seen1[(#[trigger] xs[m]) as int] || stack0.contains(xs[m]),
        forall|v: int, b: int|
            0 <= v < n && seen1[v] && #[trigger] sep_step(g, base, zsg, v, b) ==> 0 <= b < n && (
            seen1[b] || stack0.contains(b as u32)),
    ensures
        forall|m: int|
            0 <= m < xs.len() ==> seen1[(#[trigger] xs[m]) as int] || stack1.contains(xs[m]),
        forall|v: int, b: int|
            0 <= v < n && seen1[v] && #[trigger] sep_step(g, base, zsg, v, b) ==> 0 <= b < n && (
            seen1[b] || stack1.contains(b as u32)),
{
    assert forall|m: int|
        0 <= m < xs.len() implies seen1[(#[trigger] xs[m]) as int] || stack1.contains(xs[m]) by {
        if !seen1[(xs[m]) as int] {
            let j = choose|j: int| 0 <= j < stack0.len() && stack0[j] == xs[m];
            if j < stack0.len() - 1 {
                assert(stack1[j] == xs[m]);
            } else {
                assert(stack0[j] == u);
                assert(seen1[(xs[m]) as int]);
            }
        }
    }
    assert forall|v: int, b: int|
        0 <= v < n && seen1[v] && #[trigger] sep_step(g, base, zsg, v, b) implies 0 <= b < n && (
    seen1[b] || stack1.contains(b as u32)) by {
        if !seen1[b] {
            assert(stack0.contains(b as u32));
            let j = choose|j: int| 0 <= j < stack0.len() && stack0[j] == b as u32;
            if j < stack0.len() - 1 {
                assert(stack1[j] == b as u32);
            } else {
                assert(stack0[j] == u);
                assert(seen1[b]);
            }
        }
    }
}

/// Marking a popped node and pushing its step neighbors keeps the frontier
/// and soundness invariants.
#[verifier::rlimit(100)]
#[verifier::spinoff_prover]
proof fn lemma_bfs_expand(
    g: GraphV,
    base: Seq<u32>,
    zsg: Seq<u32>,
    xs: Seq<u32>,
    n: int,
    seen0: Seq<bool>,
    seen1: Seq<bool>,
    stack0: Seq<u32>,
    stack1: Seq<u32>,
    adj0: Seq<u32>,
    st2: Seq<u32>,
    u: u32,
)
    requires
        g.wf(),
        n == g.nodes,
        forall|m: int| 0 <= m < base.len() ==> ((#[trigger] base[m]) as int) < n,
        forall|m: int| 0 <= m < xs.len() ==> ((#[trigger] xs[m]) as int) < n,
        seen0.len() == n,
        (u as int) < n,
        !seen0[u as int],
        stack0.len() > 0,
        stack0[stack0.len() - 1] == u,
        stack1 == stack0.drop_last(),
        st2 == stack1 + adj0,
        seen1 == seen0.update(u as int, true),
        forall|j: int| 0 <= j < adj0.len() ==> ((#[trigger] adj0[j]) as int) < n,
        forall|b: int|
            0 <= b < n ==> (adj0.contains(b as u32) <==> sep_step(g, base, zsg, u as int, b)),
        forall|j: int|
            0 <= j < stack0.len() ==> ((#[trigger] stack0[j]) as int) < n && x_walk(
                g,
                base,
                zsg,
                xs,
                stack0[j] as int,
            ),
        forall|v: int| 0 <= v < n && #[trigger] seen0[v] ==> x_walk(g, base, zsg, xs, v),
        forall|m: int|
            0 <= m < xs.len() ==> seen0[(#[trigger] xs[m]) as int] || stack0.contains(xs[m]),
        forall|v: int, b: int|
            0 <= v < n && seen0[v] && #[trigger] sep_step(g, base, zsg, v, b) ==> 0 <= b < n && (
            seen0[b] || stack0.contains(b as u32)),
    ensures
        forall|j: int|
            0 <= j < st2.len() ==> ((#[trigger] st2[j]) as int) < n && x_walk(
                g,
                base,
                zsg,
                xs,
                st2[j] as int,
            ),
        forall|v: int| 0 <= v < n && #[trigger] seen1[v] ==> x_walk(g, base, zsg, xs, v),
        forall|m: int|
            0 <= m < xs.len() ==> seen1[(#[trigger] xs[m]) as int] || st2.contains(xs[m]),
        forall|v: int, b: int|
            0 <= v < n && seen1[v] && #[trigger] sep_step(g, base, zsg, v, b) ==> 0 <= b < n && (
            seen1[b] || st2.contains(b as u32)),
{
    assert(x_walk(g, base, zsg, xs, u as int));
    assert forall|j: int|
        0 <= j < st2.len() implies ((#[trigger] st2[j]) as int) < n && x_walk(
        g,
        base,
        zsg,
        xs,
        st2[j] as int,
    ) by {
        if j < stack1.len() {
            assert(st2[j] == stack1[j]);
            assert(stack1[j] == stack0[j]);
        } else {
            let w = st2[j];
            assert(adj0[j - stack1.len()] == w);
            assert(adj0.contains(w));
            assert(sep_step(g, base, zsg, u as int, w as int));
            lemma_walk_extend(g, base, zsg, xs, u as int, w as int);
        }
    }
    assert forall|m: int|
        0 <= m < xs.len() implies seen1[(#[trigger] xs[m]) as int] || st2.contains(xs[m]) by {
        if !seen0[(xs[m]) as int] && xs[m] != u {
            let j = choose|j: int| 0 <= j < stack0.len() && stack0[j] == xs[m];
            if j < stack0.len() - 1 {
                assert(st2[j] == xs[m]);
                assert(st2.contains(xs[m]));
            } else {
                assert(false);
            }
        }
    }
    assert forall|v: int, b: int|
        0 <= v < n && seen1[v] && #[trigger] sep_step(g, base, zsg, v, b) implies 0 <= b < n && (
    seen1[b] || st2.contains(b as u32)) by {
        if v == u as int {
            assert(moral_adj(g, base, u as int, b));
            assert(in_ancestral(g, base, b));
            lemma_ancestral_in_range(g, base, b);
            assert(adj0.contains(b as u32));
            let j = choose|j: int| 0 <= j < adj0.len() && adj0[j] == b as u32;
            assert(st2[stack1.len() + j] == b as u32);
            assert(st2.contains(b as u32));
        } else {
            assert(seen0[v]);
            if !seen0[b] && b != u as int {
                assert(stack0.contains(b as u32));
                let j = choose|j: int| 0 <= j < stack0.len() && stack0[j] == b as u32;
                if j < stack0.len() - 1 {
                    assert(st2[j] == b as u32);
                    assert(st2.contains(b as u32));
                } else {
                    assert(stack0[j] == u);
                    assert(false);
                }
            }
        }
    }
}

/// Members of an ancestral closure over in-range ids are in range.
proof fn lemma_ancestral_in_range(g: GraphV, base: Seq<u32>, v: int)
    requires
        g.wf(),
        forall|m: int| 0 <= m < base.len() ==> ((#[trigger] base[m]) as int) < g.nodes,
        in_ancestral(g, base, v),
    ensures
        0 <= v < g.nodes,
{
    let m = choose|m: int|
        0 <= m < base.len() && (((#[trigger] base[m]) as int) == v || g.dir_reaches(
            true,
            base[m] as int,
            v,
        ));
    if (base[m] as int) != v {
        crate::graph::lemma_reach_in_range(g, true, base[m] as int, v);
    }
}

/// The end of a walk from in-range seeds is in range.
proof fn lemma_walk_end_range(g: GraphV, base: Seq<u32>, zsg: Seq<u32>, xs: Seq<u32>, v: int)
    requires
        g.wf(),
        forall|m: int| 0 <= m < base.len() ==> ((#[trigger] base[m]) as int) < g.nodes,
        forall|m: int| 0 <= m < xs.len() ==> ((#[trigger] xs[m]) as int) < g.nodes,
        x_walk(g, base, zsg, xs, v),
    ensures
        0 <= v < g.nodes,
{
    let p = choose|p: Seq<int>|
        p.len() >= 1 && in_ids(xs, p[0]) && p[p.len() - 1] == v && #[trigger] sep_chain(
            g,
            base,
            zsg,
            p,
        );
    if p.len() == 1 {
        let m = choose|m: int| 0 <= m < xs.len() && ((#[trigger] xs[m]) as int) == p[0];
        assert((xs[m] as int) < g.nodes);
    } else {
        assert(p[p.len() - 2] == p[p.len() - 2]);
        assert(sep_step(g, base, zsg, p[(p.len() - 2)], p[(p.len() - 2) + 1]));
        assert(in_ancestral(g, base, v));
        lemma_ancestral_in_range(g, base, v);
    }
}

/// Every seed is the end of a one-node walk from the seed set.
proof fn lemma_bfs_init(
    g: GraphV,
    base: Seq<u32>,
    zsg: Seq<u32>,
    xs: Seq<u32>,
    n: int,
    st: Seq<u32>,
)
    requires
        st == xs,
        forall|m: int| 0 <= m < xs.len() ==> ((#[trigger] xs[m]) as int) < n,
    ensures
        forall|j: int|
            0 <= j < st.len() ==> ((#[trigger] st[j]) as int) < n && x_walk(
                g,
                base,
                zsg,
                xs,
                st[j] as int,
            ),
{
    assert forall|j: int|
        0 <= j < st.len() implies ((#[trigger] st[j]) as int) < n && x_walk(
        g,
        base,
        zsg,
        xs,
        st[j] as int,
    ) by {
        let p = seq![st[j] as int];
        assert(((#[trigger] xs[j]) as int) == p[0]);
        assert(in_ids(xs, p[0]));
        assert(sep_chain(g, base, zsg, p));
        assert(p[p.len() - 1] == st[j] as int);
    }
}

/// Whether some walk of the moralized ancestor graph leads from the seed
/// set to a flagged target, by a stack traversal with a seen-set.
#[verifier::rlimit(100)]
fn connected_from(
    core: &CaugiGraph,
    scope: &Vec<bool>,
    cond: &Vec<bool>,
    xs: &Vec<u32>,
    yf: &Vec<bool>,
    Ghost(base): Ghost<Seq<u32>>,
    Ghost(zsg): Ghost<Seq<u32>>,
) -> (hit: bool)
    requires
        core@.wf(),
        scope@.len() == core@.nodes,
        cond@.len() == core@.nodes,
        yf@.len() == core@.nodes,
        forall|v: int|
            0 <= v < core@.nodes ==> ((#[trigger] scope@[v]) <==> in_ancestral(core@, base, v)),
        forall|v: int| 0 <= v < core@.nodes ==> ((#[trigger] cond@[v]) <==> in_ids(zsg, v)),
        forall|m: int| 0 <= m < base.len() ==> ((#[trigger] base[m]) as int) < core@.nodes,
        forall|m: int| 0 <= m < xs@.len() ==> ((#[trigger] xs@[m]) as int) < core@.nodes,
    ensures
        hit <==> exists|v: int|
            0 <= v < core@.nodes && #[trigger] x_walk(core@, base, zsg, xs@, v) && yf@[v],
{
    let ghost g = core@;
    let n = core.n() as usize;
    let mut seen: Vec<bool> = vec![false; n];
    let mut hit: bool = false;
    let mut stack: Vec<u32> = Vec::new();
    stack.extend_from_slice(xs.as_slice());
    proof {
        assert(stack@ =~= xs@);
        lemma_bfs_init(g, base, zsg, xs@, n as int, stack@);
        assert forall|m: int|
            0 <= m < xs@.len() implies seen@[(#[trigger] xs@[m]) as int] || stack@.contains(
            xs@[m],
        ) by {
            assert(stack@[m] == xs@[m]);
        }
    }
    loop
        invariant
            g == core@,
            g.wf(),
            n == g.nodes as usize,
            scope@.len() == n,
            cond@.len() == n,
            yf@.len() == n,
            forall|v: int|
                0 <= v < n ==> ((#[trigger] scope@[v]) <==> in_ancestral(g, base, v)),
            forall|v: int| 0 <= v < n ==> ((#[trigger] cond@[v]) <==> in_ids(zsg, v)),
            forall|m: int| 0 <= m < base.len() ==> ((#[trigger] base[m]) as int) < n,
            forall|m: int| 0 <= m < xs@.len() ==> ((#[trigger] xs@[m]) as int) < n,
            seen@.len() == n,
            hit <==> exists|v: int| 0 <= v < n && (#[trigger] seen@[v]) && yf@[v],
            forall|v: int| 0 <= v < n && #[trigger] seen@[v] ==> x_walk(g, base, zsg, xs@, v),
            forall|j: int|
                0 <= j < stack@.len() ==> ((#[trigger] stack@[j]) as int) < n && x_walk(
                    g,
                    base,
                    zsg,
                    xs@,
                    stack@[j] as int,
                ),
            forall|m: int|
                0 <= m < xs@.len() ==> seen@[(#[trigger] xs@[m]) as int] || stack@.contains(
                    xs@[m],
                ),
            forall|v: int, b: int|
                0 <= v < n && seen@[v] && #[trigger] sep_step(g, base, zsg, v, b) ==> 0 <= b < n
                    && (seen@[b] || stack@.contains(b as u32)),
        ensures
            stack@.len() == 0,
            seen@.len() == n,
            hit <==> exists|v: int| 0 <= v < n && (#[trigger] seen@[v]) && yf@[v],
            forall|v: int| 0 <= v < n && #[trigger] seen@[v] ==> x_walk(g, base, zsg, xs@, v),
            forall|m: int| 0 <= m < xs@.len() ==> seen@[(#[trigger] xs@[m]) as int],
            forall|v: int, b: int|
                0 <= v < n && seen@[v] && #[trigger] sep_step(g, base, zsg, v, b) ==> 0 <= b < n
                    && seen@[b],
        decreases (n as int) - crate::acyclic::cnt_true(seen@), stack@.len(),
    {
        proof {
            crate::acyclic::lemma_cnt_true_bound(seen@);
        }
        if stack.len() == 0 {
            break ;
        }
        let ghost stack0 = stack@;
        let u = match stack.pop() {
            Some(x) => x,
            None => {
                proof {
                    assert(false);
                }
                0
            },
        };
        proof {
            assert(stack0[stack0.len() - 1] == u);
            assert(stack@ =~= stack0.drop_last());
        }
        if !seen[u as usize] {
            let ghost seen0 = seen@;
            let ghost hit0 = hit;
            seen[u as usize] = true;
            if yf[u as usize] {
                hit = true;
            }
            let mut adj = step_list(core, scope, cond, u, Ghost(base), Ghost(zsg));
            let ghost stack1 = stack@;
            let ghost adj0 = adj@;
            stack.append(&mut adj);
            proof {
                crate::acyclic::lemma_cnt_true_update(seen0, u as int);
                crate::acyclic::lemma_cnt_true_bound(seen@);
                assert(stack@ =~= stack1 + adj0);
                lemma_bfs_expand(
                    g,
                    base,
                    zsg,
                    xs@,
                    n as int,
                    seen0,
                    seen@,
                    stack0,
                    stack1,
                    adj0,
                    stack@,
                    u,
                );
                assert(hit <==> exists|v: int|
                    0 <= v < n && (#[trigger] seen@[v]) && yf@[v]) by {
                    if hit {
                        if hit0 {
                            let v = choose|v: int| 0 <= v < n && (#[trigger] seen0[v]) && yf@[v];
                            assert((#[trigger] seen@[v]) && yf@[v]);
                        } else {
                            assert((#[trigger] seen@[u as int]) && yf@[u as int]);
                        }
                    } else {
                        if exists|v: int| 0 <= v < n && (#[trigger] seen@[v]) && yf@[v] {
                            let v = choose|v: int| 0 <= v < n && (#[trigger] seen@[v]) && yf@[v];
                            if v == u as int {
                                assert(false);
                            } else {
                                assert((#[trigger] seen0[v]) && yf@[v]);
                                assert(false);
                            }
                        }
                    }
                }
            }
        } else {
            proof {
                lemma_bfs_skip(g, base, zsg, xs@, n as int, seen@, stack0, stack@, u);
            }
        }
    }
    proof {
        assert(hit <==> exists|v: int|
            0 <= v < core@.nodes && #[trigger] x_walk(core@, base, zsg, xs@, v) && yf@[v]) by {
            if hit {
                let v = choose|v: int| 0 <= v < n && (#[trigger] seen@[v]) && yf@[v];
                assert(x_walk(g, base, zsg, xs@, v) && yf@[v]);
            }
            if exists|v: int|
                0 <= v < core@.nodes && #[trigger] x_walk(core@, base, zsg, xs@, v) && yf@[v] {
                let v = choose|v: int|
                    0 <= v < core@.nodes && #[trigger] x_walk(core@, base, zsg, xs@, v) && yf@[v];
                let p = choose|p: Seq<int>|
                    p.len() >= 1 && in_ids(xs@, p[0]) && p[p.len() - 1] == v
                        && #[trigger] sep_chain(g, base, zsg, p);
                lemma_walk_closed(g, base, zsg, xs@, n as int, seen@, p);
                assert(seen@[v] && yf@[v]);
            }
        }
    }
    hit
}

/// Decides whether node sets `xs` and `ys` are d-separated given `zs`:
/// no walk of the moralized ancestor graph of the three sets joins them
/// while avoiding the conditioned nodes. Fails only on an id out of range.
pub fn d_separated(core: &CaugiGraph, xs: &Vec<u32>, ys: &Vec<u32>, zs: &Vec<u32>) -> (r: Result<
    bool,
    GraphError,
>)
    requires
        core@.wf(),
    ensures
        match r {
            Ok(b) => {
                &&& (forall|m: int| 0 <= m < xs@.len() ==> (#[trigger] xs@[m]) < core@.nodes)
                &&& (forall|m: int| 0 <= m < ys@.len() ==> (#[trigger] ys@[m]) < core@.nodes)
                &&& (forall|m: int| 0 <= m < zs@.len() ==> (#[trigger] zs@[m]) < core@.nodes)
                &&& b == !d_connected(core@, xs@, ys@, zs@)
            },
            Err(e) => {
                &&& ((exists|m: int| 0 <= m < xs@.len() && (#[trigger] xs@[m]) >= core@.nodes)
                    || (exists|m: int|
                    0 <= m < ys@.len() && (#[trigger] ys@[m]) >= core@.nodes) || (exists|m: int|
                    0 <= m < zs@.len() && (#[trigger] zs@[m]) >= core@.nodes))
                &&& e == GraphError::InvalidNodeId
            },
        },
{
    let ghost g = core@;
    let n = core.n();
    if !ids_below(xs, n) {
        return Err(GraphError::InvalidNodeId);
    }
    if !ids_below(ys, n) {
        return Err(GraphError::InvalidNodeId);
    }
    if !ids_below(zs, n) {
        return Err(GraphError::InvalidNodeId);
    }
    let mut all: Vec<u32> = Vec::new();
    all.extend_from_slice(xs.as_slice());
    all.extend_from_slice(ys.as_slice());
    all.extend_from_slice(zs.as_slice());
    proof {
        assert(all@ =~= xs@ + ys@ + zs@);
    }
    let scope = scope_flags(core, &all);
    let cond = mark_ids(n, zs);
    let yf = mark_ids(n, ys);
    let hit = connected_from(core, &scope, &cond, xs, &yf, Ghost(all@), Ghost(zs@));
    proof {
        assert(hit == d_connected(g, xs@, ys@, zs@)) by {
            if hit {
                let v = choose|v: int|
                    0 <= v < g.nodes && #[trigger] x_walk(g, all@, zs@, xs@, v) && yf@[v];
                assert(in_ids(ys@, v));
                assert(x_walk(g, xs@ + ys@ + zs@, zs@, xs@, v) && in_ids(ys@, v));
            }
            if d_connected(g, xs@, ys@, zs@) {
                let v = choose|v: int|
                    #[trigger] x_walk(g, xs@ + ys@ + zs@, zs@, xs@, v) && in_ids(ys@, v);
                lemma_walk_end_range(g, xs@ + ys@ + zs@, zs@, xs@, v);
                assert(x_walk(g, all@, zs@, xs@, v));
                assert(yf@[v]);
            }
        }
    }
    Ok(!hit)
}

/// Whether every listed id is below the bound.
fn ids_below(s: &Vec<u32>, n: u32) -> (r: bool)
    ensures
        r <==> forall|m: int| 0 <= m < s@.len() ==> (#[trigger] s@[m]) < n,
{
    let mut m: usize = 0;
    while m < s.len()
        invariant
            0 <= m <= s@.len(),
            forall|m2: int| 0 <= m2 < m ==> (#[trigger] s@[m2]) < n,
        decreases s@.len() - m,
    {
        if s[m] >= n {
            proof {
                assert((#[trigger] s@[m as int]) >= n);
            }
            return false;
        }
        m += 1;
    }
    true
}

/// The naive adjustment set for estimating the effect of `xs` on `ys`:
/// the directed parents of the members of `xs`, with members of `xs` and
/// `ys` removed, ascending. Fails only on an id out of range.
#[verifier::rlimit(100)]
pub fn adjustment_set_parents(core: &CaugiGraph, xs: &Vec<u32>, ys: &Vec<u32>) -> (r: Result<
    Vec<u32>,
    GraphError,
>)
    requires
        core@.wf(),
    ensures
        match r {
            Ok(p) => {
                &&& (forall|m: int| 0 <= m < xs@.len() ==> (#[trigger] xs@[m]) < core@.nodes)
                &&& (forall|m: int| 0 <= m < ys@.len() ==> (#[trigger] ys@[m]) < core@.nodes)
                &&& (forall|a: int, b: int| 0 <= a < b < p@.len() ==> p@[a] < p@[b])
                &&& (forall|u: u32|
                    p@.contains(u) <==> ((exists|m: int|
                        0 <= m < xs@.len() && core@.dir_adj(
                            true,
                            u as int,
                            (#[trigger] xs@[m]) as int,
                        )) && !in_ids(xs@, u as int) && !in_ids(ys@, u as int)))
            },
            Err(e) => {
                &&& ((exists|m: int| 0 <= m < xs@.len() && (#[trigger] xs@[m]) >= core@.nodes)
                    || (exists|m: int|
                    0 <= m < ys@.len() && (#[trigger] ys@[m]) >= core@.nodes))
                &&& e == GraphError::InvalidNodeId
            },
        },
{
    let ghost g = core@;
    let n = core.n();
    if !ids_below(xs, n) {
        return Err(GraphError::InvalidNodeId);
    }
    if !ids_below(ys, n) {
        return Err(GraphError::InvalidNodeId);
    }
    let xf = mark_ids(n, xs);
    let yf = mark_ids(n, ys);
    let mut out: Vec<u32> = Vec::new();
    let mut v: u32 = 0;
    while v < n
        invariant
            g == core@,
            g.wf(),
            n == g.nodes,
            xf@.len() == n,
            yf@.len() == n,
            forall|v2: int| 0 <= v2 < n ==> ((#[trigger] xf@[v2]) <==> in_ids(xs@, v2)),
            forall|v2: int| 0 <= v2 < n ==> ((#[trigger] yf@[v2]) <==> in_ids(ys@, v2)),
            forall|m: int| 0 <= m < xs@.len() ==> (#[trigger] xs@[m]) < n,
            0 <= v <= n,
            forall|j: int| 0 <= j < out@.len() ==> (#[trigger] out@[j]) < v,
            forall|a: int, b: int| 0 <= a < b < out@.len() ==> out@[a] < out@[b],
            forall|u: u32|
                out@.contains(u) <==> (u < v && (exists|m: int|
                    0 <= m < xs@.len() && g.dir_adj(true, u as int, (#[trigger] xs@[m]) as int))
                    && !in_ids(xs@, u as int) && !in_ids(ys@, u as int)),
        decreases n - v,
    {
        let isp = parent_of_any(core, v, xs);
        let keep = isp && !xf[v as usize] && !yf[v as usize];
        let ghost out0 = out@;
        if keep {
            out.push(v);
        }
        proof {
            assert forall|u: u32|
                out@.contains(u) <==> (u < v + 1 && (exists|m2: int|
                0 <= m2 < xs@.len() && g.dir_adj(true, u as int, (#[trigger] xs@[m2]) as int))
                && !in_ids(xs@, u as int) && !in_ids(ys@, u as int)) by {
                if out@.contains(u) {
                    let j = choose|j: int| 0 <= j < out@.len() && out@[j] == u;
                    if j < out0.len() {
                        assert(out0[j] == u);
                        assert(out0.contains(u));
                    } else {
                        assert(u == v);
                    }
                }
                if out0.contains(u) {
                    let j = choose|j: int| 0 <= j < out0.len() && out0[j] == u;
                    assert(out@[j] == u);
                }
                if u == v && keep {
                    assert(out@[out@.len() - 1] == u);
                }
            }
        }
        v += 1;
    }
    proof {
        assert forall|u: u32|
            out@.contains(u) <==> ((exists|m: int|
            0 <= m < xs@.len() && g.dir_adj(true, u as int, (#[trigger] xs@[m]) as int))
            && !in_ids(xs@, u as int) && !in_ids(ys@, u as int)) by {
            if !(u < n) && exists|m: int|
                0 <= m < xs@.len() && g.dir_adj(true, u as int, (#[trigger] xs@[m]) as int) {
                let m = choose|m: int|
                    0 <= m < xs@.len() && g.dir_adj(true, u as int, (#[trigger] xs@[m]) as int);
                crate::graph::lemma_dir_adj_in_range(g, true, u as int, (xs@[m]) as int);
            }
        }
    }
    Ok(out)
}

/// Whether `u` is a directed parent of some listed node.
fn parent_of_any(core: &CaugiGraph, u: u32, xs: &Vec<u32>) -> (r: bool)
    requires
        core@.wf(),
        forall|m: int| 0 <= m < xs@.len() ==> (#[trigger] xs@[m]) < core@.nodes,
    ensures
        r <==> exists|m: int|
            0 <= m < xs@.len() && core@.dir_adj(true, u as int, (#[trigger] xs@[m]) as int),
{
    let ghost g = core@;
    let mut isp: bool = false;
    let mut m: usize = 0;
    while m < xs.len()
        invariant
            g == core@,
            g.wf(),
            forall|m3: int| 0 <= m3 < xs@.len() ==> (#[trigger] xs@[m3]) < g.nodes,
            0 <= m <= xs@.len(),
            isp <==> exists|m2: int|
                0 <= m2 < m && g.dir_adj(true, u as int, (#[trigger] xs@[m2]) as int),
        decreases xs@.len() - m,
    {
        let x = xs[m];
        let ghost wasp = isp;
        let here = par_test(core, u, x);
        if here {
            isp = true;
        }
        proof {
            assert(isp <==> exists|m2: int|
                0 <= m2 < m + 1 && g.dir_adj(true, u as int, (#[trigger] xs@[m2]) as int)) by {
                if isp {
                    if here {
                        assert(g.dir_adj(true, u as int, ((#[trigger] xs@[m as int]) as int)));
                    } else {
                        let m2 = choose|m2: int|
                            0 <= m2 < m && g.dir_adj(true, u as int, (#[trigger] xs@[m2]) as int);
                        assert(g.dir_adj(true, u as int, (xs@[m2]) as int));
                    }
                } else {
                    if exists|m2: int|
                        0 <= m2 < m + 1 && g.dir_adj(true, u as int, (#[trigger] xs@[m2]) as int) {
                        let m2 = choose|m2: int|
                            0 <= m2 < m + 1 && g.dir_adj(
                                true,
                                u as int,
                                (#[trigger] xs@[m2]) as int,
                            );
                        if m2 == m as int {
                            assert(false);
                        } else {
                            assert(wasp);
                            assert(false);
                        }
                    }
                }
            }
        }
        m += 1;
    }
    isp
}

/// Whether `u` is a directed parent of `x`.
fn par_test(core: &CaugiGraph, u: u32, x: u32) -> (r: bool)
    requires
        core@.wf(),
        (x as int) < core@.nodes,
    ensures
        r == core@.dir_adj(true, u as int, x as int),
{
    let ghost g = core@;
    let (ks, ke) = core.row_range(x);
    let mut k = ks;
    while k < ke
        invariant
            g == core@,
            g.wf(),
            0 <= (x as int) < g.nodes,
            ks == g.row_ranges[x as int],
            ke == g.row_ranges[x as int + 1],
            ks <= k <= ke,
            forall|k2: int|
                ks <= k2 < k ==> !(g.class_at(k2) == EdgeClass::Directed && g.entries[k2].side
                    == 1 && (g.entries[k2].col as int) == u as int),
        decreases ke - k,
    {
        proof {
            crate::graph::lemma_ranges_monotone(g, x as int + 1, g.nodes as int);
        }
        let e = core.entry(k);
        let c = core.arc_class(k);
        if matches!(c, EdgeClass::Directed) && e.side == 1 && e.col == u {
            proof {
                assert(g.in_row(x as int, k as int));
            }
            return true;
        }
        k += 1;
    }
    proof {
        if g.dir_adj(true, u as int, x as int) {
            let k2 = choose|k2: int|
                #[trigger] g.in_row(x as int, k2) && g.class_at(k2) == EdgeClass::Directed
                    && g.entries[k2].side == 1 && (g.entries[k2].col as int) == u as int;
            assert(false);
        }
    }
    false
}

} // verus!
