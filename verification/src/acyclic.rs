//! Acyclicity of the directed sub-part, decided by repeatedly removing
//! nodes whose remaining directed in-degree is zero. The check is exact in
//! both directions: it answers true exactly when some topological order of
//! the directed edges exists.

use vstd::prelude::*;
use crate::edges::EdgeClass;
use crate::graph::{CaugiGraph, GraphV};

verus! {

/// The pair (u, v) occurs in the edge list.
pub open spec fn edge_pair(es: Seq<(u32, u32)>, u: int, v: int) -> bool {
    exists|idx: int|
        0 <= idx < es.len() && ((#[trigger] es[idx]).0 as int) == u && (es[idx].1 as int) == v
}

/// `ord` is a topological order of the listed edges over nodes `0..n`.
pub open spec fn rel_topo_ok(n: int, es: Seq<(u32, u32)>, ord: Seq<int>) -> bool {
    &&& ord.no_duplicates()
    &&& ord.len() == n
    &&& forall|v: int| 0 <= v < n ==> ord.contains(v)
    &&& forall|idx: int, j1: int, j2: int|
        0 <= idx < es.len() && 0 <= j1 < ord.len() && 0 <= j2 < ord.len() && (#[trigger] ord[j1])
            == ((#[trigger] es[idx]).0 as int) && (#[trigger] ord[j2]) == (es[idx].1 as int)
            ==> j1 < j2
}

/// Directed in-degree of `v` among the first `j` listed edges whose source
/// is not yet removed.
pub open spec fn live_in_upto(es: Seq<(u32, u32)>, rm: Seq<bool>, v: int, j: int) -> int
    decreases j,
{
    if j <= 0 {
        0
    } else {
        live_in_upto(es, rm, v, j - 1) + if (es[j - 1].1 as int) == v && !rm[es[j - 1].0 as int] {
            1int
        } else {
            0int
        }
    }
}

/// Directed in-degree of `v` from sources not yet removed.
pub open spec fn live_in(es: Seq<(u32, u32)>, rm: Seq<bool>, v: int) -> int {
    live_in_upto(es, rm, v, es.len() as int)
}

/// Number of removed nodes.
pub open spec fn cnt_true(rm: Seq<bool>) -> int
    decreases rm.len(),
{
    if rm.len() == 0 {
        0
    } else {
        cnt_true(rm.drop_last()) + if rm.last() {
            1int
        } else {
            0int
        }
    }
}

proof fn lemma_live_in_upto_nonneg(es: Seq<(u32, u32)>, rm: Seq<bool>, v: int, j: int)
    ensures
        0 <= live_in_upto(es, rm, v, j) <= if j >= 0 {
            j
        } else {
            0int
        },
    decreases j,
{
    if j > 0 {
        lemma_live_in_upto_nonneg(es, rm, v, j - 1);
    }
}

/// A positive live in-degree names an unremoved source.
proof fn lemma_live_in_upto_pos(es: Seq<(u32, u32)>, rm: Seq<bool>, v: int, j: int)
    requires
        0 <= j <= es.len(),
        live_in_upto(es, rm, v, j) > 0,
    ensures
        exists|idx: int|
            0 <= idx < j && ((#[trigger] es[idx]).1 as int) == v && !rm[es[idx].0 as int],
    decreases j,
{
    if j > 0 {
        if (es[j - 1].1 as int) == v && !rm[es[j - 1].0 as int] {
            assert(((#[trigger] es[j - 1]).1 as int) == v && !rm[es[j - 1].0 as int]);
        } else {
            lemma_live_in_upto_pos(es, rm, v, j - 1);
        }
    }
}

/// An unremoved in-edge makes the live in-degree positive.
proof fn lemma_live_in_upto_witness(es: Seq<(u32, u32)>, rm: Seq<bool>, v: int, j: int, idx: int)
    requires
        0 <= idx < j <= es.len(),
        (es[idx].1 as int) == v,
        !rm[es[idx].0 as int],
    ensures
        live_in_upto(es, rm, v, j) > 0,
    decreases j,
{
    lemma_live_in_upto_nonneg(es, rm, v, j - 1);
    if idx < j - 1 {
        lemma_live_in_upto_witness(es, rm, v, j - 1, idx);
    }
}

/// Removing `u` changes nothing about prefixes counted with `u` already
/// removed; counted with the old set, only edges out of `u` are lost.
proof fn lemma_live_in_upto_update(
    es: Seq<(u32, u32)>,
    rm: Seq<bool>,
    u: int,
    v: int,
    j: int,
)
    requires
        0 <= u < rm.len(),
        0 <= j <= es.len(),
        forall|idx: int| 0 <= idx < es.len() ==> ((#[trigger] es[idx]).0 as int) < rm.len(),
    ensures
        live_in_upto(es, rm.update(u, true), v, j) == live_in_upto(es, rm, v, j) - cnt_from_upto(
            es,
            rm,
            u,
            v,
            j,
        ),
    decreases j,
{
    if j > 0 {
        lemma_live_in_upto_update(es, rm, u, v, j - 1);
    }
}

/// Edges u -> v among the first `j`, counted only while `u` is unremoved.
pub open spec fn cnt_from_upto(
    es: Seq<(u32, u32)>,
    rm: Seq<bool>,
    u: int,
    v: int,
    j: int,
) -> int
    decreases j,
{
    if j <= 0 {
        0
    } else {
        cnt_from_upto(es, rm, u, v, j - 1) + if (es[j - 1].0 as int) == u && (es[j - 1].1 as int)
            == v && !rm[u] {
            1int
        } else {
            0int
        }
    }
}

pub proof fn lemma_cnt_true_update(rm: Seq<bool>, i: int)
    requires
        0 <= i < rm.len(),
        !rm[i],
    ensures
        cnt_true(rm.update(i, true)) == cnt_true(rm) + 1,
    decreases rm.len(),
{
    let r2 = rm.update(i, true);
    if i == rm.len() - 1 {
        assert(r2.drop_last() =~= rm.drop_last());
    } else {
        assert(r2.drop_last() =~= rm.drop_last().update(i, true));
        lemma_cnt_true_update(rm.drop_last(), i);
    }
}

proof fn lemma_cnt_true_zero(rm: Seq<bool>)
    requires
        forall|i: int| 0 <= i < rm.len() ==> !rm[i],
    ensures
        cnt_true(rm) == 0,
    decreases rm.len(),
{
    if rm.len() > 0 {
        lemma_cnt_true_zero(rm.drop_last());
    }
}

pub proof fn lemma_cnt_true_bound(rm: Seq<bool>)
    ensures
        0 <= cnt_true(rm) <= rm.len(),
    decreases rm.len(),
{
    if rm.len() > 0 {
        lemma_cnt_true_bound(rm.drop_last());
    }
}

/// A fully counted set has every entry set.
proof fn lemma_cnt_true_full(rm: Seq<bool>, i: int)
    requires
        cnt_true(rm) == rm.len(),
        0 <= i < rm.len(),
    ensures
        rm[i],
    decreases rm.len(),
{
    lemma_cnt_true_bound(rm.drop_last());
    if i < rm.len() - 1 {
        lemma_cnt_true_full(rm.drop_last(), i);
    }
}

/// A partially counted set has an unset entry.
proof fn lemma_cnt_true_partial(rm: Seq<bool>) -> (i: int)
    requires
        cnt_true(rm) < rm.len(),
    ensures
        0 <= i < rm.len() && !rm[i],
    decreases rm.len(),
{
    lemma_cnt_true_bound(rm.drop_last());
    if !rm.last() {
        rm.len() - 1
    } else {
        let i = lemma_cnt_true_partial(rm.drop_last());
        i
    }
}

/// The first position of `ord` holding a node that `rm` has not removed.
proof fn first_unremoved(ord: Seq<int>, rm: Seq<bool>, jw: int) -> (j: int)
    requires
        0 <= jw < ord.len(),
        0 <= ord[jw] < rm.len(),
        !rm[ord[jw]],
    ensures
        0 <= j < ord.len(),
        0 <= ord[j] < rm.len() && !rm[ord[j]],
        forall|j2: int| 0 <= j2 < j ==> !(0 <= ord[j2] < rm.len() && !rm[ord[j2]]),
    decreases ord.len(),
{
    first_unremoved_search(ord, rm, jw, 0)
}

proof fn first_unremoved_search(ord: Seq<int>, rm: Seq<bool>, jw: int, lo: int) -> (j: int)
    requires
        0 <= lo <= jw < ord.len(),
        0 <= ord[jw] < rm.len(),
        !rm[ord[jw]],
    ensures
        lo <= j < ord.len(),
        0 <= ord[j] < rm.len() && !rm[ord[j]],
        forall|j2: int| lo <= j2 < j ==> !(0 <= ord[j2] < rm.len() && !rm[ord[j2]]),
    decreases jw - lo,
{
    if 0 <= ord[lo] < rm.len() && !rm[ord[lo]] {
        lo
    } else {
        first_unremoved_search(ord, rm, jw, lo + 1)
    }
}

/// Decides whether the listed directed edges over nodes `0..n` admit a
/// topological order, by peeling nodes of live in-degree zero.
fn topo_peel(n: u32, edges: &Vec<(u32, u32)>) -> (r: bool)
    requires
        forall|idx: int|
            0 <= idx < edges@.len() ==> ((#[trigger] edges@[idx]).0 < n && edges@[idx].1 < n),
    ensures
        r <==> exists|ord: Seq<int>| #[trigger] rel_topo_ok(n as int, edges@, ord),
{
    let nn = n as usize;
    let m = edges.len();
    let ghost es = edges@;
    let mut removed: Vec<bool> = vec![false; nn];
    let mut indeg: Vec<usize> = Vec::new();
    let mut v0: usize = 0;
    while v0 < nn
        invariant
            0 <= v0 <= nn,
            indeg@.len() == v0,
            forall|t: int| 0 <= t < v0 ==> (#[trigger] indeg@[t]) == 0,
        decreases nn - v0,
    {
        indeg.push(0);
        v0 += 1;
    }
    let mut idx: usize = 0;
    while idx < m
        invariant
            es == edges@,
            m == es.len(),
            nn == n as usize,
            0 <= idx <= m,
            removed@.len() == nn,
            indeg@.len() == nn,
            forall|t: int| 0 <= t < nn ==> !removed@[t],
            forall|idx2: int|
                0 <= idx2 < m ==> ((#[trigger] es[idx2]).0 < n && es[idx2].1 < n),
            forall|t: int|
                0 <= t < nn ==> (#[trigger] indeg@[t]) == live_in_upto(es, removed@, t, idx as int),
        decreases m - idx,
    {
        let b = edges[idx].1 as usize;
        proof {
            lemma_live_in_upto_nonneg(es, removed@, b as int, idx as int);
        }
        let d = indeg[b];
        indeg[b] = d + 1;
        idx += 1;
    }
    proof {
        lemma_cnt_true_zero(removed@);
    }
    let ghost mut ord: Seq<int> = Seq::empty();
    let mut done: usize = 0;
    loop
        invariant
            es == edges@,
            m == es.len(),
            nn == n as usize,
            removed@.len() == nn,
            indeg@.len() == nn,
            forall|idx2: int|
                0 <= idx2 < m ==> ((#[trigger] es[idx2]).0 < n && es[idx2].1 < n),
            done == ord.len(),
            done == cnt_true(removed@),
            done <= nn,
            ord.no_duplicates(),
            forall|j: int| 0 <= j < ord.len() ==> 0 <= (#[trigger] ord[j]) < nn,
            forall|t: int|
                0 <= t < nn ==> (removed@[t] <==> ord.contains(t)),
            forall|t: int| 0 <= t < nn ==> (#[trigger] indeg@[t]) == live_in(es, removed@, t),
            forall|j: int, idx2: int|
                0 <= j < ord.len() && 0 <= idx2 < m && ((#[trigger] es[idx2]).1 as int) == (
                #[trigger] ord[j]) ==> ord.take(j).contains(es[idx2].0 as int),
        ensures
            done == ord.len(),
            done == cnt_true(removed@),
            removed@.len() == nn,
            indeg@.len() == nn,
            ord.no_duplicates(),
            forall|j: int| 0 <= j < ord.len() ==> 0 <= (#[trigger] ord[j]) < nn,
            forall|t: int|
                0 <= t < nn ==> (removed@[t] <==> ord.contains(t)),
            forall|j: int, idx2: int|
                0 <= j < ord.len() && 0 <= idx2 < m && ((#[trigger] es[idx2]).1 as int) == (
                #[trigger] ord[j]) ==> ord.take(j).contains(es[idx2].0 as int),
            done == nn || forall|t: int|
                0 <= t < nn && !removed@[t] ==> live_in(es, removed@, t) > 0,
        decreases nn - done,
    {
        if done >= nn {
            break ;
        }
        // scan for an unremoved node of live in-degree zero
        let mut v: usize = 0;
        let mut found: bool = false;
        let mut pick: usize = 0;
        while v < nn
            invariant
                removed@.len() == nn,
                indeg@.len() == nn,
                0 <= v <= nn,
                !found ==> forall|t: int|
                    0 <= t < v ==> (removed@[t] || (#[trigger] indeg@[t]) > 0),
                found ==> pick < nn && !removed@[pick as int] && indeg@[pick as int] == 0,
            decreases nn - v,
        {
            if !found && !removed[v] && indeg[v] == 0 {
                found = true;
                pick = v;
            }
            v += 1;
        }
        if !found {
            proof {
                assert forall|t: int| 0 <= t < nn && !removed@[t] implies live_in(
                    es,
                    removed@,
                    t,
                ) > 0 by {
                    assert(indeg@[t] > 0);
                }
            }
            break ;
        }
        // remove pick
        let ghost rm0 = removed@;
        let ghost oldord = ord;
        removed[pick] = true;
        proof {
            lemma_cnt_true_update(rm0, pick as int);
            ord = ord.push(pick as int);
            assert(ord.drop_last() =~= oldord);
            assert(ord.take(ord.len() - 1) =~= oldord);
            assert(!oldord.contains(pick as int));
            assert forall|t: int| 0 <= t < nn implies (removed@[t] <==> ord.contains(t)) by {
                if removed@[t] {
                    if t == pick as int {
                        assert(ord[ord.len() - 1] == t);
                    } else {
                        assert(rm0[t]);
                        assert(oldord.contains(t));
                        let j = choose|j: int| 0 <= j < oldord.len() && oldord[j] == t;
                        assert(ord[j] == t);
                    }
                } else {
                    if ord.contains(t) {
                        let j = choose|j: int| 0 <= j < ord.len() && ord[j] == t;
                        if j < ord.len() - 1 {
                            assert(oldord[j] == t);
                            assert(oldord.contains(t));
                            assert(rm0[t]);
                        }
                        assert(false);
                    }
                }
            }
            assert(ord.no_duplicates()) by {
                assert forall|a: int, b: int|
                    (0 <= a < ord.len() && 0 <= b < ord.len() && a != b) implies ord[a] != ord[b]
                by {
                    if a < ord.len() - 1 && b < ord.len() - 1 {
                        assert(ord[a] == oldord[a] && ord[b] == oldord[b]);
                    } else {
                        let other = if a < ord.len() - 1 {
                            a
                        } else {
                            b
                        };
                        if 0 <= other < ord.len() - 1 && ord[other] == pick as int {
                            assert(oldord[other] == pick as int);
                            assert(oldord.contains(pick as int));
                            assert(false);
                        }
                    }
                }
            }
            // in-edges of the appended node were all removed earlier
            assert forall|j: int, idx2: int|
                0 <= j < ord.len() && 0 <= idx2 < m && ((#[trigger] es[idx2]).1 as int) == (
            #[trigger] ord[j]) implies ord.take(j).contains(es[idx2].0 as int) by {
                if j < ord.len() - 1 {
                    assert(ord[j] == oldord[j]);
                    assert(oldord.take(j).contains(es[idx2].0 as int));
                    let jj = choose|jj: int|
                        0 <= jj < j && (#[trigger] oldord.take(j)[jj]) == es[idx2].0 as int;
                    assert(ord.take(j)[jj] == es[idx2].0 as int);
                } else {
                    assert(live_in(es, rm0, pick as int) == 0);
                    assert(rm0[es[idx2].0 as int]) by {
                        if !rm0[es[idx2].0 as int] {
                            lemma_live_in_upto_witness(es, rm0, pick as int, m as int, idx2);
                        }
                    }
                    assert(oldord.contains(es[idx2].0 as int));
                    let jj = choose|jj: int|
                        0 <= jj < oldord.len() && oldord[jj] == es[idx2].0 as int;
                    assert(ord.take(j)[jj] == es[idx2].0 as int);
                    assert(ord.take(j).contains(es[idx2].0 as int));
                }
            }
        }
        // decrement live in-degrees of pick's out-edges
        let mut j2: usize = 0;
        while j2 < m
            invariant
                es == edges@,
                m == es.len(),
                nn == n as usize,
                removed@.len() == nn,
                indeg@.len() == nn,
                0 <= j2 <= m,
                pick < nn,
                rm0.len() == nn,
                removed@ == rm0.update(pick as int, true),
                !rm0[pick as int],
                forall|idx2: int|
                    0 <= idx2 < m ==> ((#[trigger] es[idx2]).0 < n && es[idx2].1 < n),
                forall|t: int|
                    0 <= t < nn ==> (#[trigger] indeg@[t]) == live_in(es, rm0, t) - cnt_from_upto(
                        es,
                        rm0,
                        pick as int,
                        t,
                        j2 as int,
                    ),
            decreases m - j2,
        {
            let (a, b) = (edges[j2].0, edges[j2].1);
            proof {
                let t = b as int;
                lemma_live_in_upto_update(es, rm0, pick as int, t, m as int);
                lemma_live_in_upto_nonneg(es, rm0.update(pick as int, true), t, m as int);
            }
            if a as usize == pick {
                let d = indeg[b as usize];
                proof {
                    let t = b as int;
                    // the edge j2 is still counted in the remaining difference
                    lemma_cnt_from_between(es, rm0, pick as int, t, j2 as int, m as int);
                }
                indeg[b as usize] = d - 1;
            }
            proof {
                assert forall|t: int| 0 <= t < nn implies (#[trigger] indeg@[t]) == live_in(
                    es,
                    rm0,
                    t,
                ) - cnt_from_upto(es, rm0, pick as int, t, j2 as int + 1) by {}
            }
            j2 += 1;
        }
        proof {
            assert forall|t: int| 0 <= t < nn implies (#[trigger] indeg@[t]) == live_in(
                es,
                removed@,
                t,
            ) by {
                lemma_live_in_upto_update(es, rm0, pick as int, t, m as int);
            }
        }
        done += 1;
    }
    if done == nn {
        proof {
            assert forall|t: int| 0 <= t < nn implies removed@[t] by {
                lemma_cnt_true_full(removed@, t);
            }
            assert(rel_topo_ok(n as int, es, ord)) by {
                assert forall|v: int| 0 <= v < n implies ord.contains(v) by {
                    assert(removed@[v]);
                }
                assert forall|idx2: int, j1: int, j2: int|
                    0 <= idx2 < es.len() && 0 <= j1 < ord.len() && 0 <= j2 < ord.len() && (
                #[trigger] ord[j1]) == ((#[trigger] es[idx2]).0 as int) && (#[trigger] ord[j2])
                    == (es[idx2].1 as int) implies j1 < j2 by {
                    assert(ord.take(j2).contains(es[idx2].0 as int));
                    let jj = choose|jj: int| 0 <= jj < j2 && ord.take(j2)[jj] == es[idx2].0 as int;
                    assert(ord[jj] == ord[j1]);
                    assert(jj == j1);
                }
            }
        }
        true
    } else {
        proof {
            lemma_cnt_true_bound(removed@);
            if exists|ord2: Seq<int>| #[trigger] rel_topo_ok(n as int, es, ord2) {
                let ord2 = choose|ord2: Seq<int>| #[trigger] rel_topo_ok(n as int, es, ord2);
                let i0 = lemma_cnt_true_partial(removed@);
                assert(ord2.contains(i0));
                let jw = choose|jw: int| 0 <= jw < ord2.len() && ord2[jw] == i0;
                let jstar = first_unremoved(ord2, removed@, jw);
                let vstar = ord2[jstar];
                assert(live_in(es, removed@, vstar) > 0);
                lemma_live_in_upto_pos(es, removed@, vstar, m as int);
                let idx2 = choose|idx2: int|
                    0 <= idx2 < m && ((#[trigger] es[idx2]).1 as int) == vstar && !removed@[es[idx2].0 as int];
                let usrc = es[idx2].0 as int;
                assert(ord2.contains(usrc));
                let ju = choose|ju: int| 0 <= ju < ord2.len() && ord2[ju] == usrc;
                assert(ju < jstar);
                assert(!(0 <= ord2[ju] < removed@.len() && !removed@[ord2[ju]]));
                assert(false);
            }
        }
        false
    }
}

/// Edges from `u` to `v` between two prefix bounds keep the difference of
/// remaining decrements positive while one such edge is still uncounted.
proof fn lemma_cnt_from_between(
    es: Seq<(u32, u32)>,
    rm: Seq<bool>,
    u: int,
    v: int,
    j: int,
    m: int,
)
    requires
        0 <= j < m <= es.len(),
        (es[j].0 as int) == u,
        (es[j].1 as int) == v,
        !rm[u],
    ensures
        cnt_from_upto(es, rm, u, v, m) > cnt_from_upto(es, rm, u, v, j),
    decreases m,
{
    if m - 1 > j {
        lemma_cnt_from_between(es, rm, u, v, j, m - 1);
        lemma_cnt_from_nonneg_step(es, rm, u, v, m);
    }
}

proof fn lemma_cnt_from_nonneg_step(es: Seq<(u32, u32)>, rm: Seq<bool>, u: int, v: int, m: int)
    requires
        0 < m <= es.len(),
    ensures
        cnt_from_upto(es, rm, u, v, m) >= cnt_from_upto(es, rm, u, v, m - 1),
{
}

/// Whether the directed sub-part of the graph is acyclic: exactly when a
/// topological order of its directed edges exists.
#[verifier::rlimit(60)]
pub fn directed_part_is_acyclic(core: &CaugiGraph) -> (r: bool)
    requires
        core@.wf(),
    ensures
        r <==> core@.directed_acyclic(),
{
    let n = core.n();
    let nn = n as usize;
    let mut edges: Vec<(u32, u32)> = Vec::new();
    let mut i: usize = 0;
    while i < nn
        invariant
            core@.wf(),
            nn == core@.nodes as usize,
            n == core@.nodes,
            0 <= i <= nn,
            forall|idx: int|
                0 <= idx < edges@.len() ==> ((#[trigger] edges@[idx]).0 < n && edges@[idx].1 < n),
            forall|idx: int|
                0 <= idx < edges@.len() ==> core@.dir_edge(
                    (#[trigger] edges@[idx]).0 as int,
                    edges@[idx].1 as int,
                ),
            forall|i2: int, k: int|
                #[trigger] core@.in_row(i2, k) && i2 < i && core@.class_at(k) == EdgeClass::Directed
                    ==> (core@.entries[k].side == 0 ==> edge_pair(
                    edges@,
                    i2,
                    core@.entries[k].col as int,
                )) && (core@.entries[k].side == 1 ==> edge_pair(
                    edges@,
                    core@.entries[k].col as int,
                    i2,
                )),
        decreases nn - i,
    {
        let (ks, ke) = core.row_range(i as u32);
        let mut k = ks;
        while k < ke
            invariant
                core@.wf(),
                nn == core@.nodes as usize,
                n == core@.nodes,
                0 <= i < nn,
                ks == core@.row_ranges[i as int],
                ke == core@.row_ranges[i as int + 1],
                ks <= k <= ke,
                forall|idx: int|
                    0 <= idx < edges@.len() ==> ((#[trigger] edges@[idx]).0 < n && edges@[idx].1
                        < n),
                forall|idx: int|
                    0 <= idx < edges@.len() ==> core@.dir_edge(
                        (#[trigger] edges@[idx]).0 as int,
                        edges@[idx].1 as int,
                    ),
                forall|i2: int, k2: int|
                    #[trigger] core@.in_row(i2, k2) && (i2 < i || (i2 == i && k2 < k)) && core@.class_at(
                        k2,
                    ) == EdgeClass::Directed ==> (core@.entries[k2].side == 0 ==> edge_pair(
                        edges@,
                        i2,
                        core@.entries[k2].col as int,
                    )) && (core@.entries[k2].side == 1 ==> edge_pair(
                        edges@,
                        core@.entries[k2].col as int,
                        i2,
                    )),
            decreases ke - k,
        {
            proof {
                crate::graph::lemma_ranges_monotone(core@, i as int + 1, core@.nodes as int);
            }
            let e = core.entry(k);
            let c = core.arc_class(k);
            let ghost before = edges@;
            if matches!(c, EdgeClass::Directed) {
                if e.side == 0 {
                    edges.push((i as u32, e.col));
                } else {
                    edges.push((e.col, i as u32));
                }
            }
            proof {
                let kk = k as int;
                assert(core@.in_row(i as int, kk));
                if core@.class_at(kk) == EdgeClass::Directed {
                    if core@.entries[kk].side == 0 {
                        assert(edges@[edges@.len() - 1] == (i as u32, core@.entries[kk].col));
                        assert(core@.dir_adj(false, core@.entries[kk].col as int, i as int));
                    } else {
                        assert(edges@[edges@.len() - 1] == (core@.entries[kk].col, i as u32));
                        assert(core@.dir_adj(true, core@.entries[kk].col as int, i as int));
                    }
                }
                assert forall|i2: int, k2: int|
                    #[trigger] core@.in_row(i2, k2) && (i2 < i || (i2 == i && k2 < k + 1))
                        && core@.class_at(k2) == EdgeClass::Directed implies (core@.entries[k2].side == 0
                    ==> edge_pair(edges@, i2, core@.entries[k2].col as int)) && (core@.entries[k2].side
                    == 1 ==> edge_pair(edges@, core@.entries[k2].col as int, i2)) by {
                    if i2 < i || (i2 == i && k2 < k) {
                        if core@.entries[k2].side == 0 {
                            if edge_pair(before, i2, core@.entries[k2].col as int) {
                                let idx = choose|idx: int|
                                    0 <= idx < before.len() && ((#[trigger] before[idx]).0 as int)
                                        == i2 && (before[idx].1 as int) == core@.entries[k2].col as int;
                                assert(edges@[idx] == before[idx]);
                            }
                        }
                        if core@.entries[k2].side == 1 {
                            if edge_pair(before, core@.entries[k2].col as int, i2) {
                                let idx = choose|idx: int|
                                    0 <= idx < before.len() && ((#[trigger] before[idx]).0 as int)
                                        == core@.entries[k2].col as int && (before[idx].1 as int) == i2;
                                assert(edges@[idx] == before[idx]);
                            }
                        }
                    } else {
                        assert(k2 == k as int && i2 == i as int);
                    }
                }
            }
            k += 1;
        }
        i += 1;
    }
    let r = topo_peel(n, &edges);
    proof {
        let es = edges@;
        // the listed pairs are exactly the directed edges
        assert forall|u: int, v: int| #[trigger] core@.dir_edge(u, v) implies edge_pair(es, u, v) by {
            if core@.dir_adj(false, v, u) {
                let k = choose|k: int|
                    #[trigger] core@.in_row(u, k) && core@.class_at(k) == EdgeClass::Directed
                        && core@.entries[k].side == 0 && core@.entries[k].col as int == v;
                assert(core@.in_row(u, k));
            } else {
                let k = choose|k: int|
                    #[trigger] core@.in_row(v, k) && core@.class_at(k) == EdgeClass::Directed
                        && core@.entries[k].side == 1 && core@.entries[k].col as int == u;
                assert(core@.in_row(v, k));
            }
        }
        if r {
            let ord = choose|ord: Seq<int>| #[trigger] rel_topo_ok(n as int, es, ord);
            assert(core@.topo_order_ok(ord)) by {
                assert forall|u: int, v: int, j1: int, j2: int|
                    #[trigger] core@.dir_edge(u, v) && 0 <= j1 < ord.len() && 0 <= j2 < ord.len()
                        && (#[trigger] ord[j1]) == u && (#[trigger] ord[j2]) == v implies j1 < j2
                by {
                    assert(edge_pair(es, u, v));
                    let idx = choose|idx: int|
                        0 <= idx < es.len() && ((#[trigger] es[idx]).0 as int) == u && (
                        es[idx].1 as int) == v;
                }
            }
        } else {
            if core@.directed_acyclic() {
                let ord = choose|ord: Seq<int>| #[trigger] core@.topo_order_ok(ord);
                assert(rel_topo_ok(n as int, es, ord)) by {
                    assert forall|idx: int, j1: int, j2: int|
                        0 <= idx < es.len() && 0 <= j1 < ord.len() && 0 <= j2 < ord.len() && (
                    #[trigger] ord[j1]) == ((#[trigger] es[idx]).0 as int) && (#[trigger] ord[j2])
                        == (es[idx].1 as int) implies j1 < j2 by {
                        assert(core@.dir_edge(es[idx].0 as int, es[idx].1 as int));
                    }
                }
                assert(false);
            }
        }
    }
    r
}

} // verus!
