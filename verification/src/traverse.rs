//! Transitive closure over directed parent or child edges: the ancestor and
//! descendant sets, computed by an iterative stack traversal with a seen-set
//! and returned ascending and deduplicated.

use vstd::prelude::*;
use crate::acyclic::{cnt_true, lemma_cnt_true_bound, lemma_cnt_true_update};
use crate::graph::{dir_sel, lemma_dir_cols_adj, lemma_reach_in_range, CaugiGraph, GraphV};
use crate::order::sorted_ids;

verus! {

/// The neighbors of `v` along directed arcs in the given direction, in row
/// order: parents when `up`, children when not.
fn adj_list(core: &CaugiGraph, v: u32, up: bool) -> (r: Vec<u32>)
    requires
        core@.wf(),
        (v as int) < core@.nodes,
    ensures
        r@ == core@.sel_cols(v as int, dir_sel(up)),
{
    let ghost g = core@;
    let (ks, ke) = core.row_range(v);
    let mut out: Vec<u32> = Vec::new();
    let mut jj: usize = 0;
    let rlen = ke - ks;
    while jj < rlen
        invariant
            g == core@,
            g.wf(),
            0 <= (v as int) < g.nodes,
            ks == g.row_ranges[v as int],
            ke == g.row_ranges[v as int + 1],
            rlen == ke - ks,
            0 <= jj <= rlen,
            out@ == g.sel_cols_upto(v as int, dir_sel(up), jj as int),
        decreases rlen - jj,
    {
        let k = ks + jj;
        proof {
            crate::graph::lemma_ranges_monotone(g, v as int + 1, g.nodes as int);
            assert(k < g.entries.len());
        }
        let e = core.entry(k);
        let c = core.arc_class(k);
        if matches!(c, crate::edges::EdgeClass::Directed) && e.side == (if up {
            1u8
        } else {
            0u8
        }) {
            out.push(e.col);
        }
        jj += 1;
    }
    out
}

/// Once the stack is empty, the seen-set is closed under one more step, so
/// it swallows every node a parent/child path from `i` reaches.
proof fn lemma_closed_under_reach(g: GraphV, up: bool, i: int, seen: Seq<bool>, p: Seq<int>)
    requires
        g.wf(),
        seen.len() == g.nodes,
        0 <= i < g.nodes,
        p.len() >= 2,
        p[0] == i,
        forall|j: int| #![trigger p[j]] 0 <= j < p.len() - 1 ==> g.dir_adj(up, p[j + 1], p[j]),
        forall|pi: int| #[trigger] g.dir_adj(up, pi, i) ==> 0 <= pi < g.nodes && seen[pi],
        forall|vi: int, pi: int|
            0 <= vi < g.nodes && seen[vi] && #[trigger] g.dir_adj(up, pi, vi) ==> 0 <= pi
                < g.nodes && seen[pi],
    ensures
        0 <= p[p.len() - 1] < g.nodes && seen[p[p.len() - 1]],
    decreases p.len(),
{
    if p.len() == 2 {
        assert(g.dir_adj(up, p[1], p[0]));
    } else {
        let q = p.drop_last();
        assert forall|j: int| #![trigger q[j]] 0 <= j < q.len() - 1 implies g.dir_adj(
            up,
            q[j + 1],
            q[j],
        ) by {
            assert(q[j + 1] == p[j + 1] && q[j] == p[j]);
            assert(p[j] == p[j]);
        }
        lemma_closed_under_reach(g, up, i, seen, q);
        assert(p[p.len() - 2] == p[p.len() - 2]);
        assert(g.dir_adj(up, p[(p.len() - 2) + 1], p[p.len() - 2]));
    }
}

/// One expansion step of the traversal keeps every invariant: the popped
/// unseen node is recorded and its neighbors join the frontier.
/// Recording a popped unseen node keeps the output invariants.
proof fn lemma_expand_out(
    g: GraphV,
    up: bool,
    i: int,
    n: int,
    seen0: Seq<bool>,
    seen1: Seq<bool>,
    out0: Seq<u32>,
    out1: Seq<u32>,
    u: u32,
)
    requires
        g.wf(),
        n == g.nodes,
        0 <= i < n,
        seen0.len() == n,
        (u as int) < n,
        !seen0[u as int],
        g.dir_reaches(up, i, u as int),
        seen1 == seen0.update(u as int, true),
        out1 == out0.push(u),
        out0.no_duplicates(),
        forall|j: int| 0 <= j < out0.len() ==> ((#[trigger] out0[j]) as int) < n,
        forall|j: int| 0 <= j < out0.len() ==> seen0[out0[j] as int],
        forall|v: int| 0 <= v < n && seen0[v] ==> out0.contains(v as u32),
        forall|v: int| 0 <= v < n && #[trigger] seen0[v] ==> g.dir_reaches(up, i, v),
    ensures
        out1.no_duplicates(),
        forall|j: int| 0 <= j < out1.len() ==> ((#[trigger] out1[j]) as int) < n,
        forall|j: int| 0 <= j < out1.len() ==> seen1[out1[j] as int],
        forall|v: int| 0 <= v < n && seen1[v] ==> out1.contains(v as u32),
        forall|v: int| 0 <= v < n && #[trigger] seen1[v] ==> g.dir_reaches(up, i, v),
{
    assert forall|a: int, b: int|
        (0 <= a < out1.len() && 0 <= b < out1.len() && a != b) implies out1[a] != out1[b] by {
        if a < out1.len() - 1 && b < out1.len() - 1 {
        } else {
            let other = if a < out1.len() - 1 {
                a
            } else {
                b
            };
            if 0 <= other < out1.len() - 1 && out1[other] == u {
                assert(out0[other] == u);
                assert(seen0[out0[other] as int]);
                assert(false);
            }
        }
    }
    assert forall|v: int| 0 <= v < n && seen1[v] implies out1.contains(v as u32) by {
        if v == u as int {
            assert(out1[out1.len() - 1] == u);
        } else {
            assert(seen0[v]);
            assert(out0.contains(v as u32));
            let j = choose|j: int| 0 <= j < out0.len() && out0[j] == v as u32;
            assert(out1[j] == v as u32);
        }
    }
}

/// The neighbors pushed for a newly recorded node are all reachable.
proof fn lemma_expand_stack(
    g: GraphV,
    up: bool,
    i: int,
    n: int,
    stack0: Seq<u32>,
    stack1: Seq<u32>,
    adj0: Seq<u32>,
    st2: Seq<u32>,
    u: u32,
)
    requires
        g.wf(),
        n == g.nodes,
        0 <= i < n,
        (u as int) < n,
        stack0.len() > 0,
        stack0[stack0.len() - 1] == u,
        stack1 == stack0.drop_last(),
        adj0 == g.sel_cols(u as int, dir_sel(up)),
        st2 == stack1 + adj0,
        g.dir_reaches(up, i, u as int),
        forall|j: int|
            0 <= j < stack0.len() ==> ((#[trigger] stack0[j]) as int) < n && g.dir_reaches(
                up,
                i,
                stack0[j] as int,
            ),
    ensures
        forall|j: int|
            0 <= j < st2.len() ==> ((#[trigger] st2[j]) as int) < n && g.dir_reaches(
                up,
                i,
                st2[j] as int,
            ),
{
    lemma_dir_cols_adj(g, u as int, up);
    crate::graph::lemma_sel_cols_in_range(g, u as int, dir_sel(up));
    assert forall|j: int|
        0 <= j < st2.len() implies ((#[trigger] st2[j]) as int) < n && g.dir_reaches(
        up,
        i,
        st2[j] as int,
    ) by {
        if j < stack1.len() {
            assert(st2[j] == stack1[j]);
            assert(stack1[j] == stack0[j]);
        } else {
            let w = st2[j];
            assert(adj0[j - stack1.len()] == w);
            assert(adj0.contains(w));
            assert(g.dir_adj(up, w as int, u as int));
            let p = choose|p: Seq<int>|
                p.len() >= 2 && p[0] == i && p[p.len() - 1] == u as int && #[trigger] g.dir_chain(
                    up,
                    p,
                );
            let p2 = p.push(w as int);
            assert forall|j2: int| #![trigger p2[j2]] 0 <= j2 < p2.len() - 1 implies g.dir_adj(
                up,
                p2[j2 + 1],
                p2[j2],
            ) by {
                if j2 < p.len() - 1 {
                    assert(p2[j2 + 1] == p[j2 + 1] && p2[j2] == p[j2]);
                    assert(p[j2] == p[j2]);
                    assert(g.dir_adj(up, p[j2 + 1], p[j2]));
                } else {
                    assert(p2[j2] == u as int && p2[j2 + 1] == w as int);
                }
            }
            assert(g.dir_chain(up, p2));
            assert(g.dir_reaches(up, i, w as int));
        }
    }
}

/// Marking a node seen and pushing its neighbors keeps every seen node's
/// one-step frontier inside the seen-set or the stack.
proof fn lemma_expand_frontier(
    g: GraphV,
    up: bool,
    i: int,
    n: int,
    seen0: Seq<bool>,
    seen1: Seq<bool>,
    stack0: Seq<u32>,
    stack1: Seq<u32>,
    adj0: Seq<u32>,
    st2: Seq<u32>,
    u: u32,
)
    requires
        g.wf(),
        n == g.nodes,
        0 <= i < n,
        seen0.len() == n,
        (u as int) < n,
        !seen0[u as int],
        stack0.len() > 0,
        stack0[stack0.len() - 1] == u,
        stack1 == stack0.drop_last(),
        adj0 == g.sel_cols(u as int, dir_sel(up)),
        st2 == stack1 + adj0,
        seen1 == seen0.update(u as int, true),
        forall|pi: int|
            #[trigger] g.dir_adj(up, pi, i) ==> 0 <= pi < n && (seen0[pi] || stack0.contains(
                pi as u32,
            )),
        forall|vi: int, pi: int|
            0 <= vi < n && seen0[vi] && #[trigger] g.dir_adj(up, pi, vi) ==> 0 <= pi < n && (
            seen0[pi] || stack0.contains(pi as u32)),
    ensures
        forall|pi: int|
            #[trigger] g.dir_adj(up, pi, i) ==> 0 <= pi < n && (seen1[pi] || st2.contains(
                pi as u32,
            )),
        forall|vi: int, pi: int|
            0 <= vi < n && seen1[vi] && #[trigger] g.dir_adj(up, pi, vi) ==> 0 <= pi < n && (
            seen1[pi] || st2.contains(pi as u32)),
{
    lemma_dir_cols_adj(g, u as int, up);
    crate::graph::lemma_sel_cols_in_range(g, u as int, dir_sel(up));
    assert forall|vi: int, pi: int|
        0 <= vi < n && seen1[vi] && #[trigger] g.dir_adj(up, pi, vi) implies 0 <= pi < n && (
    seen1[pi] || st2.contains(pi as u32)) by {
        if vi == u as int {
            crate::graph::lemma_dir_adj_in_range(g, up, pi, vi);
            assert(g.dir_adj(up, (pi as u32) as int, u as int));
            assert(g.sel_cols(u as int, dir_sel(up)).contains(pi as u32));
            let j = choose|j: int| 0 <= j < adj0.len() && adj0[j] == pi as u32;
            assert(st2[stack1.len() + j] == pi as u32);
            assert(st2.contains(pi as u32));
        } else {
            assert(seen0[vi]);
            if !seen0[pi] {
                assert(stack0.contains(pi as u32));
                let j = choose|j: int| 0 <= j < stack0.len() && stack0[j] == pi as u32;
                if pi == u as int {
                    assert(seen1[pi]);
                } else if j < stack0.len() - 1 {
                    assert(stack1[j] == pi as u32);
                    assert(st2[j] == pi as u32);
                    assert(st2.contains(pi as u32));
                } else {
                    assert(stack0[j] == u);
                    assert(false);
                }
            }
        }
    }
    assert forall|pi: int|
        #[trigger] g.dir_adj(up, pi, i) implies 0 <= pi < n && (seen1[pi] || st2.contains(
        pi as u32,
    )) by {
        if !seen0[pi] && pi != u as int {
            assert(stack0.contains(pi as u32));
            let j = choose|j: int| 0 <= j < stack0.len() && stack0[j] == pi as u32;
            if j < stack0.len() - 1 {
                assert(st2[j] == pi as u32);
                assert(st2.contains(pi as u32));
            } else {
                assert(false);
            }
        }
    }
}

/// Popping an already-seen node keeps the frontier property.
proof fn lemma_skip_step(
    g: GraphV,
    up: bool,
    i: int,
    n: int,
    seen1: Seq<bool>,
    stack0: Seq<u32>,
    stack1: Seq<u32>,
    u: u32,
)
    requires
        g.wf(),
        n == g.nodes,
        0 <= i < n,
        seen1.len() == n,
        (u as int) < n,
        seen1[u as int],
        stack0.len() > 0,
        stack0[stack0.len() - 1] == u,
        stack1 == stack0.drop_last(),
        forall|pi: int|
            #[trigger] g.dir_adj(up, pi, i) ==> 0 <= pi < n && (seen1[pi] || stack0.contains(
                pi as u32,
            )),
        forall|vi: int, pi: int|
            0 <= vi < n && seen1[vi] && #[trigger] g.dir_adj(up, pi, vi) ==> 0 <= pi < n && (
            seen1[pi] || stack0.contains(pi as u32)),
    ensures
        forall|pi: int|
            #[trigger] g.dir_adj(up, pi, i) ==> 0 <= pi < n && (seen1[pi] || stack1.contains(
                pi as u32,
            )),
        forall|vi: int, pi: int|
            0 <= vi < n && seen1[vi] && #[trigger] g.dir_adj(up, pi, vi) ==> 0 <= pi < n && (
            seen1[pi] || stack1.contains(pi as u32)),
{
    assert forall|vi: int, pi: int|
        0 <= vi < n && seen1[vi] && #[trigger] g.dir_adj(up, pi, vi) implies 0 <= pi < n && (
    seen1[pi] || stack1.contains(pi as u32)) by {
        if !seen1[pi] {
            assert(stack0.contains(pi as u32));
            let j = choose|j: int| 0 <= j < stack0.len() && stack0[j] == pi as u32;
            if j < stack0.len() - 1 {
                assert(stack1[j] == pi as u32);
            } else {
                assert(stack0[j] == u);
                assert(seen1[pi]);
            }
        }
    }
    assert forall|pi: int|
        #[trigger] g.dir_adj(up, pi, i) implies 0 <= pi < n && (seen1[pi] || stack1.contains(
        pi as u32,
    )) by {
        if !seen1[pi] {
            assert(stack0.contains(pi as u32));
            let j = choose|j: int| 0 <= j < stack0.len() && stack0[j] == pi as u32;
            if j < stack0.len() - 1 {
                assert(stack1[j] == pi as u32);
            } else {
                assert(stack0[j] == u);
                assert(seen1[pi]);
            }
        }
    }
}

/// The direct neighbors of `i` seed the traversal: each is reachable, and
/// every one-step neighbor of `i` sits on the initial stack.
proof fn lemma_init_frontier(g: GraphV, up: bool, i: int, n: int, st: Seq<u32>)
    requires
        g.wf(),
        n == g.nodes,
        0 <= i < n,
        st == g.sel_cols(i, dir_sel(up)),
    ensures
        forall|j: int|
            0 <= j < st.len() ==> ((#[trigger] st[j]) as int) < n && g.dir_reaches(
                up,
                i,
                st[j] as int,
            ),
        forall|pi: int|
            #[trigger] g.dir_adj(up, pi, i) ==> 0 <= pi < n && st.contains(pi as u32),
{
    lemma_dir_cols_adj(g, i, up);
    crate::graph::lemma_sel_cols_in_range(g, i, dir_sel(up));
    assert forall|j: int|
        0 <= j < st.len() implies ((#[trigger] st[j]) as int) < n && g.dir_reaches(
        up,
        i,
        st[j] as int,
    ) by {
        let w = st[j];
        assert(g.sel_cols(i, dir_sel(up)).contains(w));
        assert(g.dir_adj(up, w as int, i));
        let p = seq![i, w as int];
        assert(p[1int] == w as int);
        assert(g.dir_chain(up, p));
        assert(g.dir_reaches(up, i, w as int));
    }
    assert forall|pi: int|
        #[trigger] g.dir_adj(up, pi, i) implies 0 <= pi < n && st.contains(pi as u32) by {
        crate::graph::lemma_dir_adj_in_range(g, up, pi, i);
        assert(g.dir_adj(up, (pi as u32) as int, i));
        assert(g.sel_cols(i, dir_sel(up)).contains(pi as u32));
    }
}

/// When the stack is drained, the sorted seen-set is exactly the reach set.
proof fn lemma_finish(g: GraphV, up: bool, i: int, n: int, seen: Seq<bool>, outs: Seq<u32>, rs: Seq<u32>)
    requires
        g.wf(),
        n == g.nodes,
        0 <= i < n,
        seen.len() == n,
        rs == crate::order::sort_asc(outs),
        outs.no_duplicates(),
        forall|j: int| 0 <= j < outs.len() ==> seen[(#[trigger] outs[j]) as int],
        forall|j: int| 0 <= j < outs.len() ==> ((#[trigger] outs[j]) as int) < n,
        forall|v: int| 0 <= v < n && seen[v] ==> outs.contains(v as u32),
        forall|v: int| 0 <= v < n && #[trigger] seen[v] ==> g.dir_reaches(up, i, v),
        forall|pi: int| #[trigger] g.dir_adj(up, pi, i) ==> 0 <= pi < n && seen[pi],
        forall|vi: int, pi: int|
            0 <= vi < n && seen[vi] && #[trigger] g.dir_adj(up, pi, vi) ==> 0 <= pi < n
                && seen[pi],
    ensures
        forall|a: int, b: int| 0 <= a < b < rs.len() ==> rs[a] < rs[b],
        forall|u: u32| rs.contains(u) <==> g.dir_reaches(up, i, u as int),
{
    broadcast use vstd::seq_lib::group_to_multiset_ensures;

    crate::order::lemma_sort_asc_ensures(outs);
    outs.lemma_multiset_has_no_duplicates();
    rs.lemma_multiset_has_no_duplicates_conv();
    crate::order::lemma_sorted_distinct_strict(rs);
    assert forall|u: u32| rs.contains(u) <==> g.dir_reaches(up, i, u as int) by {
        if rs.contains(u) {
            assert(outs.contains(u));
            let j = choose|j: int| 0 <= j < outs.len() && outs[j] == u;
            assert(seen[outs[j] as int]);
        }
        if g.dir_reaches(up, i, u as int) {
            lemma_reach_in_range(g, up, i, u as int);
            let p = choose|p: Seq<int>|
                p.len() >= 2 && p[0] == i && p[p.len() - 1] == u as int && #[trigger] g.dir_chain(
                    up,
                    p,
                );
            lemma_closed_under_reach(g, up, i, seen, p);
            assert(seen[u as int]);
            assert(outs.contains(u));
        }
    }
}

/// The set of nodes reached from `i` by one or more directed parent steps
/// (when `up`) or child steps, ascending and without duplicates.
pub fn reach_set(core: &CaugiGraph, i: u32, up: bool) -> (r: Vec<u32>)
    requires
        core@.wf(),
        (i as int) < core@.nodes,
    ensures
        forall|a: int, b: int| 0 <= a < b < r@.len() ==> r@[a] < r@[b],
        forall|u: u32| r@.contains(u) <==> core@.dir_reaches(up, i as int, u as int),
{
    let ghost g = core@;
    let n = core.n() as usize;
    let mut seen: Vec<bool> = vec![false; n];
    let mut out: Vec<u32> = Vec::new();
    let mut stack: Vec<u32> = adj_list(core, i, up);
    proof {
        lemma_init_frontier(g, up, i as int, n as int, stack@);
    }
    loop
        invariant
            g == core@,
            g.wf(),
            n == g.nodes as usize,
            0 <= (i as int) < g.nodes,
            seen@.len() == n,
            out@.no_duplicates(),
            forall|j: int| 0 <= j < out@.len() ==> ((#[trigger] out@[j]) as int) < n,
            forall|j: int| 0 <= j < out@.len() ==> seen@[out@[j] as int],
            forall|v: int| 0 <= v < n && seen@[v] ==> out@.contains(v as u32),
            forall|v: int| 0 <= v < n && #[trigger] seen@[v] ==> g.dir_reaches(up, i as int, v),
            forall|j: int|
                0 <= j < stack@.len() ==> ((#[trigger] stack@[j]) as int) < n && g.dir_reaches(
                    up,
                    i as int,
                    stack@[j] as int,
                ),
            forall|pi: int|
                #[trigger] g.dir_adj(up, pi, i as int) ==> 0 <= pi < n && (seen@[pi]
                    || stack@.contains(pi as u32)),
            forall|vi: int, pi: int|
                0 <= vi < n && seen@[vi] && #[trigger] g.dir_adj(up, pi, vi) ==> 0 <= pi < n && (
                seen@[pi] || stack@.contains(pi as u32)),
        ensures
            stack@.len() == 0,
            seen@.len() == n,
            out@.no_duplicates(),
            forall|j: int| 0 <= j < out@.len() ==> ((#[trigger] out@[j]) as int) < n,
            forall|j: int| 0 <= j < out@.len() ==> seen@[out@[j] as int],
            forall|v: int| 0 <= v < n && seen@[v] ==> out@.contains(v as u32),
            forall|v: int| 0 <= v < n && #[trigger] seen@[v] ==> g.dir_reaches(up, i as int, v),
            forall|pi: int| #[trigger] g.dir_adj(up, pi, i as int) ==> 0 <= pi < n && seen@[pi],
            forall|vi: int, pi: int|
                0 <= vi < n && seen@[vi] && #[trigger] g.dir_adj(up, pi, vi) ==> 0 <= pi < n
                    && seen@[pi],
        decreases (n as int) - cnt_true(seen@), stack@.len(),
    {
        proof {
            lemma_cnt_true_bound(seen@);
        }
        if stack.len() == 0 {
            break ;
        }
        let ghost stack0 = stack@;
        let u = match stack.pop() {
            Some(x) => x,
            None => {
                proof {
                    assert(false);
                }
                0
            },
        };
        proof {
            assert(stack0[stack0.len() - 1] == u);
            assert(stack@ =~= stack0.drop_last());
        }
        if !seen[u as usize] {
            let ghost seen0 = seen@;
            let ghost out0 = out@;
            seen[u as usize] = true;
            out.push(u);
            let mut adj = adj_list(core, u, up);
            let ghost stack1 = stack@;
            let ghost adj0 = adj@;
            stack.append(&mut adj);
            proof {
                lemma_cnt_true_update(seen0, u as int);
                lemma_cnt_true_bound(seen@);
                assert(stack@ =~= stack1 + adj0);
                assert(g.dir_reaches(up, i as int, u as int));
                lemma_expand_out(g, up, i as int, n as int, seen0, seen@, out0, out@, u);
                lemma_expand_stack(
                    g,
                    up,
                    i as int,
                    n as int,
                    stack0,
                    stack1,
                    adj0,
                    stack@,
                    u,
                );
                lemma_expand_frontier(
                    g,
                    up,
                    i as int,
                    n as int,
                    seen0,
                    seen@,
                    stack0,
                    stack1,
                    adj0,
                    stack@,
                    u,
                );
            }
        } else {
            proof {
                lemma_skip_step(g, up, i as int, n as int, seen@, stack0, stack@, u);
            }
        }
    }
    let r = sorted_ids(&out);
    proof {
        lemma_finish(g, up, i as int, n as int, seen@, out@, r@);
    }
    r
}

} // verus!
