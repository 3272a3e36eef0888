//! The tabular edge-list projection: every logical edge of a graph emitted
//! exactly once — a symmetric-kind edge once per unordered pair, from the
//! lower endpoint; an asymmetric-kind edge once, from its tail side — the
//! canonical exchange format for external consumption.

use vstd::prelude::*;
use crate::graph::{CaugiGraph, GraphV};

verus! {

/// One row of the projection: source and target index, type code, glyph.
#[derive(Debug)]
pub struct EdgeRow {
    pub from: u32,
    pub to: u32,
    pub code: u8,
    pub glyph: String,
}

/// Arc `k` of row `i` is the canonical representative of its logical edge:
/// a symmetric-kind arc stands at its lower endpoint, an asymmetric-kind
/// arc at its tail side.
pub open spec fn emits(g: GraphV, i: int, k: int) -> bool {
    if g.registry.kinds[g.entries[k].etype as int].symmetric {
        i < g.entries[k].col as int
    } else {
        g.entries[k].side == 0
    }
}

/// The (from, to, code) triples emitted by row `i`'s first `j` arcs, in row
/// order.
pub open spec fn row_table_upto(g: GraphV, i: int, j: int) -> Seq<(u32, u32, u8)>
    decreases j,
{
    if j <= 0 {
        Seq::empty()
    } else {
        let k = g.row_ranges[i] + j - 1;
        let prev = row_table_upto(g, i, j - 1);
        if emits(g, i, k) {
            prev.push((i as u32, g.entries[k].col, g.entries[k].etype))
        } else {
            prev
        }
    }
}

/// The triples emitted by all rows below `i`, row by row.
pub open spec fn table_upto(g: GraphV, i: int) -> Seq<(u32, u32, u8)>
    decreases i,
{
    if i <= 0 {
        Seq::empty()
    } else {
        table_upto(g, i - 1) + row_table_upto(g, i - 1, g.row_len(i - 1))
    }
}

/// The full projection of the graph: each logical edge exactly once, as the
/// scan of the rows emits it.
pub open spec fn edge_table(g: GraphV) -> Seq<(u32, u32, u8)> {
    table_upto(g, g.nodes as int)
}

/// The built rows carry exactly the triples of `t`, each with the glyph the
/// registry assigns to its code.
pub open spec fn rows_match(g: GraphV, rows: Seq<EdgeRow>, t: Seq<(u32, u32, u8)>) -> bool {
    &&& rows.len() == t.len()
    &&& forall|x: int|
        0 <= x < rows.len() ==> ((#[trigger] rows[x]).from == t[x].0 && rows[x].to == t[x].1
            && rows[x].code == t[x].2 && (rows[x].code as int) < g.registry.kinds.len()
            && rows[x].glyph@ == g.registry.kinds[rows[x].code as int].glyph)
}

/// Projects the graph onto its canonical edge table: one row per logical
/// edge, in row-scan order, symmetric kinds once per unordered pair with
/// `from < to`, asymmetric kinds once from the tail side.
pub fn edge_list(core: &CaugiGraph) -> (r: Vec<EdgeRow>)
    requires
        core@.wf(),
    ensures
        rows_match(core@, r@, edge_table(core@)),
{
    let ghost g = core@;
    let n = core.n();
    let mut out: Vec<EdgeRow> = Vec::new();
    let mut i: u32 = 0;
    while i < n
        invariant
            g == core@,
            g.wf(),
            n == g.nodes,
            0 <= i <= n,
            rows_match(g, out@, table_upto(g, i as int)),
        decreases n - i,
    {
        let (ks, ke) = core.row_range(i);
        let rlen = ke - ks;
        let mut jj: usize = 0;
        while jj < rlen
            invariant
                g == core@,
                g.wf(),
                n == g.nodes,
                0 <= (i as int) < g.nodes,
                ks == g.row_ranges[i as int],
                ke == g.row_ranges[i as int + 1],
                rlen == ke - ks,
                0 <= jj <= rlen,
                rows_match(
                    g,
                    out@,
                    table_upto(g, i as int) + row_table_upto(g, i as int, jj as int),
                ),
            decreases rlen - jj,
        {
            let k = ks + jj;
            proof {
                crate::graph::lemma_ranges_monotone(g, i as int + 1, g.nodes as int);
                assert(k < g.entries.len());
            }
            let e = core.entry(k);
            let sp = match core.registry.spec_of_code(e.etype) {
                Ok(sp) => sp,
                Err(_) => {
                    proof {
                        assert(false);
                    }
                    return out;
                },
            };
            let emit = if sp.symmetric {
                i < e.col
            } else {
                e.side == 0
            };
            let ghost out0 = out@;
            let ghost t0 = table_upto(g, i as int) + row_table_upto(g, i as int, jj as int);
            if emit {
                out.push(
                    EdgeRow { from: i, to: e.col, code: e.etype, glyph: sp.glyph.clone() },
                );
            }
            proof {
                assert(emit == emits(g, i as int, k as int));
                let t1 = table_upto(g, i as int) + row_table_upto(g, i as int, jj as int + 1);
                if emit {
                    assert(t1 =~= t0.push((i, e.col, e.etype)));
                    assert forall|x: int|
                        0 <= x < out@.len() implies ((#[trigger] out@[x]).from == t1[x].0
                        && out@[x].to == t1[x].1 && out@[x].code == t1[x].2 && (
                    out@[x].code as int) < g.registry.kinds.len() && out@[x].glyph@
                        == g.registry.kinds[out@[x].code as int].glyph) by {
                        if x < out0.len() {
                            assert(out@[x] == out0[x]);
                        }
                    }
                } else {
                    assert(t1 =~= t0);
                }
            }
            jj += 1;
        }
        proof {
            assert(table_upto(g, i as int + 1) == table_upto(g, i as int) + row_table_upto(
                g,
                i as int,
                g.row_len(i as int),
            ));
        }
        i += 1;
    }
    out
}

} // verus!
