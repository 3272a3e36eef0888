use std::sync::Arc;

use caugi::admg::Admg;
use caugi::builder::GraphBuilder;
use caugi::edges::EdgeRegistry;
use caugi::errors::{ErrorKind, GraphError};

#[test]
fn admg_relations() {
    let mut reg = EdgeRegistry::new();
    reg.register_builtins().unwrap();
    let cdir = reg.code_of("-->").unwrap();
    let cbi = reg.code_of("<->").unwrap();
    let mut b = GraphBuilder::new_with_registry(3, true, &reg);
    b.add_edge(0, 1, cdir).unwrap();
    b.add_edge(1, 2, cbi).unwrap();
    let core = std::sync::Arc::new(b.finalize().unwrap());
    let g = Admg::new(core).expect("ADMG construction failed");
    assert_eq!(g.parents_of(1), vec![0]);
    assert_eq!(g.children_of(0), vec![1]);
    let mut bi = g.bidirected_of(1).to_vec();
    bi.sort_unstable();
    assert_eq!(bi, vec![2]);
    assert_eq!(g.n(), 3);
    assert_eq!(g.neighbors_of(0), vec![1]);
    assert_eq!(g.neighbors_of(1), vec![0, 2]);
    assert_eq!(g.neighbors_of(2), vec![1]);

    // get core
    let core = g.core_ref();
    assert_eq!(core.n(), 3);
}

#[test]
fn admg_cycle_error() {
    let mut reg = EdgeRegistry::new();
    reg.register_builtins().unwrap();
    let cdir = reg.code_of("-->").unwrap();
    let mut b = GraphBuilder::new_with_registry(3, true, &reg);
    b.add_edge(0, 1, cdir).unwrap();
    b.add_edge(1, 2, cdir).unwrap();
    b.add_edge(2, 0, cdir).unwrap();
    let core = std::sync::Arc::new(b.finalize().unwrap());
    let r = Admg::new(core);
    assert!(r.is_err());
}

#[test]
fn admg_an_de_directed_only() {
    // 0 -> 1 <-> 2
    let mut reg = EdgeRegistry::new();
    reg.register_builtins().unwrap();
    let cdir = reg.code_of("-->").unwrap();
    let cbi = reg.code_of("<->").unwrap();
    let mut b = GraphBuilder::new_with_registry(3, true, &reg);
    b.add_edge(0, 1, cdir).unwrap();
    b.add_edge(1, 2, cbi).unwrap();
    let g = Admg::new(Arc::new(b.finalize().unwrap())).unwrap();
    assert_eq!(g.ancestors_of(1), vec![0]);
    assert_eq!(g.descendants_of(0), vec![1]);
    assert!(g.ancestors_of(2).is_empty());
    assert!(g.descendants_of(2).is_empty());
}

#[test]
fn admg_mb() {
    // 0 -> 1 <-> 2, and 1 <- 3
    let mut r = EdgeRegistry::new();
    r.register_builtins().unwrap();
    let d = r.code_of("-->").unwrap();
    let bi = r.code_of("<->").unwrap();
    let mut b = GraphBuilder::new_with_registry(4, true, &r);
    b.add_edge(0, 1, d).unwrap();
    b.add_edge(1, 2, bi).unwrap();
    b.add_edge(3, 1, d).unwrap();
    let g = Admg::new(Arc::new(b.finalize().unwrap())).unwrap();
    assert_eq!(g.markov_blanket_of(1), vec![0, 2, 3]); // parents {0,3}, bidirected {2}
    assert_eq!(g.markov_blanket_of(0), vec![1, 3]); // child {1}, co-parent via 1 {3}
}

#[test]
fn admg_undirected_edge_error() {
    let mut reg = EdgeRegistry::new();
    reg.register_builtins().unwrap();
    let cund = reg.code_of("---").unwrap();
    let mut b = GraphBuilder::new_with_registry(2, true, &reg);
    b.add_edge(0, 1, cund).unwrap();
    let core = std::sync::Arc::new(b.finalize().unwrap());
    let r = Admg::new(core);
    assert!(r.is_err());
}

#[test]
fn admg_partial_edge_error() {
    let mut reg = EdgeRegistry::new();
    reg.register_builtins().unwrap();
    let cpar = reg.code_of("o->").unwrap();
    let mut b = GraphBuilder::new_with_registry(2, true, &reg);
    b.add_edge(0, 1, cpar).unwrap();
    let core = std::sync::Arc::new(b.finalize().unwrap());
    let r = Admg::new(core);
    assert!(r.is_err());
}

#[test]
fn admg_exogenous() {
    let mut r = EdgeRegistry::new();
    r.register_builtins().unwrap();
    let d = r.code_of("-->").unwrap();
    let bi = r.code_of("<->").unwrap();
    // 0->1, 1<->2; node 3 isolated
    let mut b = GraphBuilder::new_with_registry(4, true, &r);
    b.add_edge(0, 1, d).unwrap();
    b.add_edge(1, 2, bi).unwrap();
    let g = Admg::new(Arc::new(b.finalize().unwrap())).unwrap();
    assert_eq!(g.exogenous_nodes(), vec![0, 2, 3]);
}

#[test]
fn admg_cycle_error_is_structural() {
    let mut reg = EdgeRegistry::new();
    reg.register_builtins().unwrap();
    let cdir = reg.code_of("-->").unwrap();
    let mut b = GraphBuilder::new_with_registry(3, true, &reg);
    b.add_edge(0, 1, cdir).unwrap();
    b.add_edge(1, 2, cdir).unwrap();
    b.add_edge(2, 0, cdir).unwrap();
    let core = Arc::new(b.finalize().unwrap());
    match Admg::new(core) {
        Err(e) => {
            assert_eq!(e, GraphError::DirectedCycle);
            assert_eq!(e.kind(), ErrorKind::Structure);
        }
        Ok(_) => panic!("a directed cycle must be rejected"),
    }
}

#[test]
fn admg_disallowed_class_is_structural() {
    let mut reg = EdgeRegistry::new();
    reg.register_builtins().unwrap();
    let cund = reg.code_of("---").unwrap();
    let mut b = GraphBuilder::new_with_registry(2, true, &reg);
    b.add_edge(0, 1, cund).unwrap();
    match Admg::new(Arc::new(b.finalize().unwrap())) {
        Err(e) => {
            assert_eq!(e, GraphError::DisallowedEdgeClass);
            assert_eq!(e.kind(), ErrorKind::Structure);
        }
        Ok(_) => panic!("an undirected arc must be rejected by an ADMG"),
    }
}

#[test]
fn admg_bucket_union_matches_neighbors() {
    // Buckets at each node, taken together as a set, are the neighbor set,
    // and each bucket comes back ascending.
    let mut reg = EdgeRegistry::new();
    reg.register_builtins().unwrap();
    let d = reg.code_of("-->").unwrap();
    let bi = reg.code_of("<->").unwrap();
    let mut b = GraphBuilder::new_with_registry(5, true, &reg);
    b.add_edge(3, 0, d).unwrap();
    b.add_edge(1, 0, d).unwrap();
    b.add_edge(0, 4, d).unwrap();
    b.add_edge(0, 2, d).unwrap();
    b.add_edge(0, 1, bi).unwrap_err(); // pair 0-1 already connected in a simple graph
    let g = Admg::new(Arc::new(b.finalize().unwrap())).unwrap();
    for i in 0..5u32 {
        let mut union: Vec<u32> = Vec::new();
        union.extend_from_slice(g.parents_of(i));
        union.extend_from_slice(g.bidirected_of(i));
        union.extend_from_slice(g.children_of(i));
        union.sort_unstable();
        union.dedup();
        let mut nb = g.neighbors_of(i).to_vec();
        nb.sort_unstable();
        nb.dedup();
        assert_eq!(union, nb);
        for w in [g.parents_of(i), g.bidirected_of(i), g.children_of(i)] {
            for q in 1..w.len() {
                assert!(w[q - 1] < w[q]);
            }
        }
    }
    assert_eq!(g.parents_of(0), vec![1, 3]);
    assert_eq!(g.children_of(0), vec![2, 4]);
    assert_eq!(g.neighbors_of(0), vec![1, 3, 2, 4]);
}

#[test]
fn admg_repeated_queries_are_identical() {
    let mut reg = EdgeRegistry::new();
    reg.register_builtins().unwrap();
    let d = reg.code_of("-->").unwrap();
    let mut b = GraphBuilder::new_with_registry(3, true, &reg);
    b.add_edge(2, 1, d).unwrap();
    b.add_edge(0, 1, d).unwrap();
    let g = Admg::new(Arc::new(b.finalize().unwrap())).unwrap();
    assert_eq!(g.parents_of(1).to_vec(), g.parents_of(1).to_vec());
    assert_eq!(g.parents_of(1), vec![0, 2]);
    assert_eq!(g.ancestors_of(1), g.ancestors_of(1));
    assert_eq!(g.markov_blanket_of(1), g.markov_blanket_of(1));
}
