use std::sync::Arc;

use caugi::builder::GraphBuilder;
use caugi::edges::EdgeRegistry;
use caugi::errors::GraphError;
use caugi::pag::Pag;

fn six_class_registry() -> EdgeRegistry {
    let mut reg = EdgeRegistry::new();
    reg.register_builtins().unwrap();
    reg
}

#[test]
fn pag_accepts_all_six_classes() {
    let reg = six_class_registry();
    let codes = [
        reg.code_of("-->").unwrap(),
        reg.code_of("---").unwrap(),
        reg.code_of("<->").unwrap(),
        reg.code_of("o->").unwrap(),
        reg.code_of("o-o").unwrap(),
        reg.code_of("--o").unwrap(),
    ];
    let mut b = GraphBuilder::new_with_registry(7, true, &reg);
    for (k, c) in codes.iter().enumerate() {
        b.add_edge(0, k as u32 + 1, *c).unwrap();
    }
    let g = Pag::new(Arc::new(b.finalize().unwrap())).expect("PAG accepts every class");
    assert_eq!(g.n(), 7);
    assert_eq!(g.children_of(0), vec![1]);
    assert_eq!(g.undirected_of(0), vec![2]);
    assert_eq!(g.bidirected_of(0), vec![3]);
    assert_eq!(g.partial_of(0), vec![4]);
    assert_eq!(g.partially_undirected_of(0), vec![5]);
    assert_eq!(g.partially_directed_of(0), vec![6]);
    assert_eq!(g.parents_of(1), vec![0]);
    // bucket order: parents, undirected, children, bidirected, partial,
    // partially directed, partially undirected
    assert_eq!(g.neighbors_of(0), vec![2, 1, 3, 4, 6, 5]);
}

#[test]
fn pag_cycle_error() {
    let reg = six_class_registry();
    let d = reg.code_of("-->").unwrap();
    let mut b = GraphBuilder::new_with_registry(3, true, &reg);
    b.add_edge(0, 1, d).unwrap();
    b.add_edge(1, 2, d).unwrap();
    b.add_edge(2, 0, d).unwrap();
    let r = Pag::new(Arc::new(b.finalize().unwrap()));
    assert!(r.is_err());
    assert_eq!(r.err().unwrap(), GraphError::DirectedCycle);
}

#[test]
fn pag_ancestry_ignores_other_classes() {
    // 0 -> 1, 1 o-> 2, 2 --- 3, 1 -> 4
    let reg = six_class_registry();
    let d = reg.code_of("-->").unwrap();
    let p = reg.code_of("o->").unwrap();
    let u = reg.code_of("---").unwrap();
    let mut b = GraphBuilder::new_with_registry(5, true, &reg);
    b.add_edge(0, 1, d).unwrap();
    b.add_edge(1, 2, p).unwrap();
    b.add_edge(2, 3, u).unwrap();
    b.add_edge(1, 4, d).unwrap();
    let g = Pag::new(Arc::new(b.finalize().unwrap())).unwrap();
    assert_eq!(g.ancestors_of(4), vec![0, 1]);
    assert_eq!(g.descendants_of(0), vec![1, 4]);
    assert!(g.ancestors_of(2).is_empty());
    assert!(g.descendants_of(2).is_empty());
}

#[test]
fn pag_markov_blanket_spans_all_classes() {
    // 0 -> 1 <- 3, 1 o-o 2, 1 --o 4
    let reg = six_class_registry();
    let d = reg.code_of("-->").unwrap();
    let oo = reg.code_of("o-o").unwrap();
    let to = reg.code_of("--o").unwrap();
    let mut b = GraphBuilder::new_with_registry(5, true, &reg);
    b.add_edge(0, 1, d).unwrap();
    b.add_edge(3, 1, d).unwrap();
    b.add_edge(1, 2, oo).unwrap();
    b.add_edge(1, 4, to).unwrap();
    let g = Pag::new(Arc::new(b.finalize().unwrap())).unwrap();
    assert_eq!(g.markov_blanket_of(1), vec![0, 2, 3, 4]);
    assert_eq!(g.markov_blanket_of(0), vec![1, 3]);
}

#[test]
fn pag_exogenous_flag() {
    // 0 -> 1, 2 --- 3; node 4 isolated
    let reg = six_class_registry();
    let d = reg.code_of("-->").unwrap();
    let u = reg.code_of("---").unwrap();
    let mut b = GraphBuilder::new_with_registry(5, true, &reg);
    b.add_edge(0, 1, d).unwrap();
    b.add_edge(2, 3, u).unwrap();
    let g = Pag::new(Arc::new(b.finalize().unwrap())).unwrap();
    assert_eq!(g.exogenous_nodes(false), vec![0, 2, 3, 4]);
    // with the flag, an undirected edge signals unresolved parentage
    assert_eq!(g.exogenous_nodes(true), vec![0, 4]);
}

#[test]
fn pag_core_ref_round_trip() {
    let reg = six_class_registry();
    let d = reg.code_of("-->").unwrap();
    let mut b = GraphBuilder::new_with_registry(2, true, &reg);
    b.add_edge(0, 1, d).unwrap();
    let g = Pag::new(Arc::new(b.finalize().unwrap())).unwrap();
    assert_eq!(g.core_ref().n(), 2);
}
