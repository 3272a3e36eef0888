use caugi::builder::GraphBuilder;
use caugi::edges::EdgeRegistry;
use caugi::errors::GraphError;
use caugi::graph::CaugiGraph;
use caugi::query::{adjustment_set_parents, d_separated};
use caugi::table::edge_list;

fn builtin_registry() -> EdgeRegistry {
    let mut reg = EdgeRegistry::new();
    reg.register_builtins().unwrap();
    reg
}

fn directed(reg: &EdgeRegistry, n: u32, arcs: &[(u32, u32)]) -> CaugiGraph {
    let d = reg.code_of("-->").unwrap();
    let mut b = GraphBuilder::new_with_registry(n, true, reg);
    for (u, v) in arcs {
        b.add_edge(*u, *v, d).unwrap();
    }
    b.finalize().unwrap()
}

#[test]
fn chain_blocked_by_middle_node() {
    // 0 -> 1 -> 2: connected marginally, separated given the mediator
    let reg = builtin_registry();
    let g = directed(&reg, 3, &[(0, 1), (1, 2)]);
    assert!(!d_separated(&g, &vec![0], &vec![2], &vec![]).unwrap());
    assert!(d_separated(&g, &vec![0], &vec![2], &vec![1]).unwrap());
}

#[test]
fn collider_opens_when_conditioned() {
    // 0 -> 1 <- 2: separated marginally, connected given the collider
    let reg = builtin_registry();
    let g = directed(&reg, 3, &[(0, 1), (2, 1)]);
    assert!(d_separated(&g, &vec![0], &vec![2], &vec![]).unwrap());
    assert!(!d_separated(&g, &vec![0], &vec![2], &vec![1]).unwrap());
}

#[test]
fn confounder_blocks_when_conditioned() {
    // 1 <- 0 -> 2: connected marginally, separated given the common cause
    let reg = builtin_registry();
    let g = directed(&reg, 3, &[(0, 1), (0, 2)]);
    assert!(!d_separated(&g, &vec![1], &vec![2], &vec![]).unwrap());
    assert!(d_separated(&g, &vec![1], &vec![2], &vec![0]).unwrap());
}

#[test]
fn latent_confounding_connects() {
    // 0 <-> 1: the bidirected edge stands for a hidden common cause
    let reg = builtin_registry();
    let bi = reg.code_of("<->").unwrap();
    let mut b = GraphBuilder::new_with_registry(2, true, &reg);
    b.add_edge(0, 1, bi).unwrap();
    let g = b.finalize().unwrap();
    assert!(!d_separated(&g, &vec![0], &vec![1], &vec![]).unwrap());
}

#[test]
fn d_separated_rejects_bad_ids() {
    let reg = builtin_registry();
    let g = directed(&reg, 2, &[(0, 1)]);
    assert_eq!(
        d_separated(&g, &vec![0], &vec![5], &vec![]).err().unwrap(),
        GraphError::InvalidNodeId
    );
}

#[test]
fn parent_adjustment_set() {
    // 2 -> 0 -> 1, 3 -> 0, 3 -> 1: parents of 0 are {2, 3}
    let reg = builtin_registry();
    let g = directed(&reg, 4, &[(2, 0), (0, 1), (3, 0), (3, 1)]);
    assert_eq!(
        adjustment_set_parents(&g, &vec![0], &vec![1]).unwrap(),
        vec![2, 3]
    );
    // a parent inside the effect set is dropped
    assert_eq!(
        adjustment_set_parents(&g, &vec![0], &vec![1, 3]).unwrap(),
        vec![2]
    );
}

#[test]
fn edge_list_emits_each_edge_once() {
    let reg = builtin_registry();
    let d = reg.code_of("-->").unwrap();
    let bi = reg.code_of("<->").unwrap();
    let mut b = GraphBuilder::new_with_registry(3, true, &reg);
    b.add_edge(1, 0, d).unwrap();
    b.add_edge(2, 1, bi).unwrap();
    let g = b.finalize().unwrap();
    let rows = edge_list(&g);
    assert_eq!(rows.len(), 2);
    // the directed edge once, from its tail 1; the bidirected edge once,
    // from its lower endpoint 1
    assert_eq!((rows[0].from, rows[0].to, rows[0].code), (1, 0, d));
    assert_eq!(rows[0].glyph, "-->");
    assert_eq!((rows[1].from, rows[1].to, rows[1].code), (1, 2, bi));
    assert_eq!(rows[1].glyph, "<->");
}
