use caugi::builder::GraphBuilder;
use caugi::edges::EdgeRegistry;
use caugi::errors::GraphError;
use caugi::graph::CaugiGraph;
use caugi::metrics::{hd, shd_with_perm};

fn builtin_registry() -> EdgeRegistry {
    let mut reg = EdgeRegistry::new();
    reg.register_builtins().unwrap();
    reg
}

fn chain_graph(reg: &EdgeRegistry, n: u32, arcs: &[(u32, u32)]) -> CaugiGraph {
    let d = reg.code_of("-->").unwrap();
    let mut b = GraphBuilder::new_with_registry(n, true, reg);
    for (u, v) in arcs {
        b.add_edge(*u, *v, d).unwrap();
    }
    b.finalize().unwrap()
}

#[test]
fn hd_of_graph_with_itself_is_zero() {
    let reg = builtin_registry();
    let g = chain_graph(&reg, 4, &[(0, 1), (1, 2), (0, 3)]);
    let (count, pairs) = hd(&g, &g).unwrap();
    assert_eq!(count, 0);
    assert_eq!(pairs, 12); // 4 * 3 ordered pairs
}

#[test]
fn hd_counts_a_missing_edge_from_both_sides() {
    let reg = builtin_registry();
    let g1 = chain_graph(&reg, 2, &[(0, 1)]);
    let g2 = chain_graph(&reg, 2, &[]);
    let (count, pairs) = hd(&g1, &g2).unwrap();
    assert_eq!(count, 2); // the pair differs in both orders
    assert_eq!(pairs, 2);
}

#[test]
fn hd_counts_a_changed_class() {
    let reg = builtin_registry();
    let d = reg.code_of("-->").unwrap();
    let bi = reg.code_of("<->").unwrap();
    let mut b1 = GraphBuilder::new_with_registry(2, true, &reg);
    b1.add_edge(0, 1, d).unwrap();
    let g1 = b1.finalize().unwrap();
    let mut b2 = GraphBuilder::new_with_registry(2, true, &reg);
    b2.add_edge(0, 1, bi).unwrap();
    let g2 = b2.finalize().unwrap();
    let (count, _) = hd(&g1, &g2).unwrap();
    assert_eq!(count, 2);
}

#[test]
fn hd_size_mismatch() {
    let reg = builtin_registry();
    let g1 = chain_graph(&reg, 2, &[]);
    let g2 = chain_graph(&reg, 3, &[]);
    assert_eq!(hd(&g1, &g2).err().unwrap(), GraphError::SizeMismatch);
}

#[test]
fn shd_with_perm_undoes_a_relabeling() {
    let reg = builtin_registry();
    // g1: 0 -> 1 over three nodes; g2 is g1 with nodes renamed through
    // sigma = {0 -> 1, 1 -> 2, 2 -> 0}, so the edge became 1 -> 2.
    let g1 = chain_graph(&reg, 3, &[(0, 1)]);
    let g2 = chain_graph(&reg, 3, &[(1, 2)]);
    let perm = vec![1u32, 2, 0];
    let (count, pairs) = shd_with_perm(&g1, &g2, &perm).unwrap();
    assert_eq!(count, 0);
    assert_eq!(pairs, 6);
    // without undoing the relabeling the graphs differ
    let (plain, _) = hd(&g1, &g2).unwrap();
    assert!(plain > 0);
}

#[test]
fn shd_with_perm_validates_inputs() {
    let reg = builtin_registry();
    let g1 = chain_graph(&reg, 3, &[(0, 1)]);
    let g2 = chain_graph(&reg, 3, &[(1, 2)]);
    let short = vec![0u32, 1];
    assert_eq!(
        shd_with_perm(&g1, &g2, &short).err().unwrap(),
        GraphError::SizeMismatch
    );
    let oob = vec![0u32, 1, 7];
    assert_eq!(
        shd_with_perm(&g1, &g2, &oob).err().unwrap(),
        GraphError::InvalidNodeId
    );
}
