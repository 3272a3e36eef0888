use caugi::align::{invert_perm, perm_from_names};
use caugi::builder::GraphBuilder;
use caugi::edges::EdgeRegistry;
use caugi::errors::GraphError;
use caugi::metrics::shd_with_perm;

fn names(v: &[&str]) -> Vec<String> {
    v.iter().map(|s| s.to_string()).collect()
}

#[test]
fn perm_from_names_matches_positions() {
    let n1 = names(&["a", "b", "c"]);
    let n2 = names(&["c", "a", "b"]);
    let p = perm_from_names(&n1, &n2).unwrap();
    assert_eq!(p, vec![1, 2, 0]);
}

#[test]
fn perm_from_names_reports_each_failure() {
    let n1 = names(&["a", "b"]);
    assert_eq!(
        perm_from_names(&n1, &names(&["a"])).err().unwrap(),
        GraphError::SizeMismatch
    );
    assert_eq!(
        perm_from_names(&n1, &names(&["a", "a"])).err().unwrap(),
        GraphError::DuplicateName
    );
    assert_eq!(
        perm_from_names(&n1, &names(&["a", "x"])).err().unwrap(),
        GraphError::NameNotFound
    );
}

#[test]
fn invert_perm_round_trip() {
    let p = vec![1u32, 2, 0];
    let inv = invert_perm(&p).unwrap();
    assert_eq!(inv, vec![2, 0, 1]);
    for (i, &j) in p.iter().enumerate() {
        assert_eq!(inv[j as usize] as usize, i);
    }
    assert_eq!(
        invert_perm(&vec![0u32, 0]).err().unwrap(),
        GraphError::DuplicateName
    );
    assert_eq!(
        invert_perm(&vec![5u32]).err().unwrap(),
        GraphError::InvalidNodeId
    );
}

#[test]
fn name_alignment_feeds_the_distance() {
    // the same chain, with the node names permuted in the second graph
    let reg = {
        let mut r = EdgeRegistry::new();
        r.register_builtins().unwrap();
        r
    };
    let d = reg.code_of("-->").unwrap();
    let mut b1 = GraphBuilder::new_with_registry(3, true, &reg);
    b1.add_edge(0, 1, d).unwrap(); // x -> y
    let g1 = b1.finalize().unwrap();
    let mut b2 = GraphBuilder::new_with_registry(3, true, &reg);
    b2.add_edge(2, 0, d).unwrap(); // x -> y under the second naming
    let g2 = b2.finalize().unwrap();
    let names1 = names(&["x", "y", "z"]);
    let names2 = names(&["y", "z", "x"]);
    let perm = perm_from_names(&names1, &names2).unwrap();
    let (count, _) = shd_with_perm(&g1, &g2, &perm).unwrap();
    assert_eq!(count, 0);
}
