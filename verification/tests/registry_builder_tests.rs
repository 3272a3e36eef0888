use caugi::builder::GraphBuilder;
use caugi::edges::{parse_class, parse_flag, parse_mark, EdgeClass, EdgeRegistry, EdgeSpec, Mark, QueryFlags};
use caugi::errors::{ErrorKind, GraphError};

#[test]
fn registry_builtins_install_idempotently() {
    let mut reg = EdgeRegistry::new();
    reg.register_builtins().unwrap();
    let len1 = reg.len();
    assert_eq!(len1, 6);
    reg.register_builtins().unwrap();
    assert_eq!(reg.len(), len1);
    for glyph in ["-->", "---", "<->", "o->", "o-o", "--o"] {
        assert!(reg.code_of(glyph).is_ok());
    }
}

#[test]
fn registry_lookup_errors() {
    let mut reg = EdgeRegistry::new();
    reg.register_builtins().unwrap();
    assert_eq!(reg.code_of("==>").err().unwrap(), GraphError::UnknownGlyph);
    assert_eq!(reg.spec_of_code(200).err().unwrap(), GraphError::UnknownEdgeCode);
    let c = reg.code_of("<->").unwrap();
    let spec = reg.spec_of_code(c).unwrap();
    assert_eq!(spec.class, EdgeClass::Bidirected);
    assert!(spec.symmetric);
    assert!(spec.flags.latent_confounding);
}

#[test]
fn registry_rejects_duplicate_and_sealed() {
    let mut reg = EdgeRegistry::new();
    reg.register_builtins().unwrap();
    let dup = EdgeSpec {
        glyph: "-->".to_owned(),
        tail: Mark::Tail,
        head: Mark::Arrow,
        class: EdgeClass::Directed,
        symmetric: false,
        flags: QueryFlags::empty(),
    };
    assert_eq!(reg.register(dup).err().unwrap(), GraphError::DuplicateGlyph);
    reg.seal();
    let fresh = EdgeSpec {
        glyph: "==>".to_owned(),
        tail: Mark::Tail,
        head: Mark::Arrow,
        class: EdgeClass::Directed,
        symmetric: false,
        flags: QueryFlags::empty(),
    };
    let e = reg.register(fresh).err().unwrap();
    assert_eq!(e, GraphError::RegistrySealed);
    assert_eq!(e.kind(), ErrorKind::State);
}

#[test]
fn registry_register_custom_kind() {
    let mut reg = EdgeRegistry::new();
    let spec = EdgeSpec {
        glyph: "==>".to_owned(),
        tail: parse_mark("-").unwrap(),
        head: parse_mark(">").unwrap(),
        class: parse_class("Directed").unwrap(),
        symmetric: false,
        flags: parse_flag("TRAVERSABLE_WHEN_CONDITIONED").unwrap(),
    };
    let c = reg.register(spec).unwrap();
    assert_eq!(reg.code_of("==>").unwrap(), c);
    let back = reg.spec_of_code(c).unwrap();
    assert_eq!(back.class, EdgeClass::Directed);
    assert!(back.flags.traversable_when_conditioned);
    assert!(!back.flags.latent_confounding);
}

#[test]
fn parse_errors_are_validation() {
    assert_eq!(parse_mark("?").err().unwrap(), GraphError::MalformedMark);
    assert_eq!(parse_class("Curved").err().unwrap(), GraphError::MalformedClass);
    assert_eq!(parse_flag("GLOWING").err().unwrap(), GraphError::UnknownFlag);
    assert_eq!(parse_mark("o").unwrap(), Mark::Circle);
    assert_eq!(parse_mark("<").unwrap(), Mark::Arrow);
    assert_eq!(
        parse_class("PartiallyUndirected").unwrap(),
        EdgeClass::PartiallyUndirected
    );
    assert_eq!(GraphError::MalformedMark.kind(), ErrorKind::Validation);
}

#[test]
fn builder_rejects_bad_edges() {
    let mut reg = EdgeRegistry::new();
    reg.register_builtins().unwrap();
    let d = reg.code_of("-->").unwrap();
    let mut b = GraphBuilder::new_with_registry(3, true, &reg);
    assert_eq!(b.add_edge(0, 3, d).err().unwrap(), GraphError::InvalidNodeId);
    assert_eq!(b.add_edge(0, 1, 99).err().unwrap(), GraphError::UnknownEdgeCode);
    assert_eq!(b.add_edge(1, 1, d).err().unwrap(), GraphError::SelfLoop);
    b.add_edge(0, 1, d).unwrap();
    assert_eq!(b.add_edge(0, 1, d).err().unwrap(), GraphError::DuplicateEdge);
    // the reverse orientation of a connected pair is a duplicate too
    assert_eq!(b.add_edge(1, 0, d).err().unwrap(), GraphError::DuplicateEdge);
}

#[test]
fn builder_finalize_sorts_rows() {
    let mut reg = EdgeRegistry::new();
    reg.register_builtins().unwrap();
    let d = reg.code_of("-->").unwrap();
    let mut b = GraphBuilder::new_with_registry(4, true, &reg);
    b.add_edge(3, 0, d).unwrap();
    b.add_edge(2, 0, d).unwrap();
    b.add_edge(1, 0, d).unwrap();
    let core = b.finalize().unwrap();
    assert_eq!(core.n(), 4);
    let (s, e) = core.row_range(0);
    assert_eq!(e - s, 3);
    let mut last = 0u32;
    for k in s..e {
        let entry = core.entry(k);
        assert!(k == s || last <= entry.col);
        last = entry.col;
    }
}
