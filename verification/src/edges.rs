//! Edge-kind catalog: orientation marks, the closed six-class taxonomy,
//! capability flags, edge-kind descriptions and the registry that assigns
//! each kind an 8-bit code.

use vstd::prelude::*;
use crate::errors::GraphError;
use crate::text::str_eq;

verus! {

/// Orientation mark drawn at one endpoint of an edge glyph.
#[derive(Clone, Copy, Debug, PartialEq, Eq, Structural)]
pub enum Mark {
    /// A plain line end.
    Tail,
    /// An arrowhead.
    Arrow,
    /// A circle, meaning the orientation at this end is undecided.
    Circle,
}

/// The closed taxonomy of edge classes.
#[derive(Clone, Copy, Debug, PartialEq, Eq, Structural)]
pub enum EdgeClass {
    Directed,
    Undirected,
    Bidirected,
    Partial,
    PartiallyDirected,
    PartiallyUndirected,
}

/// Capability flags of an edge kind, read by the causal-query layer.
#[derive(Clone, Copy, Debug, PartialEq, Eq, Structural)]
pub struct QueryFlags {
    /// The edge stays traversable when its endpoint is conditioned on.
    pub traversable_when_conditioned: bool,
    /// The edge denotes latent confounding between its endpoints.
    pub latent_confounding: bool,
}

impl QueryFlags {
    /// No flag set.
    pub fn empty() -> (r: QueryFlags)
        ensures
            !r.traversable_when_conditioned,
            !r.latent_confounding,
    {
        QueryFlags { traversable_when_conditioned: false, latent_confounding: false }
    }

    /// Bitwise union of two flag sets.
    pub fn union(self, other: QueryFlags) -> (r: QueryFlags)
        ensures
            r.traversable_when_conditioned == (self.traversable_when_conditioned
                || other.traversable_when_conditioned),
            r.latent_confounding == (self.latent_confounding || other.latent_confounding),
    {
        QueryFlags {
            traversable_when_conditioned: self.traversable_when_conditioned
                || other.traversable_when_conditioned,
            latent_confounding: self.latent_confounding || other.latent_confounding,
        }
    }
}

/// No flag set, as a spec value.
pub open spec fn no_flags() -> QueryFlags {
    QueryFlags { traversable_when_conditioned: false, latent_confounding: false }
}

/// The latent-confounding flag alone, as a spec value.
pub open spec fn latent_flag() -> QueryFlags {
    QueryFlags { traversable_when_conditioned: false, latent_confounding: true }
}

/// Description of one edge kind.
#[derive(Debug)]
pub struct EdgeSpec {
    /// Display symbol, unique within a registry.
    pub glyph: String,
    /// Mark at the tail endpoint.
    pub tail: Mark,
    /// Mark at the head endpoint.
    pub head: Mark,
    /// Which of the six classes the kind belongs to.
    pub class: EdgeClass,
    /// Whether the edge is symmetric (recorded once per unordered pair).
    pub symmetric: bool,
    /// Capability flags.
    pub flags: QueryFlags,
}

/// Mathematical image of an `EdgeSpec`.
pub struct EdgeKindV {
    pub glyph: Seq<char>,
    pub tail: Mark,
    pub head: Mark,
    pub class: EdgeClass,
    pub symmetric: bool,
    pub flags: QueryFlags,
}

impl View for EdgeSpec {
    type V = EdgeKindV;

    open spec fn view(&self) -> EdgeKindV {
        EdgeKindV {
            glyph: self.glyph@,
            tail: self.tail,
            head: self.head,
            class: self.class,
            symmetric: self.symmetric,
            flags: self.flags,
        }
    }
}

impl EdgeSpec {
    /// A field-for-field copy.
    pub fn duplicate(&self) -> (r: EdgeSpec)
        ensures
            r@ == self@,
    {
        EdgeSpec {
            glyph: self.glyph.clone(),
            tail: self.tail,
            head: self.head,
            class: self.class,
            symmetric: self.symmetric,
            flags: self.flags,
        }
    }
}

/// Parses orientation-mark text: `-` is a tail, `>` or `<` an arrowhead,
/// `o` a circle.
pub open spec fn mark_of_text(t: Seq<char>) -> Result<Mark, GraphError> {
    if t == "-"@ {
        Ok(Mark::Tail)
    } else if t == ">"@ || t == "<"@ {
        Ok(Mark::Arrow)
    } else if t == "o"@ {
        Ok(Mark::Circle)
    } else {
        Err(GraphError::MalformedMark)
    }
}

/// Parses the text of an orientation mark.
pub fn parse_mark(s: &str) -> (r: Result<Mark, GraphError>)
    ensures
        r == mark_of_text(s@),
{
    proof {
        reveal_strlit("-");
        reveal_strlit(">");
        reveal_strlit("<");
        reveal_strlit("o");
    }
    if str_eq(s, "-") {
        Ok(Mark::Tail)
    } else if str_eq(s, ">") || str_eq(s, "<") {
        Ok(Mark::Arrow)
    } else if str_eq(s, "o") {
        Ok(Mark::Circle)
    } else {
        Err(GraphError::MalformedMark)
    }
}

/// Parses edge-class text, one of the six class names.
pub open spec fn class_of_text(t: Seq<char>) -> Result<EdgeClass, GraphError> {
    if t == "Directed"@ {
        Ok(EdgeClass::Directed)
    } else if t == "Undirected"@ {
        Ok(EdgeClass::Undirected)
    } else if t == "Bidirected"@ {
        Ok(EdgeClass::Bidirected)
    } else if t == "Partial"@ {
        Ok(EdgeClass::Partial)
    } else if t == "PartiallyDirected"@ {
        Ok(EdgeClass::PartiallyDirected)
    } else if t == "PartiallyUndirected"@ {
        Ok(EdgeClass::PartiallyUndirected)
    } else {
        Err(GraphError::MalformedClass)
    }
}

/// Parses the text of an edge class.
pub fn parse_class(s: &str) -> (r: Result<EdgeClass, GraphError>)
    ensures
        r == class_of_text(s@),
{
    proof {
        reveal_strlit("Directed");
        reveal_strlit("Undirected");
        reveal_strlit("Bidirected");
        reveal_strlit("Partial");
        reveal_strlit("PartiallyDirected");
        reveal_strlit("PartiallyUndirected");
    }
    if str_eq(s, "Directed") {
        Ok(EdgeClass::Directed)
    } else if str_eq(s, "Undirected") {
        Ok(EdgeClass::Undirected)
    } else if str_eq(s, "Bidirected") {
        Ok(EdgeClass::Bidirected)
    } else if str_eq(s, "Partial") {
        Ok(EdgeClass::Partial)
    } else if str_eq(s, "PartiallyDirected") {
        Ok(EdgeClass::PartiallyDirected)
    } else if str_eq(s, "PartiallyUndirected") {
        Ok(EdgeClass::PartiallyUndirected)
    } else {
        Err(GraphError::MalformedClass)
    }
}

/// Parses one capability-flag token.
pub open spec fn flag_of_text(t: Seq<char>) -> Result<QueryFlags, GraphError> {
    if t == "TRAVERSABLE_WHEN_CONDITIONED"@ || t == "TRAVERSABLE"@ {
        Ok(QueryFlags { traversable_when_conditioned: true, latent_confounding: false })
    } else if t == "LATENT_CONFOUNDING"@ {
        Ok(QueryFlags { traversable_when_conditioned: false, latent_confounding: true })
    } else {
        Err(GraphError::UnknownFlag)
    }
}

/// Parses the text of one capability flag.
pub fn parse_flag(s: &str) -> (r: Result<QueryFlags, GraphError>)
    ensures
        r == flag_of_text(s@),
{
    proof {
        reveal_strlit("TRAVERSABLE_WHEN_CONDITIONED");
        reveal_strlit("TRAVERSABLE");
        reveal_strlit("LATENT_CONFOUNDING");
    }
    if str_eq(s, "TRAVERSABLE_WHEN_CONDITIONED") || str_eq(s, "TRAVERSABLE") {
        Ok(QueryFlags { traversable_when_conditioned: true, latent_confounding: false })
    } else if str_eq(s, "LATENT_CONFOUNDING") {
        Ok(QueryFlags { traversable_when_conditioned: false, latent_confounding: true })
    } else {
        Err(GraphError::UnknownFlag)
    }
}

/// Mathematical image of an `EdgeRegistry`.
pub struct RegistryV {
    pub kinds: Seq<EdgeKindV>,
    pub sealed: bool,
}

/// Some registered kind carries this glyph.
pub open spec fn glyph_registered(r: RegistryV, glyph: Seq<char>) -> bool {
    exists|i: int| 0 <= i < r.kinds.len() && (#[trigger] r.kinds[i]).glyph == glyph
}

/// One registered kind matches the given description exactly.
pub open spec fn kind_matches(
    k: EdgeKindV,
    glyph: Seq<char>,
    tail: Mark,
    head: Mark,
    class: EdgeClass,
    symmetric: bool,
    flags: QueryFlags,
) -> bool {
    k.glyph == glyph && k.tail == tail && k.head == head && k.class == class && k.symmetric
        == symmetric && k.flags == flags
}

/// Some registered kind matches the given description exactly.
pub open spec fn has_edge_kind(
    r: RegistryV,
    glyph: Seq<char>,
    tail: Mark,
    head: Mark,
    class: EdgeClass,
    symmetric: bool,
    flags: QueryFlags,
) -> bool {
    exists|i: int|
        0 <= i < r.kinds.len() && kind_matches(
            #[trigger] r.kinds[i],
            glyph,
            tail,
            head,
            class,
            symmetric,
            flags,
        )
}

/// All six builtin kinds are present with their canonical descriptions.
pub open spec fn builtins_installed(r: RegistryV) -> bool {
    &&& has_edge_kind(r, "-->"@, Mark::Tail, Mark::Arrow, EdgeClass::Directed, false, no_flags())
    &&& has_edge_kind(r, "---"@, Mark::Tail, Mark::Tail, EdgeClass::Undirected, true, no_flags())
    &&& has_edge_kind(
        r,
        "<->"@,
        Mark::Arrow,
        Mark::Arrow,
        EdgeClass::Bidirected,
        true,
        latent_flag(),
    )
    &&& has_edge_kind(r, "o->"@, Mark::Circle, Mark::Arrow, EdgeClass::Partial, false, no_flags())
    &&& has_edge_kind(
        r,
        "o-o"@,
        Mark::Circle,
        Mark::Circle,
        EdgeClass::PartiallyUndirected,
        true,
        no_flags(),
    )
    &&& has_edge_kind(
        r,
        "--o"@,
        Mark::Tail,
        Mark::Circle,
        EdgeClass::PartiallyDirected,
        false,
        no_flags(),
    )
}

/// The canonical description of builtin kind `x`, for `x` in 0..6, in
/// catalog order.
pub open spec fn builtin_kind(x: int) -> EdgeKindV {
    if x == 0 {
        EdgeKindV {
            glyph: "-->"@,
            tail: Mark::Tail,
            head: Mark::Arrow,
            class: EdgeClass::Directed,
            symmetric: false,
            flags: no_flags(),
        }
    } else if x == 1 {
        EdgeKindV {
            glyph: "---"@,
            tail: Mark::Tail,
            head: Mark::Tail,
            class: EdgeClass::Undirected,
            symmetric: true,
            flags: no_flags(),
        }
    } else if x == 2 {
        EdgeKindV {
            glyph: "<->"@,
            tail: Mark::Arrow,
            head: Mark::Arrow,
            class: EdgeClass::Bidirected,
            symmetric: true,
            flags: latent_flag(),
        }
    } else if x == 3 {
        EdgeKindV {
            glyph: "o->"@,
            tail: Mark::Circle,
            head: Mark::Arrow,
            class: EdgeClass::Partial,
            symmetric: false,
            flags: no_flags(),
        }
    } else if x == 4 {
        EdgeKindV {
            glyph: "o-o"@,
            tail: Mark::Circle,
            head: Mark::Circle,
            class: EdgeClass::PartiallyUndirected,
            symmetric: true,
            flags: no_flags(),
        }
    } else {
        EdgeKindV {
            glyph: "--o"@,
            tail: Mark::Tail,
            head: Mark::Circle,
            class: EdgeClass::PartiallyDirected,
            symmetric: false,
            flags: no_flags(),
        }
    }
}

/// The canonical descriptions whose glyphs the catalog lacks, in catalog
/// order: exactly what `register_builtins` appends. Empty once all six
/// glyphs are present, which is what makes the installation idempotent.
pub open spec fn builtin_additions(r: RegistryV) -> Seq<EdgeKindV> {
    (if glyph_registered(r, "-->"@) {
        Seq::<EdgeKindV>::empty()
    } else {
        seq![builtin_kind(0)]
    }) + (if glyph_registered(r, "---"@) {
        Seq::<EdgeKindV>::empty()
    } else {
        seq![builtin_kind(1)]
    }) + (if glyph_registered(r, "<->"@) {
        Seq::<EdgeKindV>::empty()
    } else {
        seq![builtin_kind(2)]
    }) + (if glyph_registered(r, "o->"@) {
        Seq::<EdgeKindV>::empty()
    } else {
        seq![builtin_kind(3)]
    }) + (if glyph_registered(r, "o-o"@) {
        Seq::<EdgeKindV>::empty()
    } else {
        seq![builtin_kind(4)]
    }) + (if glyph_registered(r, "--o"@) {
        Seq::<EdgeKindV>::empty()
    } else {
        seq![builtin_kind(5)]
    })
}

/// Ordered catalog of edge kinds. A kind's code is its index, so at most 256
/// kinds can be registered. Sealing forbids further registration.
#[derive(Debug)]
pub struct EdgeRegistry {
    specs: Vec<EdgeSpec>,
    sealed: bool,
}

impl View for EdgeRegistry {
    type V = RegistryV;

    closed spec fn view(&self) -> RegistryV {
        RegistryV {
            kinds: Seq::new(self.specs@.len(), |i: int| self.specs@[i]@),
            sealed: self.sealed,
        }
    }
}

impl EdgeRegistry {
    /// Codes stay within 8 bits and glyphs are pairwise distinct.
    pub open spec fn wf(self) -> bool {
        &&& self@.kinds.len() <= 256
        &&& forall|i: int, j: int|
            0 <= i < j < self@.kinds.len() ==> (#[trigger] self@.kinds[i]).glyph != (
            #[trigger] self@.kinds[j]).glyph
    }

    /// An empty, unsealed registry.
    pub fn new() -> (r: EdgeRegistry)
        ensures
            r.wf(),
            r@.kinds.len() == 0,
            !r@.sealed,
    {
        EdgeRegistry { specs: Vec::new(), sealed: false }
    }

    /// Number of registered kinds.
    pub fn len(&self) -> (r: usize)
        ensures
            r == self@.kinds.len(),
    {
        self.specs.len()
    }

    /// Closes the registry to further registration.
    pub fn seal(&mut self)
        ensures
            final(self)@.kinds == old(self)@.kinds,
            final(self)@.sealed,
    {
        self.sealed = true;
        proof {
            assert(self@.kinds =~= old(self)@.kinds);
        }
    }

    /// Whether some kind carries this glyph.
    pub fn has_glyph(&self, glyph: &str) -> (r: bool)
        ensures
            r == glyph_registered(self@, glyph@),
    {
        let n = self.specs.len();
        let mut i: usize = 0;
        while i < n
            invariant
                n == self.specs@.len(),
                0 <= i <= n,
                forall|j: int| 0 <= j < i ==> (#[trigger] self@.kinds[j]).glyph != glyph@,
            decreases n - i,
        {
            if str_eq(self.specs[i].glyph.as_str(), glyph) {
                proof {
                    assert((#[trigger] self@.kinds[i as int]).glyph == glyph@);
                }
                return true;
            }
            i += 1;
        }
        false
    }

    /// Assigns the next free code to the given kind. Fails on a sealed
    /// registry, on a glyph already registered, and when all codes are taken,
    /// in that order of precedence; a failed call changes nothing.
    pub fn register(&mut self, spec: EdgeSpec) -> (r: Result<u8, GraphError>)
        requires
            old(self).wf(),
        ensures
            final(self).wf(),
            match r {
                Ok(c) => {
                    &&& !old(self)@.sealed
                    &&& !glyph_registered(old(self)@, spec@.glyph)
                    &&& old(self)@.kinds.len() < 256
                    &&& c as int == old(self)@.kinds.len()
                    &&& final(self)@.kinds == old(self)@.kinds.push(spec@)
                    &&& final(self)@.sealed == old(self)@.sealed
                },
                Err(e) => {
                    &&& final(self)@ == old(self)@
                    &&& (old(self)@.sealed || glyph_registered(old(self)@, spec@.glyph) || old(
                        self,
                    )@.kinds.len() >= 256)
                    &&& e == if old(self)@.sealed {
                        GraphError::RegistrySealed
                    } else if glyph_registered(old(self)@, spec@.glyph) {
                        GraphError::DuplicateGlyph
                    } else {
                        GraphError::RegistryFull
                    }
                },
            },
    {
        if self.sealed {
            return Err(GraphError::RegistrySealed);
        }
        if self.has_glyph(spec.glyph.as_str()) {
            return Err(GraphError::DuplicateGlyph);
        }
        if self.specs.len() >= 256 {
            return Err(GraphError::RegistryFull);
        }
        let c = self.specs.len() as u8;
        self.specs.push(spec);
        proof {
            assert(self@.kinds =~= old(self)@.kinds.push(spec@));
        }
        Ok(c)
    }

    /// Looks a glyph up; returns the code of the kind that carries it.
    pub fn code_of(&self, glyph: &str) -> (r: Result<u8, GraphError>)
        requires
            self.wf(),
        ensures
            match r {
                Ok(c) => (c as int) < self@.kinds.len() && self@.kinds[c as int].glyph == glyph@,
                Err(e) => !glyph_registered(self@, glyph@) && e == GraphError::UnknownGlyph,
            },
    {
        let n = self.specs.len();
        let mut i: usize = 0;
        while i < n
            invariant
                n == self.specs@.len(),
                self.wf(),
                0 <= i <= n,
                forall|j: int| 0 <= j < i ==> (#[trigger] self@.kinds[j]).glyph != glyph@,
            decreases n - i,
        {
            if str_eq(self.specs[i].glyph.as_str(), glyph) {
                return Ok(i as u8);
            }
            i += 1;
        }
        Err(GraphError::UnknownGlyph)
    }

    /// Looks a code up; returns the kind it is assigned to.
    pub fn spec_of_code(&self, code: u8) -> (r: Result<&EdgeSpec, GraphError>)
        ensures
            match r {
                Ok(s) => (code as int) < self@.kinds.len() && s@ == self@.kinds[code as int],
                Err(e) => (code as int) >= self@.kinds.len() && e == GraphError::UnknownEdgeCode,
            },
    {
        if (code as usize) < self.specs.len() {
            Ok(&self.specs[code as usize])
        } else {
            Err(GraphError::UnknownEdgeCode)
        }
    }

    /// A field-for-field copy, e.g. for snapshotting the catalog into a graph.
    pub fn duplicate(&self) -> (r: EdgeRegistry)
        ensures
            r@ == self@,
    {
        let n = self.specs.len();
        let mut specs: Vec<EdgeSpec> = Vec::new();
        let mut i: usize = 0;
        while i < n
            invariant
                n == self.specs@.len(),
                0 <= i <= n,
                specs@.len() == i,
                forall|j: int| 0 <= j < i ==> (#[trigger] specs@[j])@ == self@.kinds[j],
            decreases n - i,
        {
            let copy = self.specs[i].duplicate();
            specs.push(copy);
            i += 1;
        }
        let r = EdgeRegistry { specs, sealed: self.sealed };
        proof {
            assert(r@.kinds =~= self@.kinds);
        }
        r
    }

    /// Installs the canonical builtin glyphs covering all six classes:
    /// exactly the descriptions of the absent glyphs are appended, in
    /// catalog order, so a repeat call changes nothing. Fails, changing
    /// nothing, exactly when a builtin is missing on a sealed registry or
    /// the missing builtins would not fit in the code space.
    #[verifier::rlimit(100)]
    pub fn register_builtins(&mut self) -> (r: Result<(), GraphError>)
        requires
            old(self).wf(),
        ensures
            final(self).wf(),
            final(self)@.sealed == old(self)@.sealed,
            match r {
                Ok(()) => {
                    &&& glyph_registered(final(self)@, "-->"@)
                    &&& glyph_registered(final(self)@, "---"@)
                    &&& glyph_registered(final(self)@, "<->"@)
                    &&& glyph_registered(final(self)@, "o->"@)
                    &&& glyph_registered(final(self)@, "o-o"@)
                    &&& glyph_registered(final(self)@, "--o"@)
                    &&& (old(self)@.kinds.len() == 0 ==> builtins_installed(final(self)@))
                    &&& final(self)@.kinds == old(self)@.kinds + builtin_additions(old(self)@)
                    &&& (builtin_additions(old(self)@).len() == 0 ==> final(self)@.kinds == old(
                        self,
                    )@.kinds)
                    &&& !(old(self)@.sealed && builtin_additions(old(self)@).len() > 0)
                    &&& old(self)@.kinds.len() + builtin_additions(old(self)@).len() <= 256
                    &&& forall|i: int|
                        0 <= i < old(self)@.kinds.len() ==> final(self)@.kinds[i] == old(
                            self,
                        )@.kinds[i]
                },
                Err(e) => {
                    &&& final(self)@ == old(self)@
                    &&& ((old(self)@.sealed && builtin_additions(old(self)@).len() > 0) || old(
                        self,
                    )@.kinds.len() + builtin_additions(old(self)@).len() > 256)
                    &&& e == if old(self)@.sealed && builtin_additions(old(self)@).len() > 0 {
                        GraphError::RegistrySealed
                    } else {
                        GraphError::RegistryFull
                    }
                },
            },
    {
        proof {
            lemma_builtin_glyphs_distinct();
        }
        let ghost s0 = self@;
        let m1 = !self.has_glyph("-->");
        let m2 = !self.has_glyph("---");
        let m3 = !self.has_glyph("<->");
        let m4 = !self.has_glyph("o->");
        let m5 = !self.has_glyph("o-o");
        let m6 = !self.has_glyph("--o");
        let mut needed: usize = 0;
        if m1 {
            needed += 1;
        }
        if m2 {
            needed += 1;
        }
        if m3 {
            needed += 1;
        }
        if m4 {
            needed += 1;
        }
        if m5 {
            needed += 1;
        }
        if m6 {
            needed += 1;
        }
        proof {
            assert(builtin_additions(s0).len() == needed as int);
        }
        if self.sealed && needed > 0 {
            return Err(GraphError::RegistrySealed);
        }
        if self.specs.len() + needed > 256 {
            return Err(GraphError::RegistryFull);
        }
        if m1 {
            proof {
                assert forall|i: int|
                    s0.kinds.len() <= i < self@.kinds.len() implies (
                #[trigger] self@.kinds[i]).glyph != "-->"@ by {}
                lemma_extension_keeps_glyph_absent(s0, self@, "-->"@);
            }
            let r = self.register(
                EdgeSpec {
                    glyph: "-->".to_owned(),
                    tail: Mark::Tail,
                    head: Mark::Arrow,
                    class: EdgeClass::Directed,
                    symmetric: false,
                    flags: QueryFlags::empty(),
                },
            );
            if let Err(e) = r {
                proof {
                    assert(false);
                }
                return Err(e);
            }
        }
        let ghost t1 = self@;
        proof {
            assert(t1.kinds == if m1 {
                s0.kinds.push(builtin_kind(0))
            } else {
                s0.kinds
            });
        }
        if m2 {
            proof {
                assert forall|i: int|
                    s0.kinds.len() <= i < self@.kinds.len() implies (
                #[trigger] self@.kinds[i]).glyph != "---"@ by {}
                lemma_extension_keeps_glyph_absent(s0, self@, "---"@);
            }
            let r = self.register(
                EdgeSpec {
                    glyph: "---".to_owned(),
                    tail: Mark::Tail,
                    head: Mark::Tail,
                    class: EdgeClass::Undirected,
                    symmetric: true,
                    flags: QueryFlags::empty(),
                },
            );
            if let Err(e) = r {
                proof {
                    assert(false);
                }
                return Err(e);
            }
        }
        let ghost t2 = self@;
        proof {
            assert(t2.kinds == if m2 {
                t1.kinds.push(builtin_kind(1))
            } else {
                t1.kinds
            });
        }
        if m3 {
            proof {
                assert forall|i: int|
                    s0.kinds.len() <= i < self@.kinds.len() implies (
                #[trigger] self@.kinds[i]).glyph != "<->"@ by {}
                lemma_extension_keeps_glyph_absent(s0, self@, "<->"@);
            }
            let mut flags = QueryFlags::empty();
            flags.latent_confounding = true;
            let r = self.register(
                EdgeSpec {
                    glyph: "<->".to_owned(),
                    tail: Mark::Arrow,
                    head: Mark::Arrow,
                    class: EdgeClass::Bidirected,
                    symmetric: true,
                    flags,
                },
            );
            if let Err(e) = r {
                proof {
                    assert(false);
                }
                return Err(e);
            }
        }
        let ghost t3 = self@;
        proof {
            assert(t3.kinds == if m3 {
                t2.kinds.push(builtin_kind(2))
            } else {
                t2.kinds
            });
        }
        if m4 {
            proof {
                assert forall|i: int|
                    s0.kinds.len() <= i < self@.kinds.len() implies (
                #[trigger] self@.kinds[i]).glyph != "o->"@ by {}
                lemma_extension_keeps_glyph_absent(s0, self@, "o->"@);
            }
            let r = self.register(
                EdgeSpec {
                    glyph: "o->".to_owned(),
                    tail: Mark::Circle,
                    head: Mark::Arrow,
                    class: EdgeClass::Partial,
                    symmetric: false,
                    flags: QueryFlags::empty(),
                },
            );
            if let Err(e) = r {
                proof {
                    assert(false);
                }
                return Err(e);
            }
        }
        let ghost t4 = self@;
        proof {
            assert(t4.kinds == if m4 {
                t3.kinds.push(builtin_kind(3))
            } else {
                t3.kinds
            });
        }
        if m5 {
            proof {
                assert forall|i: int|
                    s0.kinds.len() <= i < self@.kinds.len() implies (
                #[trigger] self@.kinds[i]).glyph != "o-o"@ by {}
                lemma_extension_keeps_glyph_absent(s0, self@, "o-o"@);
            }
            let r = self.register(
                EdgeSpec {
                    glyph: "o-o".to_owned(),
                    tail: Mark::Circle,
                    head: Mark::Circle,
                    class: EdgeClass::PartiallyUndirected,
                    symmetric: true,
                    flags: QueryFlags::empty(),
                },
            );
            if let Err(e) = r {
                proof {
                    assert(false);
                }
                return Err(e);
            }
        }
        let ghost t5 = self@;
        proof {
            assert(t5.kinds == if m5 {
                t4.kinds.push(builtin_kind(4))
            } else {
                t4.kinds
            });
        }
        if m6 {
            proof {
                assert forall|i: int|
                    s0.kinds.len() <= i < self@.kinds.len() implies (
                #[trigger] self@.kinds[i]).glyph != "--o"@ by {}
                lemma_extension_keeps_glyph_absent(s0, self@, "--o"@);
            }
            let r = self.register(
                EdgeSpec {
                    glyph: "--o".to_owned(),
                    tail: Mark::Tail,
                    head: Mark::Circle,
                    class: EdgeClass::PartiallyDirected,
                    symmetric: false,
                    flags: QueryFlags::empty(),
                },
            );
            if let Err(e) = r {
                proof {
                    assert(false);
                }
                return Err(e);
            }
        }
        proof {
            assert(self@.kinds == if m6 {
                t5.kinds.push(builtin_kind(5))
            } else {
                t5.kinds
            });
            lemma_builtins_outcome(s0, t1, t2, t3, t4, t5, self@);
        }
        Ok(())
    }

}

/// The six builtin glyphs are pairwise distinct character sequences.
proof fn lemma_builtin_glyphs_distinct()
    ensures
        "-->"@ != "---"@,
        "-->"@ != "<->"@,
        "-->"@ != "o->"@,
        "-->"@ != "o-o"@,
        "-->"@ != "--o"@,
        "---"@ != "<->"@,
        "---"@ != "o->"@,
        "---"@ != "o-o"@,
        "---"@ != "--o"@,
        "<->"@ != "o->"@,
        "<->"@ != "o-o"@,
        "<->"@ != "--o"@,
        "o->"@ != "o-o"@,
        "o->"@ != "--o"@,
        "o-o"@ != "--o"@,
{
    reveal_strlit("-->");
    reveal_strlit("---");
    reveal_strlit("<->");
    reveal_strlit("o->");
    reveal_strlit("o-o");
    reveal_strlit("--o");
    assert("-->"@[0] == '-' && "-->"@[2] == '>');
    assert("---"@[0] == '-' && "---"@[2] == '-');
    assert("<->"@[0] == '<' && "<->"@[2] == '>');
    assert("o->"@[0] == 'o' && "o->"@[2] == '>');
    assert("o-o"@[0] == 'o' && "o-o"@[2] == 'o');
    assert("--o"@[0] == '-' && "--o"@[2] == 'o');
}

/// In an extension of a registry catalog that adds only kinds with other
/// glyphs, an absent glyph stays absent.
proof fn lemma_extension_keeps_glyph_absent(r1: RegistryV, r2: RegistryV, g: Seq<char>)
    requires
        r1.kinds.len() <= r2.kinds.len(),
        forall|i: int| 0 <= i < r1.kinds.len() ==> r2.kinds[i] == r1.kinds[i],
        !glyph_registered(r1, g),
        forall|i: int|
            r1.kinds.len() <= i < r2.kinds.len() ==> (#[trigger] r2.kinds[i]).glyph != g,
    ensures
        !glyph_registered(r2, g),
{
    assert forall|i: int| 0 <= i < r2.kinds.len() implies (#[trigger] r2.kinds[i]).glyph != g by {
        if i < r1.kinds.len() {
            assert(r2.kinds[i] == r1.kinds[i]);
            assert((#[trigger] r1.kinds[i]).glyph != g);
        }
    }
}

/// Chained conditional pushes of the missing canonical kinds append exactly
/// `builtin_additions`: each builtin glyph ends up present, and a fresh
/// catalog ends up holding all six canonical kinds.
#[verifier::rlimit(100)]
proof fn lemma_builtins_outcome(
    s0: RegistryV,
    t1: RegistryV,
    t2: RegistryV,
    t3: RegistryV,
    t4: RegistryV,
    t5: RegistryV,
    t6: RegistryV,
)
    requires
        t1.kinds == if !glyph_registered(s0, "-->"@) {
            s0.kinds.push(builtin_kind(0))
        } else {
            s0.kinds
        },
        t2.kinds == if !glyph_registered(s0, "---"@) {
            t1.kinds.push(builtin_kind(1))
        } else {
            t1.kinds
        },
        t3.kinds == if !glyph_registered(s0, "<->"@) {
            t2.kinds.push(builtin_kind(2))
        } else {
            t2.kinds
        },
        t4.kinds == if !glyph_registered(s0, "o->"@) {
            t3.kinds.push(builtin_kind(3))
        } else {
            t3.kinds
        },
        t5.kinds == if !glyph_registered(s0, "o-o"@) {
            t4.kinds.push(builtin_kind(4))
        } else {
            t4.kinds
        },
        t6.kinds == if !glyph_registered(s0, "--o"@) {
            t5.kinds.push(builtin_kind(5))
        } else {
            t5.kinds
        },
    ensures
        t6.kinds == s0.kinds + builtin_additions(s0),
        glyph_registered(t6, "-->"@),
        glyph_registered(t6, "---"@),
        glyph_registered(t6, "<->"@),
        glyph_registered(t6, "o->"@),
        glyph_registered(t6, "o-o"@),
        glyph_registered(t6, "--o"@),
        s0.kinds.len() == 0 ==> builtins_installed(t6),
        t6.kinds.len() >= s0.kinds.len(),
        forall|i: int| 0 <= i < s0.kinds.len() ==> t6.kinds[i] == s0.kinds[i],
{
    let a1 = if glyph_registered(s0, "-->"@) {
        Seq::<EdgeKindV>::empty()
    } else {
        seq![builtin_kind(0)]
    };
    let a2 = if glyph_registered(s0, "---"@) {
        Seq::<EdgeKindV>::empty()
    } else {
        seq![builtin_kind(1)]
    };
    let a3 = if glyph_registered(s0, "<->"@) {
        Seq::<EdgeKindV>::empty()
    } else {
        seq![builtin_kind(2)]
    };
    let a4 = if glyph_registered(s0, "o->"@) {
        Seq::<EdgeKindV>::empty()
    } else {
        seq![builtin_kind(3)]
    };
    let a5 = if glyph_registered(s0, "o-o"@) {
        Seq::<EdgeKindV>::empty()
    } else {
        seq![builtin_kind(4)]
    };
    let a6 = if glyph_registered(s0, "--o"@) {
        Seq::<EdgeKindV>::empty()
    } else {
        seq![builtin_kind(5)]
    };
    assert(t1.kinds =~= s0.kinds + a1);
    assert(t2.kinds =~= t1.kinds + a2);
    assert(t3.kinds =~= t2.kinds + a3);
    assert(t4.kinds =~= t3.kinds + a4);
    assert(t5.kinds =~= t4.kinds + a5);
    assert(t6.kinds =~= t5.kinds + a6);
    assert(builtin_additions(s0) == a1 + a2 + a3 + a4 + a5 + a6);
    assert(t6.kinds =~= s0.kinds + builtin_additions(s0));
    assert(glyph_registered(t6, "-->"@)) by {
        if glyph_registered(s0, "-->"@) {
            let i = choose|i: int| 0 <= i < s0.kinds.len() && (#[trigger] s0.kinds[i]).glyph == "-->"@;
            assert((t6.kinds[i]).glyph == "-->"@);
        } else {
            assert((t6.kinds[s0.kinds.len() as int]).glyph == "-->"@);
        }
    }
    assert(glyph_registered(t6, "---"@)) by {
        if glyph_registered(s0, "---"@) {
            let i = choose|i: int| 0 <= i < s0.kinds.len() && (#[trigger] s0.kinds[i]).glyph == "---"@;
            assert((t6.kinds[i]).glyph == "---"@);
        } else {
            assert((t6.kinds[t1.kinds.len() as int]).glyph == "---"@);
        }
    }
    assert(glyph_registered(t6, "<->"@)) by {
        if glyph_registered(s0, "<->"@) {
            let i = choose|i: int| 0 <= i < s0.kinds.len() && (#[trigger] s0.kinds[i]).glyph == "<->"@;
            assert((t6.kinds[i]).glyph == "<->"@);
        } else {
            assert((t6.kinds[t2.kinds.len() as int]).glyph == "<->"@);
        }
    }
    assert(glyph_registered(t6, "o->"@)) by {
        if glyph_registered(s0, "o->"@) {
            let i = choose|i: int| 0 <= i < s0.kinds.len() && (#[trigger] s0.kinds[i]).glyph == "o->"@;
            assert((t6.kinds[i]).glyph == "o->"@);
        } else {
            assert((t6.kinds[t3.kinds.len() as int]).glyph == "o->"@);
        }
    }
    assert(glyph_registered(t6, "o-o"@)) by {
        if glyph_registered(s0, "o-o"@) {
            let i = choose|i: int| 0 <= i < s0.kinds.len() && (#[trigger] s0.kinds[i]).glyph == "o-o"@;
            assert((t6.kinds[i]).glyph == "o-o"@);
        } else {
            assert((t6.kinds[t4.kinds.len() as int]).glyph == "o-o"@);
        }
    }
    assert(glyph_registered(t6, "--o"@)) by {
        if glyph_registered(s0, "--o"@) {
            let i = choose|i: int| 0 <= i < s0.kinds.len() && (#[trigger] s0.kinds[i]).glyph == "--o"@;
            assert((t6.kinds[i]).glyph == "--o"@);
        } else {
            assert((t6.kinds[t5.kinds.len() as int]).glyph == "--o"@);
        }
    }
    if s0.kinds.len() == 0 {
        assert(kind_matches(
            t6.kinds[0],
            "-->"@,
            Mark::Tail,
            Mark::Arrow,
            EdgeClass::Directed,
            false,
            no_flags(),
        ));
        assert(kind_matches(
            t6.kinds[1],
            "---"@,
            Mark::Tail,
            Mark::Tail,
            EdgeClass::Undirected,
            true,
            no_flags(),
        ));
        assert(kind_matches(
            t6.kinds[2],
            "<->"@,
            Mark::Arrow,
            Mark::Arrow,
            EdgeClass::Bidirected,
            true,
            latent_flag(),
        ));
        assert(kind_matches(
            t6.kinds[3],
            "o->"@,
            Mark::Circle,
            Mark::Arrow,
            EdgeClass::Partial,
            false,
            no_flags(),
        ));
        assert(kind_matches(
            t6.kinds[4],
            "o-o"@,
            Mark::Circle,
            Mark::Circle,
            EdgeClass::PartiallyUndirected,
            true,
            no_flags(),
        ));
        assert(kind_matches(
            t6.kinds[5],
            "--o"@,
            Mark::Tail,
            Mark::Circle,
            EdgeClass::PartiallyDirected,
            false,
            no_flags(),
        ));
    }
}

} // verus!
