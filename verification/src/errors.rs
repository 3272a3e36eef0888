//! Typed failures. Every fallible operation of the library returns a
//! `GraphError`; `kind` groups the variants into the four broad categories
//! (validation, structural, state, unsupported operation).

use vstd::prelude::*;

verus! {

/// Broad category of a failure.
#[derive(Clone, Copy, Debug, PartialEq, Eq, Structural)]
pub enum ErrorKind {
    /// Bad input values: node ids out of range, unknown codes or glyphs,
    /// malformed mark/class/flag text, a full registry.
    Validation,
    /// The graph's structure is unacceptable: a directed cycle, an edge class
    /// the target view forbids, mismatched sizes, ambiguous node names.
    Structure,
    /// An operation was issued in the wrong state, such as registering into a
    /// sealed registry.
    State,
    /// The operation is not offered for this kind of graph.
    Unsupported,
}

/// Precise failure reported by the library.
#[derive(Clone, Copy, Debug, PartialEq, Eq, Structural)]
pub enum GraphError {
    /// A node id is not below the graph's node count.
    InvalidNodeId,
    /// An edge-type code is not assigned in the registry.
    UnknownEdgeCode,
    /// A glyph is not registered.
    UnknownGlyph,
    /// Mark text that parses to no orientation mark.
    MalformedMark,
    /// Class text that parses to no edge class.
    MalformedClass,
    /// A capability-flag token that names no flag.
    UnknownFlag,
    /// All 256 edge-kind codes are assigned.
    RegistryFull,
    /// The glyph is already registered.
    DuplicateGlyph,
    /// A self-loop was offered to a simple graph.
    SelfLoop,
    /// A second edge on an already-connected node pair of a simple graph.
    DuplicateEdge,
    /// The directed sub-part of the graph contains a cycle.
    DirectedCycle,
    /// An arc's edge class is not allowed for the requested view type.
    DisallowedEdgeClass,
    /// Two compared graphs (or a graph and a name list) differ in size.
    SizeMismatch,
    /// A node name occurs twice during name-based alignment.
    DuplicateName,
    /// A node name of one graph is missing from the other.
    NameNotFound,
    /// The registry is sealed against further registration.
    RegistrySealed,
    /// The operation is not offered for this view class.
    UnsupportedOperation,
}

impl GraphError {
    /// Category of this failure.
    pub open spec fn kind_spec(self) -> ErrorKind {
        match self {
            GraphError::InvalidNodeId => ErrorKind::Validation,
            GraphError::UnknownEdgeCode => ErrorKind::Validation,
            GraphError::UnknownGlyph => ErrorKind::Validation,
            GraphError::MalformedMark => ErrorKind::Validation,
            GraphError::MalformedClass => ErrorKind::Validation,
            GraphError::UnknownFlag => ErrorKind::Validation,
            GraphError::RegistryFull => ErrorKind::Validation,
            GraphError::DuplicateGlyph => ErrorKind::Validation,
            GraphError::SelfLoop => ErrorKind::Validation,
            GraphError::DuplicateEdge => ErrorKind::Validation,
            GraphError::DirectedCycle => ErrorKind::Structure,
            GraphError::DisallowedEdgeClass => ErrorKind::Structure,
            GraphError::SizeMismatch => ErrorKind::Structure,
            GraphError::DuplicateName => ErrorKind::Structure,
            GraphError::NameNotFound => ErrorKind::Structure,
            GraphError::RegistrySealed => ErrorKind::State,
            GraphError::UnsupportedOperation => ErrorKind::Unsupported,
        }
    }

    /// Category of this failure.
    pub fn kind(&self) -> (k: ErrorKind)
        ensures
            k == self.kind_spec(),
    {
        match self {
            GraphError::InvalidNodeId => ErrorKind::Validation,
            GraphError::UnknownEdgeCode => ErrorKind::Validation,
            GraphError::UnknownGlyph => ErrorKind::Validation,
            GraphError::MalformedMark => ErrorKind::Validation,
            GraphError::MalformedClass => ErrorKind::Validation,
            GraphError::UnknownFlag => ErrorKind::Validation,
            GraphError::RegistryFull => ErrorKind::Validation,
            GraphError::DuplicateGlyph => ErrorKind::Validation,
            GraphError::SelfLoop => ErrorKind::Validation,
            GraphError::DuplicateEdge => ErrorKind::Validation,
            GraphError::DirectedCycle => ErrorKind::Structure,
            GraphError::DisallowedEdgeClass => ErrorKind::Structure,
            GraphError::SizeMismatch => ErrorKind::Structure,
            GraphError::DuplicateName => ErrorKind::Structure,
            GraphError::NameNotFound => ErrorKind::Structure,
            GraphError::RegistrySealed => ErrorKind::State,
            GraphError::UnsupportedOperation => ErrorKind::Unsupported,
        }
    }
}

} // verus!
