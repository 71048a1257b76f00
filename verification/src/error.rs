use vstd::prelude::*;

verus! {

/// Errors returned by the graph store's own operations.
#[derive(Debug, Clone, Copy, PartialEq, Eq, Structural)]
pub enum GraphOperationError {
    /// Adding a vertex whose derived id is already present.
    VertexAlreadyExists,
    /// Looking up or removing a vertex id that is not present.
    VertexDoesNotExist,
    /// Looking up or removing an edge that is not present.
    EdgeDoesNotExist,
}

/// Errors produced while parsing a Trivial Graph Format document.
/// Every variant carries the 1-based line number of the offending line.
#[derive(Debug, Clone, Copy, PartialEq, Eq, Structural)]
pub enum ParseGraphError {
    /// A structurally malformed vertex line (no index token).
    VertexDefinition(usize),
    /// A structurally malformed edge line (fewer than two index tokens).
    EdgeDefinition(usize),
    /// A vertex line reuses an external index: `(vertex_index, line)`.
    VertexAlreadyDefined(usize, usize),
    /// An edge line names an external index with no vertex:
    /// `(from_index, to_index, line)`.
    VerticesNotDefined(usize, usize, usize),
    /// An index token is not a non-negative integer that fits in `usize`.
    ParseInt(usize),
    /// A label could not be parsed as the label type.
    ParseLabel(usize),
    /// A graph store operation failed during parsing.
    GraphError(GraphOperationError, usize),
}

} // verus!
