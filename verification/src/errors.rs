//! The error taxonomy of the retrieval core.

use vstd::prelude::*;

verus! {

/// Everything that can go wrong between a record source and a query result.
#[derive(Clone, Copy, Debug, PartialEq, Eq, Structural)]
pub enum RetrievalError {
    /// The external embedding collaborator could not produce a vector.
    EmbeddingFailure,
    /// A point or a query has a dimensionality different from the index's.
    DimensionMismatch,
    /// An index cannot be built over zero points.
    EmptyIndex,
}

} // verus!
