use vstd::prelude::*;

verus! {

/// What can go wrong in an index operation.
#[derive(Debug, Clone, Copy, PartialEq, Eq, Structural)]
pub enum VectorError {
    /// A vector's length differs from the index's dimension.
    DimensionMismatch { expected: usize, actual: usize },
    /// An entry with the same identifier is already stored.
    AlreadyExists,
    /// No entry has the identifier.
    NotFound,
    /// A vector, identifier or parameter breaks the input rules.
    InvalidVector,
    /// An existing index was opened with another dimension or metric.
    IndexConflict,
    /// Stored bytes could not be decoded.
    SerializationError,
}

} // verus!
