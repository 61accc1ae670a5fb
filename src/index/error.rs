//! Errors thrown during indexing.
use vstd::prelude::*;

verus! {

/// Possible indexing errors.
#[derive(Debug)]
pub enum IndexingError {
    /// The mapping of a field within the index was already defined.
    MappingFieldAlreadyExists { field: String },
    /// The mapping for a field does not exist.
    MissingFieldMapping { field: String },
}

} // verus!
