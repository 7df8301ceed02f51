//! What a query returns, and what a stored vector is.

use vstd::prelude::*;

verus! {

/// `serde_json::Value`, a JSON value, carried as a whole: the library
/// stores it and hands it back, and never looks inside.
#[verifier::external_type_specification]
#[verifier::external_body]
pub struct ExMetadata(serde_json::Value);

/// `Clone::clone` of `serde_json::Value`, which the crate derives: the copy
/// is the same JSON value.
pub assume_specification[ <serde_json::Value as Clone>::clone ](
    value: &serde_json::Value,
) -> (copy: serde_json::Value)
    ensures
        copy == *value,
;

/// One neighbour found by a query.
#[derive(Debug, Clone)]
pub struct SearchResult {
    /// The id of the vector.
    pub id: u32,
    /// Its distance from the query, as the bits of a scalar.
    pub distance: u32,
    /// What was stored with the vector.
    pub metadata: Option<serde_json::Value>,
}

/// A stored vector with what belongs to it.
#[derive(Debug, Clone)]
pub struct VectorEntry {
    /// The id of the vector.
    pub id: u32,
    /// Its scalars.
    pub vector: Vec<u32>,
    /// What was stored with the vector.
    pub metadata: Option<serde_json::Value>,
}

} // verus!
