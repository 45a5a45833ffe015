//! Results of read-only SPARQL queries.
use vstd::prelude::*;
use std::collections::BTreeMap;

verus! {

/// The rows of a SPARQL query: the projected variables, one map from variable to rendered
/// term per solution, and whether rows were cut off at the row limit.
#[derive(Debug, Clone)]
pub struct SparqlResult {
    pub columns: Vec<String>,
    pub rows: Vec<BTreeMap<String, String>>,
    pub truncated: bool,
}

} // verus!
