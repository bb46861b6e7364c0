//! Defaults of the HTTP API's query parameters.
use vstd::prelude::*;

verus! {

/// Results returned when a query names no limit.
pub fn default_limit() -> (r: usize)
    ensures
        r == 10,
{
    10
}

/// Neighbours shown around an entity when no limit is named.
pub fn default_graph_limit() -> (r: usize)
    ensures
        r == 20,
{
    20
}

/// How far a connection is searched when no depth is named.
pub fn default_depth() -> (r: usize)
    ensures
        r == 5,
{
    5
}

} // verus!
