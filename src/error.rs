use vstd::prelude::*;

verus! {

/// The ways a query over a graph store can fail.
pub enum GraphError {
    /// A query named an entity that the store does not hold.
    UnknownEntity(String),
    /// Both entities are known, but no directed path leads from the first to the second.
    Unreachable,
    /// A centrality query was made on a store without entities.
    EmptyGraph,
}

} // verus!
