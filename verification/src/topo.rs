//! Dependency graphs between nodes.

use std::collections::HashMap;
use std::collections::HashSet;

use vstd::prelude::*;

verus! {

/// For every node, the nodes it has edges to.
pub type Graph<T> = HashMap<T, HashSet<T>>;

/// Add an edge from `from` to `to`. Edges are not recorded yet: the graph is
/// left as it is.
pub fn add_edge<T>(graph: &mut Graph<T>, from: T, to: T)
    ensures
        *final(graph) == *old(graph),
{
}

} // verus!
