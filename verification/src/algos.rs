//! A free-standing entry point for the component counter.
use vstd::prelude::*;

verus! {

use crate::{Graph, component_count};

/// The number of connected components of the graph: the flood-fill counter
/// applied to the consumed graph.
pub fn count_components<G: Graph>(graph: G) -> (count: u32)
    requires
        graph.wf_spec(),
    ensures
        count as nat == component_count(graph.edges_spec(), graph.nodes_spec(), graph.nodes_spec()),
{
    crate::algo::count_components(graph)
}

} // verus!
