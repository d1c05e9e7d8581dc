use petgraph::graph::DiGraph;
use vstd::prelude::*;

verus! {

#[verifier::external_type_specification]
#[verifier::external_body]
pub struct ExDirected(petgraph::Directed);

/// Relies on petgraph's `Graph::new`: an empty directed graph.
#[verifier::external_body]
fn digraph_new<P>() -> DiGraph<P, ()> {
    DiGraph::new()
}

/// A Bayesian network: a directed graph whose nodes carry conditional distributions `P`.
#[verifier::reject_recursive_types(P)]
pub struct BayesNetwork<P> {
    graph: DiGraph<P, ()>,
}

impl<P> BayesNetwork<P> {
    pub fn new() -> Self {
        BayesNetwork { graph: digraph_new() }
    }
}

} // verus!
