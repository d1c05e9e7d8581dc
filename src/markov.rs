use crate::alphabets::Alphabet;
use crate::error::InferenceError;
use crate::graph::{
    graph_add_edge, graph_add_node, graph_edge_count_of, graph_edges, graph_find_edge, graph_new,
    graph_node_count, graph_node_count_of, graph_wf, joined, edges_within,
};
use crate::markov::message_bank::{directed_pairs, MessageBank};
use petgraph::graph::UnGraph;
use std::marker::PhantomData;
use vstd::prelude::*;

pub mod decoding;
pub mod message_bank;

verus! {

/// A pairwise Markov random field over the state space `X`: an undirected graph whose nodes
/// carry node potentials `NP` and whose edges carry edge potentials `EP`.
pub struct MarkovRandomField<X, NP, EP> {
    graph: UnGraph<(), ()>,
    node_potentials: Vec<NP>,
    edge_potentials: Vec<EP>,
    _alphabet: PhantomData<X>,
}

impl<X: Alphabet, NP, EP> MarkovRandomField<X, NP, EP> {
    pub closed spec fn wf(&self) -> bool {
        &&& graph_wf(self.graph)
        &&& self.node_potentials@.len() == graph_node_count(self.graph)
        &&& self.edge_potentials@.len() == graph_edges(self.graph).len()
    }

    /// The number of nodes `N`; nodes are `0..N`.
    pub closed spec fn nodes(&self) -> nat {
        graph_node_count(self.graph)
    }

    /// The endpoints of each edge, by edge index.
    pub closed spec fn edges(&self) -> Seq<(usize, usize)> {
        graph_edges(self.graph)
    }

    pub closed spec fn node_potentials(&self) -> Seq<NP> {
        self.node_potentials@
    }

    pub closed spec fn edge_potentials(&self) -> Seq<EP> {
        self.edge_potentials@
    }

    pub closed spec fn structure(&self) -> UnGraph<(), ()> {
        self.graph
    }

    pub proof fn lemma_wf(&self)
        requires
            self.wf(),
        ensures
            graph_wf(self.structure()),
            edges_within(self.edges(), self.nodes()),
            self.nodes() < u32::MAX,
    {
    }

    /// A field with no nodes and no edges.
    pub fn new() -> (r: Self)
        ensures
            r.wf(),
            r.nodes() == 0,
            r.edges() == Seq::<(usize, usize)>::empty(),
    {
        MarkovRandomField {
            graph: graph_new(),
            node_potentials: Vec::new(),
            edge_potentials: Vec::new(),
            _alphabet: PhantomData,
        }
    }

    /// Adds a node that owns `potential`; its index is the old node count.
    pub fn add_node(&mut self, potential: NP) -> (r: usize)
        requires
            old(self).wf(),
            old(self).nodes() + 1 < u32::MAX,
        ensures
            final(self).wf(),
            r as nat == old(self).nodes(),
            final(self).nodes() == old(self).nodes() + 1,
            final(self).edges() == old(self).edges(),
            final(self).node_potentials() == old(self).node_potentials().push(potential),
            final(self).edge_potentials() == old(self).edge_potentials(),
    {
        let r = graph_add_node(&mut self.graph);
        self.node_potentials.push(potential);
        r
    }

    /// Adds an edge between `a` and `b` that owns `potential`; its index is the old edge count.
    pub fn add_edge(&mut self, a: usize, b: usize, potential: EP) -> (r: Result<
        usize,
        InferenceError,
    >)
        requires
            old(self).wf(),
            old(self).edges().len() + 1 < u32::MAX,
        ensures
            final(self).wf(),
            ((a as nat) < old(self).nodes() && (b as nat) < old(self).nodes()) <==> r.is_ok(),
            r matches Err(e) ==> e == InferenceError::InvalidNodeIndex && *final(self) == *old(self),
            r matches Ok(e) ==> {
                &&& e as nat == old(self).edges().len()
                &&& final(self).nodes() == old(self).nodes()
                &&& final(self).edges() == old(self).edges().push((a, b))
                &&& final(self).node_potentials() == old(self).node_potentials()
                &&& final(self).edge_potentials() == old(self).edge_potentials().push(potential)
            },
    {
        let n = graph_node_count_of(&self.graph);
        if a >= n || b >= n {
            return Err(InferenceError::InvalidNodeIndex);
        }
        let e = graph_add_edge(&mut self.graph, a, b);
        self.edge_potentials.push(potential);
        Ok(e)
    }

    pub fn node_count(&self) -> (r: usize)
        requires
            self.wf(),
        ensures
            r as nat == self.nodes(),
    {
        graph_node_count_of(&self.graph)
    }

    pub fn edge_count(&self) -> (r: usize)
        requires
            self.wf(),
        ensures
            r as nat == self.edges().len(),
    {
        graph_edge_count_of(&self.graph)
    }

    /// The undirected structure, without potentials.
    pub fn graph(&self) -> (r: &UnGraph<(), ()>)
        ensures
            *r == self.structure(),
    {
        &self.graph
    }

    /// The potential of node `index`.
    pub fn node_potential(&self, index: usize) -> (r: Result<&NP, InferenceError>)
        requires
            self.wf(),
        ensures
            (index as nat) < self.nodes() <==> r.is_ok(),
            r matches Err(e) ==> e == InferenceError::InvalidNodeIndex,
            r matches Ok(p) ==> *p == self.node_potentials()[index as int],
    {
        if index < self.node_potentials.len() {
            Ok(&self.node_potentials[index])
        } else {
            Err(InferenceError::InvalidNodeIndex)
        }
    }

    /// The potential of an edge that joins `a` and `b`, in either orientation.
    pub fn edge_potential(&self, a: usize, b: usize) -> (r: Result<&EP, InferenceError>)
        requires
            self.wf(),
        ensures
            ((a as nat) >= self.nodes() || (b as nat) >= self.nodes()) <==> r matches Err(
                InferenceError::InvalidNodeIndex,
            ),
            ((a as nat) < self.nodes() && (b as nat) < self.nodes() && !joined(self.edges(), a, b))
                <==> r matches Err(InferenceError::MissingEdge),
            r.is_ok() <==> (a as nat) < self.nodes() && (b as nat) < self.nodes() && joined(
                self.edges(),
                a,
                b,
            ),
            r matches Ok(p) ==> exists|e: int|
                0 <= e < self.edges().len() && (self.edges()[e] == (a, b) || self.edges()[e] == (
                    b,
                    a,
                )) && *p == self.edge_potentials()[e],
    {
        let n = graph_node_count_of(&self.graph);
        if a >= n || b >= n {
            return Err(InferenceError::InvalidNodeIndex);
        }
        match graph_find_edge(&self.graph, a, b) {
            Some(e) => {
                let p = &self.edge_potentials[e];
                proof {
                    assert(0 <= e < self.edges().len() && *p == self.edge_potentials()[e as int]);
                }
                Ok(p)
            },
            None => Err(InferenceError::MissingEdge),
        }
    }

    /// A message store for this field: one vector of `X::size()` values, all `init`, for each
    /// orientation of each edge.
    pub fn message_bank<T: Copy>(&self, init: T) -> (r: Result<MessageBank<T>, InferenceError>)
        requires
            self.wf(),
            2 * self.edges().len() * X::spec_size() <= usize::MAX,
        ensures
            X::spec_size() == 0 <==> r matches Err(InferenceError::EmptyStateSpace),
            r matches Err(e) ==> e == InferenceError::EmptyStateSpace,
            r matches Ok(b) ==> {
                &&& b.wf()
                &&& b.states() == X::spec_size()
                &&& b.nodes() == self.nodes()
                &&& b.pairs() == directed_pairs(self.edges())
                &&& b.values() == Seq::new(b.values().len(), |i: int| init)
            },
    {
        MessageBank::new(X::size(), &self.graph, init)
    }
}

} // verus!
