use crate::error::InferenceError;
use petgraph::graph::{EdgeIndex, NodeIndex, UnGraph};
use petgraph::visit::{depth_first_search, DfsEvent};
use vstd::prelude::*;

verus! {

#[verifier::external_type_specification]
#[verifier::external_body]
#[verifier::reject_recursive_types(N)]
#[verifier::reject_recursive_types(E)]
#[verifier::reject_recursive_types(Ty)]
#[verifier::reject_recursive_types(Ix)]
pub struct ExGraph<N, E, Ty, Ix>(petgraph::graph::Graph<N, E, Ty, Ix>);

#[verifier::external_type_specification]
#[verifier::external_body]
pub struct ExUndirected(petgraph::Undirected);

/// The number of nodes of an undirected structure graph.
pub uninterp spec fn graph_node_count(g: UnGraph<(), ()>) -> nat;

/// The endpoints of each edge of an undirected structure graph, by edge index.
pub uninterp spec fn graph_edges(g: UnGraph<(), ()>) -> Seq<(usize, usize)>;

/// Every edge joins two nodes of the graph.
pub open spec fn edges_within(edges: Seq<(usize, usize)>, n: nat) -> bool {
    forall|e: int| 0 <= e < edges.len() ==> (#[trigger] edges[e]).0 < n && edges[e].1 < n
}

/// Some edge joins `a` and `b`, in one orientation or the other.
pub open spec fn joined(edges: Seq<(usize, usize)>, a: usize, b: usize) -> bool {
    exists|e: int| 0 <= e < edges.len() && (#[trigger] edges[e] == (a, b) || edges[e] == (b, a))
}

pub open spec fn graph_wf(g: UnGraph<(), ()>) -> bool {
    &&& graph_node_count(g) < u32::MAX
    &&& graph_edges(g).len() < u32::MAX
    &&& edges_within(graph_edges(g), graph_node_count(g))
}

/// Relies on petgraph's `Graph::new_undirected`: a graph with no nodes and no edges.
#[verifier::external_body]
pub(crate) fn graph_new() -> (g: UnGraph<(), ()>)
    ensures
        graph_node_count(g) == 0,
        graph_edges(g) == Seq::<(usize, usize)>::empty(),
{
    UnGraph::new_undirected()
}

/// Relies on petgraph's `Graph::add_node`: appends a node, whose index is the old node count.
/// It panics only when the count reaches the `u32` index type's end marker.
#[verifier::external_body]
pub(crate) fn graph_add_node(g: &mut UnGraph<(), ()>) -> (r: usize)
    requires
        graph_node_count(*old(g)) + 1 < u32::MAX,
    ensures
        r as nat == graph_node_count(*old(g)),
        graph_node_count(*final(g)) == graph_node_count(*old(g)) + 1,
        graph_edges(*final(g)) == graph_edges(*old(g)),
{
    g.add_node(()).index()
}

/// Relies on petgraph's `Graph::add_edge`: appends the edge `(a, b)`, whose index is the old
/// edge count. It panics when a node does not exist or the edge count reaches the end marker.
#[verifier::external_body]
pub(crate) fn graph_add_edge(g: &mut UnGraph<(), ()>, a: usize, b: usize) -> (r: usize)
    requires
        (a as nat) < graph_node_count(*old(g)),
        (b as nat) < graph_node_count(*old(g)),
        graph_node_count(*old(g)) < u32::MAX,
        graph_edges(*old(g)).len() + 1 < u32::MAX,
    ensures
        r as nat == graph_edges(*old(g)).len(),
        graph_node_count(*final(g)) == graph_node_count(*old(g)),
        graph_edges(*final(g)) == graph_edges(*old(g)).push((a, b)),
{
    g.add_edge(NodeIndex::new(a), NodeIndex::new(b), ()).index()
}

/// Relies on petgraph's `Graph::node_count`.
#[verifier::external_body]
pub(crate) fn graph_node_count_of(g: &UnGraph<(), ()>) -> (r: usize)
    ensures
        r as nat == graph_node_count(*g),
{
    g.node_count()
}

/// Relies on petgraph's `Graph::edge_count`.
#[verifier::external_body]
pub(crate) fn graph_edge_count_of(g: &UnGraph<(), ()>) -> (r: usize)
    ensures
        r as nat == graph_edges(*g).len(),
{
    g.edge_count()
}

/// Relies on petgraph's `Graph::edge_endpoints`: the source and target of an existing edge.
/// Edge indices are `u32`, so larger arguments are left out.
#[verifier::external_body]
pub(crate) fn graph_edge_endpoints(g: &UnGraph<(), ()>, e: usize) -> (r: Option<(usize, usize)>)
    requires
        (e as nat) < u32::MAX,
    ensures
        (e as nat) < graph_edges(*g).len() ==> r == Some(graph_edges(*g)[e as int]),
        (e as nat) >= graph_edges(*g).len() ==> r.is_none(),
{
    g.edge_endpoints(EdgeIndex::new(e)).map(|(a, b)| (a.index(), b.index()))
}

/// Relies on petgraph's `Graph::find_edge` on an undirected graph: some edge joining `a` and
/// `b` in either orientation, or `None` when there is none.
#[verifier::external_body]
pub(crate) fn graph_find_edge(g: &UnGraph<(), ()>, a: usize, b: usize) -> (r: Option<usize>)
    requires
        (a as nat) < graph_node_count(*g),
        (b as nat) < graph_node_count(*g),
        graph_node_count(*g) < u32::MAX,
    ensures
        r.is_none() <==> !joined(graph_edges(*g), a, b),
        r matches Some(e) ==> (e as nat) < graph_edges(*g).len() && (graph_edges(*g)[e as int]
            == (a, b) || graph_edges(*g)[e as int] == (b, a)),
{
    g.find_edge(NodeIndex::new(a), NodeIndex::new(b)).map(|e| e.index())
}

/// Node `v` is the root or the child end of one of the tree edges.
pub open spec fn dfs_reached(tree: Seq<(usize, usize)>, root: usize, v: usize) -> bool {
    v == root || exists|k: int| 0 <= k < tree.len() && (#[trigger] tree[k]).1 == v
}

/// Relies on petgraph's `depth_first_search` from `root`, keeping its `TreeEdge(u, v)` events
/// in the order reported. Each such event discovers `v`, a neighbour of the already discovered
/// `u`, and the search goes on until every node connected to the root is discovered. Its visit
/// map is sized to the node count, so a root outside the graph is left out.
#[verifier::external_body]
pub(crate) fn graph_dfs_tree_edges(g: &UnGraph<(), ()>, root: usize) -> (r: Vec<(usize, usize)>)
    requires
        graph_wf(*g),
        (root as nat) < graph_node_count(*g),
    ensures
        forall|k: int|
            0 <= k < r@.len() ==> joined(graph_edges(*g), (#[trigger] r@[k]).0, r@[k].1),
        forall|k: int| 0 <= k < r@.len() ==> (#[trigger] r@[k]).1 != root,
        forall|j: int, k: int| 0 <= j < k < r@.len() ==> r@[j].1 != r@[k].1,
        forall|k: int|
            0 <= k < r@.len() ==> (#[trigger] r@[k]).0 == root || exists|j: int|
                0 <= j < k && r@[j].1 == r@[k].0,
        forall|e: int|
            0 <= e < graph_edges(*g).len() ==> (dfs_reached(
                r@,
                root,
                (#[trigger] graph_edges(*g)[e]).0,
            ) <==> dfs_reached(r@, root, graph_edges(*g)[e].1)),
{
    let mut tree: Vec<(usize, usize)> = Vec::new();
    depth_first_search(g, Some(NodeIndex::new(root)), |event| {
        if let DfsEvent::TreeEdge(u, v) = event {
            tree.push((u.index(), v.index()));
        }
    });
    tree
}

} // verus!
