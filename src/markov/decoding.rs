use crate::error::InferenceError;
use crate::alphabets::Alphabet;
use crate::graph::{dfs_reached, edges_within, graph_dfs_tree_edges, joined};
use crate::markov::message_bank::{
    directed_pairs, has_pair, lemma_both_orientations_have_slots, lemma_slot_of, slot_of,
    MessageBank,
};
use crate::markov::MarkovRandomField;
use vstd::prelude::*;

verus! {

/// A traversal of the nodes reachable from `root`: the order in which they were reached, and
/// for each reached node but the root the neighbour it was reached from.
pub struct SpanningTree {
    pub root: usize,
    pub order: Vec<usize>,
    pub parent: Vec<Option<usize>>,
    pub visited: Vec<bool>,
}

/// The `i`-th reached node hangs from a neighbour that was reached before it, and the pair
/// (node, parent) owns a message slot.
pub open spec fn linked_in_order(
    pairs: Seq<(usize, usize)>,
    order: Seq<usize>,
    parent: Seq<Option<usize>>,
    i: int,
) -> bool {
    &&& parent[order[i] as int] is Some
    &&& has_pair(pairs, order[i], parent[order[i] as int]->0)
    &&& exists|j: int| 0 <= j < i && order[j] == parent[order[i] as int]->0
}

impl SpanningTree {
    /// The traversal is well formed for a graph of `n` nodes with the given directed pairs, and
    /// it reached every node that is connected to the root.
    pub open spec fn spans(&self, pairs: Seq<(usize, usize)>, n: nat) -> bool {
        let order = self.order@;
        let parent = self.parent@;
        let visited = self.visited@;
        &&& (self.root as nat) < n
        &&& visited.len() == n
        &&& parent.len() == n
        &&& order.len() >= 1
        &&& order[0] == self.root
        &&& order.no_duplicates()
        &&& forall|i: int|
            0 <= i < order.len() ==> (#[trigger] order[i] as nat) < n && visited[order[i] as int]
        &&& forall|v: int| 0 <= v < n && #[trigger] visited[v] ==> order.contains(v as usize)
        &&& parent[self.root as int] is None
        &&& forall|v: int| 0 <= v < n && !(#[trigger] visited[v]) ==> parent[v] is None
        &&& forall|i: int| 1 <= i < order.len() ==> #[trigger] linked_in_order(pairs, order, parent, i)
        &&& forall|s: int|
            0 <= s < pairs.len() && #[trigger] visited[pairs[s].1 as int] ==> visited[pairs[s].0 as int]
    }
}

proof fn lemma_joined_within(edges: Seq<(usize, usize)>, n: nat, a: usize, b: usize)
    requires
        edges_within(edges, n),
        joined(edges, a, b),
    ensures
        (a as nat) < n,
        (b as nat) < n,
{
    let e = choose|e: int| 0 <= e < edges.len() && (#[trigger] edges[e] == (a, b) || edges[e] == (b, a));
    assert(edges[e].0 < n && edges[e].1 < n);
}

/// A depth-first traversal from `root` of the nodes connected to it, as petgraph's search
/// reports it: the root first, then each node as it is discovered, hanging from the neighbour
/// that discovered it.
pub fn spanning_tree<X: Alphabet, NP, EP>(mrf: &MarkovRandomField<X, NP, EP>, root: usize) -> (r:
    Result<SpanningTree, InferenceError>)
    requires
        mrf.wf(),
    ensures
        (root as nat) >= mrf.nodes() <==> r.is_err(),
        r matches Err(e) ==> e == InferenceError::InvalidNodeIndex,
        r matches Ok(t) ==> t.root == root && t.spans(directed_pairs(mrf.edges()), mrf.nodes()),
{
    let n = mrf.node_count();
    if root >= n {
        return Err(InferenceError::InvalidNodeIndex);
    }
    proof {
        mrf.lemma_wf();
    }
    let tree = graph_dfs_tree_edges(mrf.graph(), root);
    let ghost edges = mrf.edges();
    let ghost tr = tree@;
    let mut visited: Vec<bool> = Vec::new();
    let mut parent: Vec<Option<usize>> = Vec::new();
    let mut i: usize = 0;
    while i < n
        invariant
            0 <= i <= n,
            visited@ == Seq::new(i as nat, |v: int| false),
            parent@ == Seq::new(i as nat, |v: int| None::<usize>),
        decreases n - i,
    {
        visited.push(false);
        parent.push(None);
        i = i + 1;
        assert(visited@ =~= Seq::new(i as nat, |v: int| false));
        assert(parent@ =~= Seq::new(i as nat, |v: int| None::<usize>));
    }
    visited.set(root, true);
    let mut order: Vec<usize> = Vec::new();
    order.push(root);
    let mut k: usize = 0;
    while k < tree.len()
        invariant
            tr == tree@,
            edges == mrf.edges(),
            n as nat == mrf.nodes(),
            edges_within(edges, n as nat),
            root < n,
            forall|q: int| 0 <= q < tr.len() ==> joined(edges, (#[trigger] tr[q]).0, tr[q].1),
            forall|q: int| 0 <= q < tr.len() ==> (#[trigger] tr[q]).1 != root,
            forall|j: int, q: int| 0 <= j < q < tr.len() ==> tr[j].1 != tr[q].1,
            0 <= k <= tr.len(),
            visited@.len() == n,
            parent@.len() == n,
            order@.len() == k + 1,
            order@[0] == root,
            forall|q: int| 1 <= q <= k ==> #[trigger] order@[q] == tr[q - 1].1,
            forall|v: int|
                0 <= v < n ==> (#[trigger] visited@[v] <==> (v == root || exists|j: int|
                    0 <= j < k && tr[j].1 == v as usize)),
            forall|j: int| 0 <= j < k ==> parent@[(#[trigger] tr[j]).1 as int] == Some(tr[j].0),
            forall|v: int|
                0 <= v < n && !(exists|j: int| 0 <= j < k && tr[j].1 == v as usize) ==> (
                #[trigger] parent@[v]) is None,
        decreases tr.len() - k,
    {
        let (p, c) = tree[k];
        proof {
            assert(tr[k as int] == (p, c));
            lemma_joined_within(edges, n as nat, p, c);
        }
        let ghost v0 = visited@;
        let ghost p0 = parent@;
        visited.set(c, true);
        parent.set(c, Some(p));
        order.push(c);
        proof {
            assert forall|v: int| 0 <= v < n implies (#[trigger] visited@[v] <==> (v == root
                || exists|j: int| 0 <= j < k + 1 && tr[j].1 == v as usize)) by {
                if v == c {
                    assert(tr[k as int].1 == v as usize);
                } else {
                    assert(visited@[v] == v0[v]);
                    if exists|j: int| 0 <= j < k + 1 && tr[j].1 == v as usize {
                        let j = choose|j: int| 0 <= j < k + 1 && tr[j].1 == v as usize;
                        assert(j != k);
                    }
                }
            }
            assert forall|j: int| 0 <= j < k + 1 implies parent@[(#[trigger] tr[j]).1 as int]
                == Some(tr[j].0) by {
                if j < k {
                    assert(tr[j].1 != tr[k as int].1);
                }
            }
            assert forall|v: int|
                0 <= v < n && !(exists|j: int| 0 <= j < k + 1 && tr[j].1 == v as usize) implies (
                #[trigger] parent@[v]) is None by {
                assert(tr[k as int].1 != v as usize);
                assert(!(exists|j: int| 0 <= j < k && tr[j].1 == v as usize)) by {
                    if exists|j: int| 0 <= j < k && tr[j].1 == v as usize {
                        let j = choose|j: int| 0 <= j < k && tr[j].1 == v as usize;
                        assert(tr[j].1 == v as usize);
                    }
                }
            }
            assert forall|q: int| 1 <= q <= k + 1 implies #[trigger] order@[q] == tr[q - 1].1 by {}
        }
        k = k + 1;
    }
    let result = SpanningTree { root, order, parent, visited };
    proof {
        let pairs = directed_pairs(edges);
        let ord = result.order@;
        assert forall|q: int| 0 <= q < ord.len() implies (#[trigger] ord[q] as nat) < n
            && result.visited@[ord[q] as int] by {
            if q > 0 {
                assert(ord[q] == tr[q - 1].1);
                lemma_joined_within(edges, n as nat, tr[q - 1].0, tr[q - 1].1);
                assert(result.visited@[ord[q] as int]);
            }
        }
        assert(ord.no_duplicates()) by {
            assert forall|x: int, y: int| 0 <= x < ord.len() && 0 <= y < ord.len() && x != y
                implies ord[x] != ord[y] by {
                if x > 0 && y > 0 {
                    assert(ord[x] == tr[x - 1].1 && ord[y] == tr[y - 1].1);
                    if x < y {
                        assert(tr[x - 1].1 != tr[y - 1].1);
                    } else {
                        assert(tr[y - 1].1 != tr[x - 1].1);
                    }
                } else if x > 0 {
                    assert(ord[x] == tr[x - 1].1);
                } else {
                    assert(ord[y] == tr[y - 1].1);
                }
            }
        }
        assert forall|v: int| 0 <= v < n && #[trigger] result.visited@[v] implies ord.contains(
            v as usize,
        ) by {
            if v != root {
                let j = choose|j: int| 0 <= j < tr.len() && tr[j].1 == v as usize;
                assert(ord[j + 1] == v as usize);
            } else {
                assert(ord[0] == root);
            }
        }
        assert(result.parent@[root as int] is None) by {
            if exists|j: int| 0 <= j < tr.len() && tr[j].1 == root {
                let j = choose|j: int| 0 <= j < tr.len() && tr[j].1 == root;
                assert(tr[j].1 != root);
            }
        }
        assert forall|v: int| 0 <= v < n && !(#[trigger] result.visited@[v]) implies result.parent@[
            v
        ] is None by {}
        assert forall|q: int| 1 <= q < ord.len() implies #[trigger] linked_in_order(
            pairs,
            ord,
            result.parent@,
            q,
        ) by {
            let (p, c) = tr[q - 1];
            assert(ord[q] == c);
            assert(result.parent@[c as int] == Some(p));
            assert(joined(edges, p, c));
            let e = choose|e: int| 0 <= e < edges.len() && (#[trigger] edges[e] == (p, c) || edges[e]
                == (c, p));
            lemma_both_orientations_have_slots(edges, e);
            if p == root {
                assert(ord[0] == p);
            } else {
                let j = choose|j: int| 0 <= j < q - 1 && tr[j].1 == tr[q - 1].0;
                assert(ord[j + 1] == p);
            }
        }
        assert forall|s: int|
            0 <= s < pairs.len() && #[trigger] result.visited@[pairs[s].1 as int] implies result.visited@[
            pairs[s].0 as int] by {
            let e = s / 2;
            lemma_both_orientations_have_slots(edges, e);
            assert(s == 2 * e || s == 2 * e + 1);
            assert(edges[e].0 < n && edges[e].1 < n);
            assert(dfs_reached(tr, root, edges[e].0) <==> dfs_reached(tr, root, edges[e].1));
        }
    }
    Ok(result)
}

/// Node `v` takes its parent's best response: the backpointer of the pair (`v`, parent) at the
/// parent's state.
pub open spec fn traced(
    tree: SpanningTree,
    backpointers: MessageBank<usize>,
    assignment: Seq<Option<usize>>,
    v: int,
) -> bool {
    let p = tree.parent@[v]->0;
    &&& assignment[p as int] is Some
    &&& assignment[v] == Some(
        backpointers.entry(
            slot_of(backpointers.pairs(), v as usize, p),
            assignment[p as int]->0 as int,
        ),
    )
}

/// Decodes a joint assignment from backpointers: the root takes `root_state`, and every other
/// reached node takes the state that its backpointer toward its parent records for the parent's
/// state. Nodes that were not reached get `None`.
pub fn trace_back(tree: &SpanningTree, backpointers: &MessageBank<usize>, root_state: usize) -> (r:
    Vec<Option<usize>>)
    requires
        backpointers.wf(),
        tree.spans(backpointers.pairs(), backpointers.nodes()),
        (root_state as nat) < backpointers.states(),
        forall|i: int|
            0 <= i < backpointers.values().len() ==> (#[trigger] backpointers.values()[i] as nat)
                < backpointers.states(),
    ensures
        r@.len() == backpointers.nodes(),
        r@[tree.root as int] == Some(root_state),
        forall|v: int| 0 <= v < r@.len() ==> (#[trigger] r@[v] is Some <==> tree.visited@[v]),
        forall|v: int|
            0 <= v < r@.len() && r@[v] is Some ==> (#[trigger] r@[v]->0 as nat)
                < backpointers.states(),
        forall|v: int|
            0 <= v < r@.len() && #[trigger] tree.parent@[v] is Some ==> traced(
                *tree,
                *backpointers,
                r@,
                v,
            ),
{
    let n = backpointers.num_nodes();
    let k = backpointers.num_states();
    let ghost pairs = backpointers.pairs();
    let ghost order = tree.order@;
    let ghost parent = tree.parent@;
    let mut assignment: Vec<Option<usize>> = Vec::new();
    let mut v: usize = 0;
    while v < n
        invariant
            0 <= v <= n,
            assignment@ == Seq::new(v as nat, |u: int| None::<usize>),
        decreases n - v,
    {
        assignment.push(None);
        v = v + 1;
        assert(assignment@ =~= Seq::new(v as nat, |u: int| None::<usize>));
    }
    assignment.set(tree.root, Some(root_state));
    let mut i: usize = 1;
    while i < tree.order.len()
        invariant
            backpointers.wf(),
            tree.spans(pairs, n as nat),
            pairs == backpointers.pairs(),
            order == tree.order@,
            parent == tree.parent@,
            n as nat == backpointers.nodes(),
            k as nat == backpointers.states(),
            (root_state as nat) < k,
            forall|i: int|
                0 <= i < backpointers.values().len() ==> (#[trigger] backpointers.values()[i] as nat)
                    < backpointers.states(),
            1 <= i <= order.len(),
            assignment@.len() == n,
            assignment@[tree.root as int] == Some(root_state),
            forall|j: int| 0 <= j < i ==> #[trigger] assignment@[order[j] as int] is Some,
            forall|u: int| 0 <= u < n && #[trigger] assignment@[u] is Some ==> exists|j: int|
                0 <= j < i && order[j] == u,
            forall|u: int|
                0 <= u < n && assignment@[u] is Some ==> (#[trigger] assignment@[u]->0 as nat) < k,
            forall|j: int| 1 <= j < i ==> traced(*tree, *backpointers, assignment@, #[trigger] order[j] as int),
        decreases order.len() - i,
    {
        let u = tree.order[i];
        proof {
            assert(linked_in_order(pairs, order, parent, i as int));
        }
        let p = match tree.parent[u] {
            Some(p) => p,
            None => { proof { assert(false); } 0 },
        };
        let ghost jp = choose|j: int| 0 <= j < i && order[j] == p;
        proof {
            assert(assignment@[order[jp] as int] is Some);
        }
        let ps = match assignment[p] {
            Some(ps) => ps,
            None => { proof { assert(false); } 0 },
        };
        let val = match backpointers.eval_state(u, p, ps) {
            Ok(val) => val,
            Err(_) => { proof { assert(false); } 0 },
        };
        let ghost before = assignment@;
        proof {
            assert forall|w: int| 0 <= w < n && #[trigger] before[w] is Some implies w != u by {
                let j = choose|j: int| 0 <= j < i && order[j] == w;
                assert(order[j] != order[i as int]);
            }
        }
        assignment.set(u, Some(val));
        proof {
            let s = slot_of(pairs, u, p);
            lemma_slot_of(pairs, u, p);
            backpointers.lemma_entry_in_bounds(s, ps as int);
            assert forall|j: int| 0 <= j < i + 1 implies #[trigger] assignment@[order[j] as int] is Some by {
                if j < i {
                    assert(before[order[j] as int] is Some);
                }
            }
            assert forall|w: int| 0 <= w < n && #[trigger] assignment@[w] is Some implies exists|j: int|
                0 <= j < i + 1 && order[j] == w by {
                if w != u {
                    assert(before[w] is Some);
                    let j = choose|j: int| 0 <= j < i && order[j] == w;
                    assert(order[j] == w);
                } else {
                    assert(order[i as int] == w);
                }
            }
            assert forall|w: int| 0 <= w < n && assignment@[w] is Some implies (#[trigger] assignment@[w]->0 as nat) < k by {
                if w != u {
                    assert(before[w] is Some);
                }
            }
            assert forall|j: int| 1 <= j < i + 1 implies traced(*tree, *backpointers, assignment@, #[trigger] order[j] as int) by {
                if j < i {
                    let w = order[j] as int;
                    assert(traced(*tree, *backpointers, before, w));
                    assert(w != u);
                    assert(linked_in_order(pairs, order, parent, j));
                    let q = parent[w]->0;
                    let jq = choose|jj: int| 0 <= jj < j && order[jj] == q;
                    assert(before[order[jq] as int] is Some);
                    assert(q != u);
                }
            }
        }
        i = i + 1;
    }
    proof {
        assert forall|w: int| 0 <= w < assignment@.len() implies (#[trigger] assignment@[w] is Some <==> tree.visited@[w]) by {
            if tree.visited@[w] {
                let j = choose|j: int| 0 <= j < order.len() && order[j] == w as usize;
                assert(assignment@[order[j] as int] is Some);
            }
            if assignment@[w] is Some {
                let j = choose|j: int| 0 <= j < order.len() && order[j] == w;
                assert((order[j] as nat) < n && tree.visited@[order[j] as int]);
            }
        }
        assert forall|w: int| 0 <= w < assignment@.len() && #[trigger] tree.parent@[w] is Some implies traced(*tree, *backpointers, assignment@, w) by {
            assert(tree.visited@[w]);
            let j = choose|j: int| 0 <= j < order.len() && order[j] == w as usize;
            if j == 0 {
                assert(w == tree.root);
            }
            assert(traced(*tree, *backpointers, assignment@, order[j] as int));
        }
    }
    assignment
}

} // verus!
