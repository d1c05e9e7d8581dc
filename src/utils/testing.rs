use crate::graph::{
    edges_within, graph_add_edge, graph_add_node, graph_edges, graph_new, graph_node_count,
};
use petgraph::graph::UnGraph;
use rand::distributions::{Distribution, Uniform};
use rand::rngs::StdRng;
use vstd::prelude::*;

verus! {

#[verifier::external_type_specification]
#[verifier::external_body]
pub struct ExStdRng(rand::rngs::StdRng);

/// Relies on rand's `Uniform::from(0..bound)` sampled through `Distribution::sample_iter`:
/// `len` independent draws, each in `0..bound`. `Uniform` panics on an empty range.
#[verifier::external_body]
fn uniform_draws(rng: &mut StdRng, len: usize, bound: usize) -> (r: Vec<usize>)
    requires
        bound > 0,
    ensures
        r@.len() == len,
        forall|i: int| 0 <= i < r@.len() ==> #[trigger] r@[i] < bound,
{
    Uniform::from(0..bound).sample_iter(rng).take(len).collect()
}

/// How often `v` occurs in `s`.
pub open spec fn occurrences(s: Seq<usize>, v: usize) -> nat
    decreases s.len(),
{
    if s.len() == 0 {
        0
    } else {
        occurrences(s.drop_last(), v) + if s.last() == v {
            1nat
        } else {
            0nat
        }
    }
}

/// The number of nodes below `k` whose degree is not zero.
pub open spec fn live_below(deg: Seq<usize>, k: nat) -> nat
    decreases k,
{
    if k == 0 {
        0
    } else {
        live_below(deg, (k - 1) as nat) + if deg[k - 1] != 0 {
            1nat
        } else {
            0nat
        }
    }
}

/// The occurrences in `s` of every node below `k`, added up.
pub open spec fn occurrences_below(s: Seq<usize>, k: nat) -> nat
    decreases k,
{
    if k == 0 {
        0
    } else {
        occurrences_below(s, (k - 1) as nat) + occurrences(s, (k - 1) as usize)
    }
}

proof fn lemma_occurrences_front(s: Seq<usize>, v: usize)
    requires
        s.len() > 0,
    ensures
        occurrences(s, v) == occurrences(s.subrange(1, s.len() as int), v) + if s[0] == v {
            1nat
        } else {
            0nat
        },
    decreases s.len(),
{
    if s.len() > 1 {
        lemma_occurrences_front(s.drop_last(), v);
        assert(s.drop_last().subrange(1, s.len() - 1) =~= s.subrange(1, s.len() as int).drop_last());
    } else {
        assert(s.drop_last() =~= Seq::<usize>::empty());
        assert(s.subrange(1, s.len() as int) =~= Seq::<usize>::empty());
    }
}

proof fn lemma_occurrences_push(s: Seq<usize>, x: usize, v: usize)
    ensures
        occurrences(s.push(x), v) == occurrences(s, v) + if x == v {
            1nat
        } else {
            0nat
        },
{
    assert(s.push(x).drop_last() =~= s);
}

proof fn lemma_occurrences_below_push(s: Seq<usize>, x: usize, k: nat)
    requires
        k <= usize::MAX + 1,
    ensures
        occurrences_below(s.push(x), k) == occurrences_below(s, k) + if (x as nat) < k {
            1nat
        } else {
            0nat
        },
    decreases k,
{
    if k > 0 {
        lemma_occurrences_below_push(s, x, (k - 1) as nat);
        lemma_occurrences_push(s, x, (k - 1) as usize);
    }
}

/// Counting every node below `k` counts every element of `s` once.
proof fn lemma_occurrences_below_total(s: Seq<usize>, k: nat)
    requires
        k <= usize::MAX + 1,
        forall|i: int| 0 <= i < s.len() ==> (#[trigger] s[i] as nat) < k,
    ensures
        occurrences_below(s, k) == s.len(),
    decreases s.len(),
{
    if s.len() == 0 {
        assert forall|j: nat| j <= k implies occurrences_below(s, j) == 0 by {
            lemma_occurrences_below_empty(s, j);
        }
    } else {
        let t = s.drop_last();
        assert forall|i: int| 0 <= i < t.len() implies (#[trigger] t[i] as nat) < k by {
            assert(t[i] == s[i]);
        }
        lemma_occurrences_below_total(t, k);
        assert(t.push(s.last()) =~= s);
        lemma_occurrences_below_push(t, s.last(), k);
    }
}

proof fn lemma_occurrences_below_empty(s: Seq<usize>, k: nat)
    requires
        s.len() == 0,
    ensures
        occurrences_below(s, k) == 0,
    decreases k,
{
    if k > 0 {
        lemma_occurrences_below_empty(s, (k - 1) as nat);
    }
}

/// Where every live node occurs at least once, there are at least as many occurrences as
/// live nodes.
proof fn lemma_live_below_occurrences(deg: Seq<usize>, s: Seq<usize>, k: nat)
    requires
        k <= deg.len(),
        forall|v: int| 0 <= v < k && #[trigger] deg[v] != 0 ==> occurrences(s, v as usize) >= 1,
    ensures
        live_below(deg, k) <= occurrences_below(s, k),
    decreases k,
{
    if k > 0 {
        lemma_live_below_occurrences(deg, s, (k - 1) as nat);
        let v = k - 1;
        assert(deg[v] != 0 ==> occurrences(s, v as usize) >= 1);
    }
}

/// Zeroing one live degree takes one node away from the live ones; changing a live degree to
/// another non-zero value keeps them.
proof fn lemma_live_below_update(deg: Seq<usize>, j: int, x: usize, k: nat)
    requires
        0 <= j < deg.len(),
        k <= deg.len(),
    ensures
        live_below(deg.update(j, x), k) + (if j < k && deg[j] != 0 {
            1nat
        } else {
            0nat
        }) == live_below(deg, k) + (if j < k && x != 0 {
            1nat
        } else {
            0nat
        }),
    decreases k,
{
    if k > 0 {
        lemma_live_below_update(deg, j, x, (k - 1) as nat);
    }
}

/// With every node but `u` dead, at most one is live.
proof fn lemma_live_below_one(deg: Seq<usize>, u: int, k: nat)
    requires
        k <= deg.len(),
        forall|v: int| 0 <= v < k && v != u ==> #[trigger] deg[v] == 0,
    ensures
        live_below(deg, k) <= 1,
        u >= k ==> live_below(deg, k) == 0,
    decreases k,
{
    if k > 0 {
        lemma_live_below_one(deg, u, (k - 1) as nat);
    }
}

/// Node `v` is the leaf end of one of the first `t` edges, so it was already removed.
pub open spec fn removed_before(edges: Seq<(usize, usize)>, t: int, v: usize) -> bool {
    exists|s: int| 0 <= s < t && (#[trigger] edges[s]).1 == v
}

/// `j` is the leaf removed at step `t` of decoding `a`: the lowest node that was not removed
/// before and does not occur in `a[t..]`.
pub open spec fn is_prufer_leaf(a: Seq<usize>, edges: Seq<(usize, usize)>, t: int, j: usize) -> bool {
    &&& !a.subrange(t, a.len() as int).contains(j)
    &&& !removed_before(edges, t, j)
    &&& forall|v: usize|
        v < j ==> a.subrange(t, a.len() as int).contains(v) || #[trigger] removed_before(
            edges,
            t,
            v,
        )
}

/// `edges` is the tree that the Prüfer sequence `a` encodes: edge `t` joins `a[t]` to the leaf
/// removed at step `t`, and the last edge joins the two nodes that were never removed.
pub open spec fn is_prufer_decoding(a: Seq<usize>, edges: Seq<(usize, usize)>) -> bool {
    &&& edges.len() == a.len() + 1
    &&& forall|t: int|
        0 <= t < a.len() ==> (#[trigger] edges[t]).0 == a[t] && is_prufer_leaf(
            a,
            edges,
            t,
            edges[t].1,
        )
    &&& edges[a.len() as int].0 < edges[a.len() as int].1
    &&& forall|w: usize|
        (w as nat) < a.len() + 2 ==> (!#[trigger] removed_before(edges, a.len() as int, w) <==> (
        w == edges[a.len() as int].0 || w == edges[a.len() as int].1))
}

proof fn lemma_occurrences_contains(s: Seq<usize>, v: usize)
    ensures
        occurrences(s, v) == 0 <==> !s.contains(v),
    decreases s.len(),
{
    if s.len() > 0 {
        let d = s.drop_last();
        lemma_occurrences_contains(d, v);
        if s.contains(v) && s.last() != v {
            let i = choose|i: int| 0 <= i < s.len() && s[i] == v;
            assert(d[i] == v);
        }
        if d.contains(v) {
            let i = choose|i: int| 0 <= i < d.len() && d[i] == v;
            assert(s[i] == v);
        }
        if s.last() == v {
            assert(s[s.len() - 1] == v);
        }
    }
}

/// Three distinct live nodes below `k` make at least three live nodes.
proof fn lemma_live_below_three(deg: Seq<usize>, u: int, v: int, w: int, k: nat)
    requires
        k <= deg.len(),
        0 <= u < k,
        0 <= v < k,
        0 <= w < k,
        u != v && v != w && u != w,
        deg[u] != 0 && deg[v] != 0 && deg[w] != 0,
    ensures
        live_below(deg, k) >= 3,
    decreases k,
{
    let m = k - 1;
    if u == m || v == m || w == m {
        let (p, q) = if u == m {
            (v, w)
        } else if v == m {
            (u, w)
        } else {
            (u, v)
        };
        lemma_live_below_two(deg, p, q, m as nat);
    } else {
        lemma_live_below_three(deg, u, v, w, m as nat);
    }
}

proof fn lemma_live_below_two(deg: Seq<usize>, p: int, q: int, k: nat)
    requires
        k <= deg.len(),
        0 <= p < k,
        0 <= q < k,
        p != q,
        deg[p] != 0 && deg[q] != 0,
    ensures
        live_below(deg, k) >= 2,
    decreases k,
{
    let m = k - 1;
    if p == m || q == m {
        let o = if p == m {
            q
        } else {
            p
        };
        lemma_live_below_one_at(deg, o, m as nat);
    } else {
        lemma_live_below_two(deg, p, q, m as nat);
    }
}

proof fn lemma_live_below_one_at(deg: Seq<usize>, p: int, k: nat)
    requires
        k <= deg.len(),
        0 <= p < k,
        deg[p] != 0,
    ensures
        live_below(deg, k) >= 1,
    decreases k,
{
    if p < k - 1 {
        lemma_live_below_one_at(deg, p, (k - 1) as nat);
    }
}

/// Draws a Prüfer sequence for a tree on `n` nodes: `n - 2` node indices below `n`.
pub fn generate_random_prufer_sequence(rng: &mut StdRng, n: usize) -> (r: Vec<usize>)
    requires
        n >= 2,
    ensures
        r@.len() == n - 2,
        forall|i: int| 0 <= i < r@.len() ==> #[trigger] r@[i] < n,
{
    uniform_draws(rng, n - 2, n)
}

/// Decodes a Prüfer sequence of length `n` into a tree on `n + 2` nodes: for each entry `i`
/// in turn, the lowest-numbered leaf is joined to `i` and removed, and the last two leaves are
/// joined at the end. The result has `n + 2` nodes and `n + 1` edges, none of them a loop.
pub fn prufer_to_tree(a: &[usize]) -> (r: UnGraph<(), ()>)
    requires
        a@.len() + 3 < u32::MAX,
        forall|i: int| 0 <= i < a@.len() ==> (#[trigger] a@[i] as nat) < a@.len() + 2,
    ensures
        graph_node_count(r) == a@.len() + 2,
        graph_edges(r).len() == a@.len() + 1,
        edges_within(graph_edges(r), graph_node_count(r)),
        forall|e: int| 0 <= e < graph_edges(r).len() ==> (#[trigger] graph_edges(r)[e]).0
            != graph_edges(r)[e].1,
        is_prufer_decoding(a@, graph_edges(r)),
{
    let n = a.len();
    let num_nodes = n + 2;
    let mut tree = graph_new();
    let mut c: usize = 0;
    while c < num_nodes
        invariant
            0 <= c <= num_nodes,
            num_nodes == n + 2,
            n + 3 < u32::MAX,
            graph_node_count(tree) == c,
            graph_edges(tree) == Seq::<(usize, usize)>::empty(),
        decreases num_nodes - c,
    {
        graph_add_node(&mut tree);
        c = c + 1;
    }
    let mut degree: Vec<usize> = Vec::new();
    let mut c: usize = 0;
    while c < num_nodes
        invariant
            0 <= c <= num_nodes,
            degree@ == Seq::new(c as nat, |v: int| 1usize),
        decreases num_nodes - c,
    {
        degree.push(1);
        c = c + 1;
        assert(degree@ =~= Seq::new(c as nat, |v: int| 1usize));
    }
    let mut t: usize = 0;
    while t < n
        invariant
            n == a@.len(),
            num_nodes == n + 2,
            n + 3 < u32::MAX,
            forall|i: int| 0 <= i < a@.len() ==> (#[trigger] a@[i] as nat) < a@.len() + 2,
            0 <= t <= n,
            degree@.len() == num_nodes,
            forall|v: int|
                0 <= v < num_nodes ==> #[trigger] degree@[v] == 1 + occurrences(
                    a@.subrange(0, t as int),
                    v as usize,
                ),
        decreases n - t,
    {
        let i = a[t];
        proof {
            assert(a@.subrange(0, t as int).push(i) =~= a@.subrange(0, t + 1));
            assert(occurrences(a@.subrange(0, t as int), i) <= t) by {
                lemma_occurrences_bounded(a@.subrange(0, t as int), i);
            }
        }
        degree.set(i, degree[i] + 1);
        proof {
            assert forall|v: int| 0 <= v < num_nodes implies #[trigger] degree@[v] == 1 + occurrences(
                a@.subrange(0, t + 1),
                v as usize,
            ) by {
                lemma_occurrences_push(a@.subrange(0, t as int), i, v as usize);
            }
        }
        t = t + 1;
    }
    proof {
        assert(a@.subrange(0, n as int) =~= a@);
        assert(a@.subrange(0, 0) =~= Seq::<usize>::empty());
        assert forall|v: int| 0 <= v < num_nodes implies #[trigger] degree@[v] == 1 + occurrences(a@.subrange(0, n as int), v as usize) by {}
        lemma_live_below_all(degree@, num_nodes as nat);
        assert forall|v: int| 0 <= v < num_nodes implies (#[trigger] degree@[v] == 0 <==> removed_before(
            graph_edges(tree),
            0,
            v as usize,
        )) by {
            assert(degree@[v] >= 1);
        }
    }
    let mut t: usize = 0;
    while t < n
        invariant
            n == a@.len(),
            num_nodes == n + 2,
            n + 3 < u32::MAX,
            forall|i: int| 0 <= i < a@.len() ==> (#[trigger] a@[i] as nat) < a@.len() + 2,
            0 <= t <= n,
            degree@.len() == num_nodes,
            forall|v: int|
                0 <= v < num_nodes ==> {
                    let rest = a@.subrange(t as int, n as int);
                    &&& (#[trigger] degree@[v] == 0 ==> occurrences(rest, v as usize) == 0)
                    &&& (degree@[v] != 0 ==> degree@[v] == 1 + occurrences(rest, v as usize))
                },
            live_below(degree@, num_nodes as nat) == n - t + 2,
            graph_node_count(tree) == num_nodes,
            graph_edges(tree).len() == t,
            edges_within(graph_edges(tree), graph_node_count(tree)),
            forall|e: int| 0 <= e < graph_edges(tree).len() ==> (#[trigger] graph_edges(tree)[e]).0
                != graph_edges(tree)[e].1,
            forall|v: int|
                0 <= v < num_nodes ==> (#[trigger] degree@[v] == 0 <==> removed_before(
                    graph_edges(tree),
                    t as int,
                    v as usize,
                )),
            forall|s: int|
                0 <= s < t ==> (#[trigger] graph_edges(tree)[s]).0 == a@[s] && is_prufer_leaf(
                    a@,
                    graph_edges(tree),
                    s,
                    graph_edges(tree)[s].1,
                ),
        decreases n - t,
    {
        let i = a[t];
        let ghost rest = a@.subrange(t as int, n as int);
        let ghost rest2 = a@.subrange(t + 1, n as int);
        proof {
            lemma_occurrences_front(rest, i);
            assert(rest[0] == i);
            assert(rest.subrange(1, rest.len() as int) =~= rest2);
            assert(degree@[i as int] >= 2);
            // some live node does not occur in the rest of the sequence
            assert forall|i2: int| 0 <= i2 < rest.len() implies (#[trigger] rest[i2] as nat) < num_nodes by {
                assert(rest[i2] == a@[t + i2]);
            }
            lemma_occurrences_below_total(rest, num_nodes as nat);
            if forall|v: int| 0 <= v < num_nodes ==> #[trigger] degree@[v] != 1 {
                assert forall|v: int| 0 <= v < num_nodes && #[trigger] degree@[v] != 0 implies occurrences(rest, v as usize) >= 1 by {
                    assert(degree@[v] != 1);
                }
                lemma_live_below_occurrences(degree@, rest, num_nodes as nat);
                assert(false);
            }
        }
        let mut j: usize = 0;
        while j < num_nodes && degree[j] != 1
            invariant
                degree@.len() == num_nodes,
                0 <= j <= num_nodes,
                forall|v: int| 0 <= v < j ==> #[trigger] degree@[v] != 1,
            decreases num_nodes - j,
        {
            j = j + 1;
        }
        if j >= num_nodes {
            proof {
                let w = choose|v: int| 0 <= v < num_nodes && #[trigger] degree@[v] == 1;
                assert(degree@[w] != 1);
            }
        } else {
            let ghost e0 = graph_edges(tree);
            graph_add_edge(&mut tree, i, j);
            let ghost e1 = graph_edges(tree);
            proof {
                assert(e1 == e0.push((i, j)));
                assert forall|s: int, v: usize| 0 <= s <= t implies removed_before(e1, s, v)
                    == removed_before(e0, s, v) by {
                    if removed_before(e1, s, v) {
                        let w = choose|w: int| 0 <= w < s && (#[trigger] e1[w]).1 == v;
                        assert(e0[w] == e1[w]);
                    }
                    if removed_before(e0, s, v) {
                        let w = choose|w: int| 0 <= w < s && (#[trigger] e0[w]).1 == v;
                        assert(e0[w] == e1[w]);
                    }
                }
                assert forall|v: usize| removed_before(e1, t + 1, v) == (removed_before(e0, t as int, v)
                    || v == j) by {
                    if removed_before(e1, t + 1, v) {
                        let w = choose|w: int| 0 <= w < t + 1 && (#[trigger] e1[w]).1 == v;
                        if w < t {
                            assert(e0[w] == e1[w]);
                        }
                    }
                    if removed_before(e0, t as int, v) {
                        let w = choose|w: int| 0 <= w < t && (#[trigger] e0[w]).1 == v;
                        assert(e0[w] == e1[w]);
                    }
                    if v == j {
                        assert(e1[t as int].1 == j);
                    }
                }
                // the new edge's leaf is the lowest node neither removed nor still to come
                lemma_occurrences_contains(rest, j);
                assert(rest =~= a@.subrange(t as int, a@.len() as int));
                assert forall|v: usize| v < j implies a@.subrange(t as int, a@.len() as int).contains(v)
                    || #[trigger] removed_before(e1, t as int, v) by {
                    assert(degree@[v as int] != 1);
                    lemma_occurrences_contains(rest, v);
                }
                assert(is_prufer_leaf(a@, e1, t as int, j));
                assert forall|s: int| 0 <= s < t + 1 implies (#[trigger] e1[s]).0 == a@[s] && is_prufer_leaf(
                    a@,
                    e1,
                    s,
                    e1[s].1,
                ) by {
                    if s < t {
                        assert(e0[s] == e1[s]);
                        assert(is_prufer_leaf(a@, e0, s, e0[s].1));
                        assert forall|v: usize| v < e1[s].1 implies a@.subrange(s, a@.len() as int).contains(v)
                            || #[trigger] removed_before(e1, s, v) by {
                            assert(removed_before(e1, s, v) == removed_before(e0, s, v));
                        }
                        assert(removed_before(e1, s, e1[s].1) == removed_before(e0, s, e0[s].1));
                    }
                }
            }
            let ghost d0 = degree@;
            degree.set(i, degree[i] - 1);
            let ghost d1 = degree@;
            degree.set(j, 0);
            proof {
                lemma_live_below_update(d0, i as int, (d0[i as int] - 1) as usize, num_nodes as nat);
                lemma_live_below_update(d1, j as int, 0, num_nodes as nat);
                assert forall|v: int| 0 <= v < num_nodes implies {
                    &&& (#[trigger] degree@[v] == 0 ==> occurrences(rest2, v as usize) == 0)
                    &&& (degree@[v] != 0 ==> degree@[v] == 1 + occurrences(rest2, v as usize))
                } by {
                    lemma_occurrences_front(rest, v as usize);
                }
            }
        }
        t = t + 1;
    }
    proof {
        assert(a@.subrange(n as int, n as int) =~= Seq::<usize>::empty());
    }
    let mut u: usize = 0;
    while u < num_nodes && degree[u] != 1
        invariant
            degree@.len() == num_nodes,
            0 <= u <= num_nodes,
            forall|v: int| 0 <= v < u ==> #[trigger] degree@[v] != 1,
        decreases num_nodes - u,
    {
        u = u + 1;
    }
    let mut v: usize = if u < num_nodes { u + 1 } else { num_nodes };
    while v < num_nodes && degree[v] != 1
        invariant
            degree@.len() == num_nodes,
            u < num_nodes ==> u < v,
            0 <= v <= num_nodes,
            forall|w: int| u < w < v ==> #[trigger] degree@[w] != 1,
        decreases num_nodes - v,
    {
        v = v + 1;
    }
    proof {
        // with the sequence used up every live node is a leaf, and exactly two are live
        if u >= num_nodes || v >= num_nodes {
            assert forall|w: int| 0 <= w < num_nodes && w != u implies #[trigger] degree@[w] == 0 by {
                assert(degree@[w] != 0 ==> degree@[w] == 1 + occurrences(Seq::<usize>::empty(), w as usize));
            }
            lemma_live_below_one(degree@, u as int, num_nodes as nat);
        }
    }
    let ghost e0 = graph_edges(tree);
    let ghost rest = a@.subrange(n as int, n as int);
    proof {
        assert(rest =~= Seq::<usize>::empty());
        // every node but u and v was removed
        assert forall|w: usize| (w as nat) < num_nodes implies (!#[trigger] removed_before(
            e0,
            n as int,
            w,
        ) <==> (w == u || w == v)) by {
            let wi = w as int;
            assert(degree@[wi] != 0 ==> degree@[wi] == 1 + occurrences(rest, w));
            if w != u && w != v && degree@[wi] != 0 {
                if wi < u || (u < wi && wi < v) {
                    assert(degree@[wi] != 1);
                } else {
                    lemma_live_below_three(degree@, u as int, v as int, wi, num_nodes as nat);
                }
            }
        }
    }
    graph_add_edge(&mut tree, u, v);
    proof {
        let e1 = graph_edges(tree);
        assert(e1 == e0.push((u, v)));
        assert forall|s: int, w: usize| 0 <= s <= n implies removed_before(e1, s, w)
            == removed_before(e0, s, w) by {
            if removed_before(e1, s, w) {
                let x = choose|x: int| 0 <= x < s && (#[trigger] e1[x]).1 == w;
                assert(e0[x] == e1[x]);
            }
            if removed_before(e0, s, w) {
                let x = choose|x: int| 0 <= x < s && (#[trigger] e0[x]).1 == w;
                assert(e0[x] == e1[x]);
            }
        }
        assert(e1[n as int] == (u, v));
        assert forall|w: usize| (w as nat) < num_nodes implies (!#[trigger] removed_before(
            e1,
            n as int,
            w,
        ) <==> (w == e1[n as int].0 || w == e1[n as int].1)) by {
            assert(removed_before(e1, n as int, w) == removed_before(e0, n as int, w));
        }
        assert forall|t: int| 0 <= t < n implies (#[trigger] e1[t]).0 == a@[t] && is_prufer_leaf(
            a@,
            e1,
            t,
            e1[t].1,
        ) by {
            assert(e0[t] == e1[t]);
            assert(is_prufer_leaf(a@, e0, t, e0[t].1));
            assert forall|x: usize| x < e1[t].1 implies a@.subrange(t, a@.len() as int).contains(x)
                || #[trigger] removed_before(e1, t, x) by {
                assert(removed_before(e1, t, x) == removed_before(e0, t, x));
            }
            assert(removed_before(e1, t, e1[t].1) == removed_before(e0, t, e0[t].1));
        }
    }
    tree
}

proof fn lemma_occurrences_bounded(s: Seq<usize>, v: usize)
    ensures
        occurrences(s, v) <= s.len(),
    decreases s.len(),
{
    if s.len() > 0 {
        lemma_occurrences_bounded(s.drop_last(), v);
    }
}

proof fn lemma_live_below_all(deg: Seq<usize>, k: nat)
    requires
        k <= deg.len(),
        forall|v: int| 0 <= v < k ==> #[trigger] deg[v] != 0,
    ensures
        live_below(deg, k) == k,
    decreases k,
{
    if k > 0 {
        lemma_live_below_all(deg, (k - 1) as nat);
    }
}

/// A random tree on `num_nodes` nodes, decoded from a random Prüfer sequence.
pub fn random_tree(num_nodes: usize, rng: &mut StdRng) -> (r: UnGraph<(), ()>)
    requires
        2 <= num_nodes,
        num_nodes + 1 < u32::MAX,
    ensures
        graph_node_count(r) == num_nodes,
        graph_edges(r).len() == num_nodes - 1,
        edges_within(graph_edges(r), graph_node_count(r)),
        exists|a: Seq<usize>|
            a.len() == num_nodes - 2 && (forall|i: int| 0 <= i < a.len() ==> #[trigger] a[i]
                < num_nodes) && #[trigger] is_prufer_decoding(a, graph_edges(r)),
{
    let prufer_sequence = generate_random_prufer_sequence(rng, num_nodes);
    let r = prufer_to_tree(prufer_sequence.as_slice());
    proof {
        assert(is_prufer_decoding(prufer_sequence@, graph_edges(r)));
    }
    r
}

} // verus!
