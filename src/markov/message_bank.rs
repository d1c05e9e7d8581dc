use crate::error::InferenceError;
use crate::graph::{edges_within, graph_edge_count_of, graph_edge_endpoints, graph_edges,
    graph_node_count, graph_node_count_of, graph_wf};
use petgraph::graph::UnGraph;
use vstd::prelude::*;

verus! {

/// Both orientations of every edge, in edge order: slot `2e` is edge `e` as stored, slot
/// `2e + 1` is the same edge reversed.
pub open spec fn directed_pairs(edges: Seq<(usize, usize)>) -> Seq<(usize, usize)> {
    Seq::new(
        2 * edges.len(),
        |s: int|
            if s % 2 == 0 {
                edges[s / 2]
            } else {
                (edges[s / 2].1, edges[s / 2].0)
            },
    )
}

pub open spec fn has_pair(pairs: Seq<(usize, usize)>, from: usize, to: usize) -> bool {
    exists|s: int| 0 <= s < pairs.len() && #[trigger] pairs[s] == (from, to)
}

/// `s` is the lowest slot that holds the ordered pair `(from, to)`.
pub open spec fn first_slot(pairs: Seq<(usize, usize)>, from: usize, to: usize, s: int) -> bool {
    &&& 0 <= s < pairs.len()
    &&& pairs[s] == (from, to)
    &&& forall|t: int| 0 <= t < s ==> #[trigger] pairs[t] != (from, to)
}

/// The slot that the ordered pair `(from, to)` owns.
pub open spec fn slot_of(pairs: Seq<(usize, usize)>, from: usize, to: usize) -> int {
    choose|s: int| first_slot(pairs, from, to, s)
}

/// Slot `t` carries a message into `to` from a node other than `except`.
pub open spec fn feeds(
    pairs: Seq<(usize, usize)>,
    t: int,
    to: usize,
    except: Option<usize>,
) -> bool {
    &&& 0 <= t < pairs.len()
    &&& pairs[t].1 == to
    &&& except != Some(pairs[t].0)
}

/// `list` holds, in increasing order, exactly the slots that feed `to` (leaving out `except`).
pub open spec fn is_feed_list(
    pairs: Seq<(usize, usize)>,
    list: Seq<usize>,
    to: usize,
    except: Option<usize>,
) -> bool {
    &&& forall|i: int| 0 <= i < list.len() ==> feeds(pairs, #[trigger] list[i] as int, to, except)
    &&& forall|i: int, j: int| 0 <= i < j < list.len() ==> list[i] < list[j]
    &&& forall|t: int| feeds(pairs, t, to, except) ==> list.contains(t as usize)
}

pub proof fn lemma_first_slot_unique(pairs: Seq<(usize, usize)>, from: usize, to: usize, s: int)
    requires
        first_slot(pairs, from, to, s),
    ensures
        slot_of(pairs, from, to) == s,
{
    let c = slot_of(pairs, from, to);
    assert(first_slot(pairs, from, to, c));
    if c < s {
        assert(pairs[c] != (from, to));
    } else if s < c {
        assert(pairs[s] != (from, to));
    }
}

proof fn lemma_first_slot_below(pairs: Seq<(usize, usize)>, from: usize, to: usize, w: int)
    requires
        0 <= w < pairs.len(),
        pairs[w] == (from, to),
    ensures
        exists|s: int| first_slot(pairs, from, to, s),
    decreases w,
{
    if exists|t: int| 0 <= t < w && #[trigger] pairs[t] == (from, to) {
        let t = choose|t: int| 0 <= t < w && #[trigger] pairs[t] == (from, to);
        lemma_first_slot_below(pairs, from, to, t);
    } else {
        assert(first_slot(pairs, from, to, w));
    }
}

/// A pair that owns a slot owns a lowest one, which is `slot_of`.
pub proof fn lemma_slot_of(pairs: Seq<(usize, usize)>, from: usize, to: usize)
    requires
        has_pair(pairs, from, to),
    ensures
        first_slot(pairs, from, to, slot_of(pairs, from, to)),
{
    let w = choose|w: int| 0 <= w < pairs.len() && #[trigger] pairs[w] == (from, to);
    lemma_first_slot_below(pairs, from, to, w);
}

/// The layout is eager: both orientations of every edge own a slot, at `2e` and `2e + 1`.
pub proof fn lemma_both_orientations_have_slots(edges: Seq<(usize, usize)>, e: int)
    requires
        0 <= e < edges.len(),
    ensures
        has_pair(directed_pairs(edges), edges[e].0, edges[e].1),
        has_pair(directed_pairs(edges), edges[e].1, edges[e].0),
        directed_pairs(edges)[2 * e] == edges[e],
        directed_pairs(edges)[2 * e + 1] == (edges[e].1, edges[e].0),
{
    let pairs = directed_pairs(edges);
    assert((2 * e) / 2 == e && (2 * e) % 2 == 0);
    assert((2 * e + 1) / 2 == e && (2 * e + 1) % 2 == 1);
    assert(pairs[2 * e] == (edges[e].0, edges[e].1));
    assert(pairs[2 * e + 1] == (edges[e].1, edges[e].0));
}

/// Each ordered pair owns one slot, and a pair and its reverse never share it: the message
/// from `a` to `b` and the one from `b` to `a` are stored apart.
pub proof fn lemma_reverse_pairs_apart(pairs: Seq<(usize, usize)>, a: usize, b: usize)
    requires
        has_pair(pairs, a, b),
        has_pair(pairs, b, a),
        a != b,
    ensures
        slot_of(pairs, a, b) != slot_of(pairs, b, a),
        forall|s: int| first_slot(pairs, a, b, s) ==> s == slot_of(pairs, a, b),
{
    lemma_slot_of(pairs, a, b);
    lemma_slot_of(pairs, b, a);
    assert forall|s: int| first_slot(pairs, a, b, s) implies s == slot_of(pairs, a, b) by {
        lemma_first_slot_unique(pairs, a, b, s);
    }
}

/// One message vector of `num_states` values for each ordered pair of adjacent nodes. The
/// slots are laid out once, from the edge list, when the store is made.
#[derive(Clone)]
pub struct MessageBank<T> {
    num_states: usize,
    num_nodes: usize,
    pairs: Vec<(usize, usize)>,
    bank: Vec<T>,
}

/// One message of a round: the slot it is written to, its two ends, and the slots of the
/// messages that its sender has received from its other neighbours.
pub struct MessageUpdate {
    pub slot: usize,
    pub sender: usize,
    pub receiver: usize,
    pub sources: Vec<usize>,
}

impl<T: Copy> MessageBank<T> {
    pub closed spec fn wf(&self) -> bool {
        &&& self.num_states > 0
        &&& self.bank@.len() == self.pairs@.len() * self.num_states
        &&& self.bank@.len() <= usize::MAX
        &&& edges_within(self.pairs@, self.num_nodes as nat)
    }

    /// The ordered pair that owns each slot.
    pub closed spec fn pairs(&self) -> Seq<(usize, usize)> {
        self.pairs@
    }

    /// Every stored value: slot `s` spans `s * K .. s * K + K`.
    pub closed spec fn values(&self) -> Seq<T> {
        self.bank@
    }

    /// The length `K` of each message.
    pub closed spec fn states(&self) -> nat {
        self.num_states as nat
    }

    pub closed spec fn nodes(&self) -> nat {
        self.num_nodes as nat
    }

    pub fn num_nodes(&self) -> (r: usize)
        ensures
            r as nat == self.nodes(),
    {
        self.num_nodes
    }

    /// The value for receiving state `state` in the message of slot `s`.
    pub open spec fn entry(&self, s: int, state: int) -> T {
        self.values()[s * self.states() + state]
    }

    /// The message of the ordered pair `(from, to)`.
    pub open spec fn message_of(&self, from: usize, to: usize) -> Seq<T> {
        let s = slot_of(self.pairs(), from, to);
        self.values().subrange(s * self.states(), s * self.states() + self.states())
    }

    /// The entries of slot `s` lie inside the store.
    pub proof fn lemma_entry_in_bounds(&self, s: int, state: int)
        requires
            self.wf(),
            0 <= s < self.pairs().len(),
            0 <= state < self.states(),
        ensures
            0 <= s * self.states() + state < self.values().len(),
            s * self.states() + self.states() <= self.values().len(),
    {
        let k = self.states() as int;
        let n = self.pairs().len() as int;
        assert(s * k + k <= n * k) by (nonlinear_arith)
            requires
                0 <= s < n,
                k > 0,
        ;
        assert(0 <= s * k) by (nonlinear_arith)
            requires
                0 <= s,
                k > 0,
        ;
    }

    /// A store for the graph's edges with every value set to `init`.
    pub fn new(num_states: usize, graph: &UnGraph<(), ()>, init: T) -> (r: Result<
        MessageBank<T>,
        InferenceError,
    >)
        requires
            graph_wf(*graph),
            2 * graph_edges(*graph).len() * num_states <= usize::MAX,
        ensures
            num_states == 0 <==> r == Err::<MessageBank<T>, InferenceError>(
                InferenceError::EmptyStateSpace,
            ),
            r matches Err(e) ==> e == InferenceError::EmptyStateSpace,
            r matches Ok(b) ==> {
                &&& b.wf()
                &&& b.states() == num_states
                &&& b.nodes() == graph_node_count(*graph)
                &&& b.pairs() == directed_pairs(graph_edges(*graph))
                &&& b.values() == Seq::new(b.values().len(), |i: int| init)
            },
    {
        if num_states == 0 {
            return Err(InferenceError::EmptyStateSpace);
        }
        let num_nodes = graph_node_count_of(graph);
        let num_edges = graph_edge_count_of(graph);
        let ghost edges = graph_edges(*graph);
        let mut pairs: Vec<(usize, usize)> = Vec::new();
        let mut e: usize = 0;
        while e < num_edges
            invariant
                num_edges == edges.len(),
                edges == graph_edges(*graph),
                graph_wf(*graph),
                num_nodes == graph_node_count(*graph),
                0 <= e <= num_edges,
                pairs@ == directed_pairs(edges.subrange(0, e as int)),
            decreases num_edges - e,
        {
            let ends = graph_edge_endpoints(graph, e);
            match ends {
                Some((a, b)) => {
                    let ghost before = pairs@;
                    pairs.push((a, b));
                    pairs.push((b, a));
                    proof {
                        let sub = edges.subrange(0, e as int + 1);
                        assert(pairs@ =~= directed_pairs(sub)) by {
                            assert forall|s: int| 0 <= s < pairs@.len() implies pairs@[s]
                                == directed_pairs(sub)[s] by {
                                if s < before.len() {
                                    assert(edges.subrange(0, e as int)[s / 2] == sub[s / 2]);
                                }
                            }
                        }
                    }
                },
                None => {},
            }
            e = e + 1;
        }
        assert(edges.subrange(0, num_edges as int) =~= edges);
        let total = pairs.len() * num_states;
        let mut bank: Vec<T> = Vec::new();
        let mut i: usize = 0;
        while i < total
            invariant
                0 <= i <= total,
                bank@ == Seq::new(i as nat, |j: int| init),
            decreases total - i,
        {
            bank.push(init);
            i = i + 1;
            assert(bank@ =~= Seq::new(i as nat, |j: int| init));
        }
        proof {
            assert forall|s: int| 0 <= s < pairs@.len() implies (#[trigger] pairs@[s]).0
                < num_nodes && pairs@[s].1 < num_nodes by {
                assert(edges[s / 2].0 < num_nodes && edges[s / 2].1 < num_nodes);
            }
        }
        Ok(MessageBank { num_states, num_nodes, pairs, bank })
    }

    pub fn num_states(&self) -> (r: usize)
        ensures
            r as nat == self.states(),
    {
        self.num_states
    }

    pub fn num_pairs(&self) -> (r: usize)
        ensures
            r as nat == self.pairs().len(),
    {
        self.pairs.len()
    }

    /// The ordered pair that owns slot `s`.
    pub fn pair(&self, s: usize) -> (r: (usize, usize))
        requires
            (s as nat) < self.pairs().len(),
        ensures
            r == self.pairs()[s as int],
    {
        self.pairs[s]
    }

    /// Every stored value, slot after slot.
    pub fn as_slice(&self) -> (r: &[T])
        ensures
            r@ == self.values(),
    {
        self.bank.as_slice()
    }

    /// The slot of the ordered pair `(from, to)`.
    pub fn slot(&self, from: usize, to: usize) -> (r: Result<usize, InferenceError>)
        requires
            self.wf(),
        ensures
            (from as nat >= self.nodes() || to as nat >= self.nodes()) <==> r == Err::<
                usize,
                InferenceError,
            >(InferenceError::InvalidNodeIndex),
            ((from as nat) < self.nodes() && (to as nat) < self.nodes() && !has_pair(
                self.pairs(),
                from,
                to,
            )) <==> r == Err::<usize, InferenceError>(InferenceError::MissingEdge),
            r.is_ok() <==> (from as nat) < self.nodes() && (to as nat) < self.nodes() && has_pair(
                self.pairs(),
                from,
                to,
            ),
            r matches Ok(s) ==> first_slot(self.pairs(), from, to, s as int) && s as int
                == slot_of(self.pairs(), from, to),
    {
        if from >= self.num_nodes || to >= self.num_nodes {
            return Err(InferenceError::InvalidNodeIndex);
        }
        let mut s: usize = 0;
        while s < self.pairs.len()
            invariant
                self.wf(),
                (from as nat) < self.nodes() && (to as nat) < self.nodes(),
                0 <= s <= self.pairs@.len(),
                forall|t: int| 0 <= t < s ==> #[trigger] self.pairs@[t] != (from, to),
            decreases self.pairs@.len() - s,
        {
            let (a, b) = self.pairs[s];
            if a == from && b == to {
                proof {
                    assert(self.pairs@[s as int] == (from, to));
                    lemma_first_slot_unique(self.pairs@, from, to, s as int);
                }
                return Ok(s);
            }
            s = s + 1;
        }
        Err(InferenceError::MissingEdge)
    }

    /// The value for receiving state `state` in the message of `(from, to)`.
    pub fn eval_state(&self, from: usize, to: usize, state: usize) -> (r: Result<
        T,
        InferenceError,
    >)
        requires
            self.wf(),
            (state as nat) < self.states(),
        ensures
            (from as nat >= self.nodes() || to as nat >= self.nodes()) <==> r == Err::<
                T,
                InferenceError,
            >(InferenceError::InvalidNodeIndex),
            ((from as nat) < self.nodes() && (to as nat) < self.nodes() && !has_pair(
                self.pairs(),
                from,
                to,
            )) <==> r == Err::<T, InferenceError>(InferenceError::MissingEdge),
            r.is_ok() <==> (from as nat) < self.nodes() && (to as nat) < self.nodes() && has_pair(
                self.pairs(),
                from,
                to,
            ),
            r matches Ok(v) ==> v == self.entry(slot_of(self.pairs(), from, to), state as int),
    {
        let s = match self.slot(from, to) {
            Ok(s) => s,
            Err(e) => return Err(e),
        };
        proof {
            assert(self.pairs()[s as int] == (from, to));
            self.lemma_entry_in_bounds(s as int, state as int);
        }
        Ok(self.bank[s * self.num_states + state])
    }

    /// Stores `value` for receiving state `state` in the message of `(from, to)`.
    pub fn set_state(&mut self, from: usize, to: usize, state: usize, value: T) -> (r: Result<
        (),
        InferenceError,
    >)
        requires
            old(self).wf(),
            (state as nat) < old(self).states(),
        ensures
            final(self).wf(),
            final(self).pairs() == old(self).pairs(),
            final(self).states() == old(self).states(),
            final(self).nodes() == old(self).nodes(),
            (from as nat >= old(self).nodes() || to as nat >= old(self).nodes()) <==> r == Err::<
                (),
                InferenceError,
            >(InferenceError::InvalidNodeIndex),
            ((from as nat) < old(self).nodes() && (to as nat) < old(self).nodes() && !has_pair(
                old(self).pairs(),
                from,
                to,
            )) <==> r == Err::<(), InferenceError>(InferenceError::MissingEdge),
            r.is_ok() <==> (from as nat) < old(self).nodes() && (to as nat) < old(self).nodes()
                && has_pair(old(self).pairs(), from, to),
            r.is_ok() ==> final(self).values() == old(self).values().update(
                slot_of(old(self).pairs(), from, to) * old(self).states() + state,
                value,
            ),
            r.is_err() ==> final(self).values() == old(self).values(),
    {
        let s = match self.slot(from, to) {
            Ok(s) => s,
            Err(e) => return Err(e),
        };
        proof {
            self.lemma_entry_in_bounds(s as int, state as int);
        }
        let k = self.num_states;
        self.bank.set(s * k + state, value);
        Ok(())
    }

    /// A copy of the message of `(from, to)`.
    pub fn message(&self, from: usize, to: usize) -> (r: Result<Vec<T>, InferenceError>)
        requires
            self.wf(),
        ensures
            (from as nat >= self.nodes() || to as nat >= self.nodes()) <==> r matches Err(
                InferenceError::InvalidNodeIndex,
            ),
            ((from as nat) < self.nodes() && (to as nat) < self.nodes() && !has_pair(
                self.pairs(),
                from,
                to,
            )) <==> r matches Err(InferenceError::MissingEdge),
            r.is_ok() <==> (from as nat) < self.nodes() && (to as nat) < self.nodes() && has_pair(
                self.pairs(),
                from,
                to,
            ),
            r matches Ok(v) ==> v@ == self.message_of(from, to),
    {
        let s = match self.slot(from, to) {
            Ok(s) => s,
            Err(e) => return Err(e),
        };
        let k = self.num_states;
        proof {
            self.lemma_entry_in_bounds(s as int, 0);
        }
        let start = s * k;
        let mut out: Vec<T> = Vec::new();
        let mut i: usize = 0;
        while i < k
            invariant
                self.wf(),
                k as nat == self.states(),
                s as int == slot_of(self.pairs(), from, to),
                0 <= s < self.pairs().len(),
                start == s * k,
                0 <= i <= k,
                out@ == self.values().subrange(start as int, start + i),
            decreases k - i,
        {
            proof {
                self.lemma_entry_in_bounds(s as int, i as int);
            }
            out.push(self.bank[start + i]);
            i = i + 1;
            assert(out@ =~= self.values().subrange(start as int, start + i));
        }
        Ok(out)
    }

    /// The slots of the messages into `to`, leaving out the one from `except`, in slot order.
    fn feeding_slots(&self, to: usize, except: Option<usize>) -> (r: Vec<usize>)
        requires
            self.wf(),
        ensures
            is_feed_list(self.pairs(), r@, to, except),
    {
        let mut out: Vec<usize> = Vec::new();
        let mut t: usize = 0;
        while t < self.pairs.len()
            invariant
                0 <= t <= self.pairs@.len(),
                forall|i: int| 0 <= i < out@.len() ==> feeds(self.pairs@, #[trigger] out@[i] as int, to, except),
                forall|i: int| 0 <= i < out@.len() ==> #[trigger] out@[i] < t,
                forall|i: int, j: int| 0 <= i < j < out@.len() ==> out@[i] < out@[j],
                forall|u: int| 0 <= u < t && feeds(self.pairs@, u, to, except) ==> out@.contains(u as usize),
            decreases self.pairs@.len() - t,
        {
            let (a, b) = self.pairs[t];
            let keep = b == to && match except {
                Some(x) => a != x,
                None => true,
            };
            if keep {
                let ghost before = out@;
                out.push(t);
                proof {
                    assert forall|u: int| 0 <= u < t + 1 && feeds(self.pairs@, u, to, except) implies out@.contains(u as usize) by {
                        if u < t {
                            let i = choose|i: int| 0 <= i < before.len() && before[i] == u as usize;
                            assert(out@[i] == u as usize);
                        } else {
                            assert(out@[before.len() as int] == u as usize);
                        }
                    }
                }
            } else {
                proof {
                    assert forall|u: int| 0 <= u < t + 1 && feeds(self.pairs@, u, to, except) implies out@.contains(u as usize) by {
                        if u == t {
                            assert(self.pairs@[u] == (a, b));
                        }
                    }
                }
            }
            t = t + 1;
        }
        out
    }

    /// The slots of every message into `to`, in slot order.
    pub fn incoming(&self, to: usize) -> (r: Result<Vec<usize>, InferenceError>)
        requires
            self.wf(),
        ensures
            (to as nat >= self.nodes()) <==> r.is_err(),
            r matches Err(e) ==> e == InferenceError::InvalidNodeIndex,
            r matches Ok(v) ==> is_feed_list(self.pairs(), v@, to, None),
    {
        if to >= self.num_nodes {
            return Err(InferenceError::InvalidNodeIndex);
        }
        Ok(self.feeding_slots(to, None))
    }

    /// The messages of one round, slot by slot. The message of slot `s`, from `n` to `m`, is
    /// computed from the messages into `n` from every neighbour but `m`.
    pub fn schedule(&self) -> (r: Vec<MessageUpdate>)
        requires
            self.wf(),
        ensures
            r@.len() == self.pairs().len(),
            forall|s: int|
                0 <= s < r@.len() ==> {
                    &&& (#[trigger] r@[s]).slot == s
                    &&& (r@[s].sender, r@[s].receiver) == self.pairs()[s]
                    &&& is_feed_list(
                        self.pairs(),
                        r@[s].sources@,
                        r@[s].sender,
                        Some(r@[s].receiver),
                    )
                },
    {
        let mut out: Vec<MessageUpdate> = Vec::new();
        let mut s: usize = 0;
        while s < self.pairs.len()
            invariant
                self.wf(),
                0 <= s <= self.pairs@.len(),
                out@.len() == s,
                forall|u: int|
                    0 <= u < s ==> {
                        &&& (#[trigger] out@[u]).slot == u
                        &&& (out@[u].sender, out@[u].receiver) == self.pairs@[u]
                        &&& is_feed_list(
                            self.pairs@,
                            out@[u].sources@,
                            out@[u].sender,
                            Some(out@[u].receiver),
                        )
                    },
            decreases self.pairs@.len() - s,
        {
            let (n, m) = self.pairs[s];
            let sources = self.feeding_slots(n, Some(m));
            out.push(MessageUpdate { slot: s, sender: n, receiver: m, sources });
            s = s + 1;
        }
        out
    }
}

/// Within one round every write goes to its own entry: two writes to different messages, or to
/// different states of one message, never touch the same value, so they can be applied in
/// either order, or at once, with the same resulting store.
pub proof fn lemma_round_writes_commute<T: Copy>(
    bank: MessageBank<T>,
    a: (usize, usize),
    state_a: int,
    b: (usize, usize),
    state_b: int,
    x: T,
    y: T,
)
    requires
        bank.wf(),
        has_pair(bank.pairs(), a.0, a.1),
        has_pair(bank.pairs(), b.0, b.1),
        0 <= state_a < bank.states(),
        0 <= state_b < bank.states(),
        a != b || state_a != state_b,
    ensures
        ({
            let k = bank.states() as int;
            let ia = slot_of(bank.pairs(), a.0, a.1) * k + state_a;
            let ib = slot_of(bank.pairs(), b.0, b.1) * k + state_b;
            &&& ia != ib
            &&& bank.values().update(ia, x).update(ib, y) == bank.values().update(ib, y).update(
                ia,
                x,
            )
        }),
{
    let pairs = bank.pairs();
    let k = bank.states() as int;
    lemma_slot_of(pairs, a.0, a.1);
    lemma_slot_of(pairs, b.0, b.1);
    let sa = slot_of(pairs, a.0, a.1);
    let sb = slot_of(pairs, b.0, b.1);
    if a != b {
        assert(sa != sb);
    }
    bank.lemma_entry_in_bounds(sa, state_a);
    bank.lemma_entry_in_bounds(sb, state_b);
    assert(sa * k + state_a != sb * k + state_b) by (nonlinear_arith)
        requires
            sa != sb || state_a != state_b,
            0 <= state_a < k,
            0 <= state_b < k,
            0 <= sa,
            0 <= sb,
    ;
    assert(bank.values().update(sa * k + state_a, x).update(sb * k + state_b, y)
        =~= bank.values().update(sb * k + state_b, y).update(sa * k + state_a, x));
}

} // verus!
