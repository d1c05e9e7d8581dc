use super::{Alphabet, Observation};
use crate::text::{
    as_spans, bounded_number, last_word_start, last_word_start_at, line_spans, lines, parse_number,
    word_end, word_end_at,
};
use vstd::prelude::*;

verus! {

/// The two-state gene alphabet `{A, B}`.
#[derive(Copy, Clone, PartialEq, Eq, PartialOrd, Debug, Structural)]
pub enum GeneAlphabet {
    A,
    B,
}

pub open spec fn gene_index(s: GeneAlphabet) -> nat {
    match s {
        GeneAlphabet::A => 0,
        GeneAlphabet::B => 1,
    }
}

pub open spec fn gene_at(i: nat) -> GeneAlphabet {
    if i == 0 {
        GeneAlphabet::A
    } else {
        GeneAlphabet::B
    }
}

impl GeneAlphabet {
    /// The letter that names the state: `'A'` or `'B'`.
    pub fn symbol(&self) -> (r: char)
        ensures
            r == (if *self == GeneAlphabet::A { 'A' } else { 'B' }),
    {
        match self {
            GeneAlphabet::A => 'A',
            GeneAlphabet::B => 'B',
        }
    }
}

impl Alphabet for GeneAlphabet {
    type State = GeneAlphabet;
    type StateIter = GeneIter;

    open spec fn spec_size() -> nat {
        2
    }

    open spec fn spec_index(state: GeneAlphabet) -> nat {
        gene_index(state)
    }

    open spec fn spec_state(index: nat) -> GeneAlphabet {
        gene_at(index)
    }

    open spec fn is_fresh_enumeration(it: GeneIter) -> bool {
        it.wf() && it.position() == 0
    }

    proof fn lemma_state_index(index: nat) {
    }

    proof fn lemma_index_bijective(a: GeneAlphabet, b: GeneAlphabet) {
    }

    fn size() -> (r: usize) {
        2
    }

    fn states() -> (r: GeneIter) {
        GeneIter::new()
    }

    fn try_from_index(index: usize) -> (r: Option<GeneAlphabet>) {
        if index == 0 {
            Some(GeneAlphabet::A)
        } else if index == 1 {
            Some(GeneAlphabet::B)
        } else {
            None
        }
    }

    fn to_index(state: GeneAlphabet) -> (r: usize) {
        match state {
            GeneAlphabet::A => 0,
            GeneAlphabet::B => 1,
        }
    }
}

/// Walks the gene states in index order.
pub struct GeneIter {
    genes: [GeneAlphabet; 2],
    counter: usize,
}

impl GeneIter {
    pub closed spec fn wf(&self) -> bool {
        &&& self.genes@ == seq![GeneAlphabet::A, GeneAlphabet::B]
        &&& self.counter <= 2
    }

    /// How many states have been handed out.
    pub closed spec fn position(&self) -> nat {
        self.counter as nat
    }

    pub fn new() -> (r: GeneIter)
        ensures
            r.wf(),
            r.position() == 0,
    {
        GeneIter { genes: [GeneAlphabet::A, GeneAlphabet::B], counter: 0 }
    }

    /// The next state, or `None` once both have been handed out.
    pub fn next(&mut self) -> (r: Option<GeneAlphabet>)
        requires
            old(self).wf(),
        ensures
            final(self).wf(),
            old(self).position() < 2 ==> r == Some(gene_at(old(self).position()))
                && final(self).position() == old(self).position() + 1,
            old(self).position() >= 2 ==> r.is_none() && final(self).position()
                == old(self).position(),
    {
        if self.counter < 2 {
            let i = self.counter;
            self.counter = self.counter + 1;
            Some(self.genes[i])
        } else {
            None
        }
    }
}

/// Why a gene graph file was refused.
#[derive(Debug, Clone, Copy, PartialEq, Eq, Structural)]
pub enum GraphFileError {
    /// The file has no lines.
    MissingHeader,
    /// The first line is not an unsigned number.
    BadHeader,
    /// The number `n` on the first line is 0 or more than the number of lines.
    HeaderOutOfRange,
    /// A node line ends in an empty word.
    BadNode,
    /// An edge line does not start with two `u32` numbers separated by a space.
    BadEdge,
}

/// The content of a gene graph file: its edges, and the evidence of each node in order.
pub struct GeneGraphFile {
    pub edges: Vec<(u32, u32)>,
    pub nodes: Vec<Observation<GeneAlphabet>>,
}

/// What the node line `line` says: `None` if its last word is empty, `Some(None)` if that word
/// starts with anything but `A`, `B` or `?` (the line is skipped), else the evidence.
pub open spec fn node_line(t: Seq<u8>, line: (int, int)) -> Option<Option<Observation<GeneAlphabet>>> {
    let w = last_word_start(t, line.0, line.1);
    if w >= line.1 {
        None
    } else if t[w] == 65 {
        Some(Some(Observation::Observed(GeneAlphabet::A)))
    } else if t[w] == 66 {
        Some(Some(Observation::Observed(GeneAlphabet::B)))
    } else if t[w] == 63 {
        Some(Some(Observation::Unobserved))
    } else {
        Some(None)
    }
}

/// The edge on line `line`: its first two words, as `u32` numbers.
pub open spec fn edge_line(t: Seq<u8>, line: (int, int)) -> Option<(u32, u32)> {
    let e1 = word_end(t, line.0, line.1);
    let a = bounded_number(t, line.0, e1, u32::MAX as nat);
    if a is None || e1 >= line.1 {
        None
    } else {
        let e2 = word_end(t, e1 + 1, line.1);
        let b = bounded_number(t, e1 + 1, e2, u32::MAX as nat);
        if b is None {
            None
        } else {
            Some((a->0 as u32, b->0 as u32))
        }
    }
}

/// The evidence of the node lines `n..k`, skipped lines left out.
pub open spec fn node_observations(t: Seq<u8>, ls: Seq<(int, int)>, n: int, k: int) -> Seq<
    Observation<GeneAlphabet>,
>
    decreases k - n,
{
    if k <= n {
        seq![]
    } else {
        let prev = node_observations(t, ls, n, k - 1);
        match node_line(t, ls[k - 1]) {
            Some(Some(o)) => prev.push(o),
            _ => prev,
        }
    }
}

/// Reads a gene graph file. Line 0 holds a number `n`; lines `1..n` hold one edge each; every
/// line from `n` on describes a node by the first letter of its last word.
pub fn parse_gene_graph(text: &[u8]) -> (r: Result<GeneGraphFile, GraphFileError>)
    ensures
        ({
            let t = text@;
            let ls = lines(t);
            &&& (ls.len() == 0 <==> r matches Err(GraphFileError::MissingHeader))
            &&& ls.len() > 0 ==> {
                let h = bounded_number(t, ls[0].0, ls[0].1, usize::MAX as nat);
                &&& (h is None <==> r matches Err(GraphFileError::BadHeader))
                &&& h matches Some(n) ==> {
                    &&& ((n == 0 || n > ls.len()) <==> r matches Err(
                        GraphFileError::HeaderOutOfRange,
                    ))
                    &&& (1 <= n <= ls.len()) ==> {
                        let bad_node = exists|k: int|
                            n <= k < ls.len() && (#[trigger] node_line(t, ls[k])) is None;
                        let bad_edge = exists|k: int|
                            1 <= k < n && (#[trigger] edge_line(t, ls[k])) is None;
                        &&& (bad_node <==> r matches Err(GraphFileError::BadNode))
                        &&& (!bad_node && bad_edge <==> r matches Err(GraphFileError::BadEdge))
                        &&& r matches Ok(g) ==> {
                            &&& g.nodes@ == node_observations(t, ls, n as int, ls.len() as int)
                            &&& g.edges@ == Seq::new(
                                (n - 1) as nat,
                                |i: int| edge_line(t, ls[i + 1])->0,
                            )
                        }
                    }
                }
            }
        }),
{
    let ghost t = text@;
    let spans = line_spans(text);
    let ghost ls = lines(t);
    proof {
        assert(as_spans(spans@).len() == spans@.len());
    }
    if spans.len() == 0 {
        return Err(GraphFileError::MissingHeader);
    }
    let (s0, e0) = spans[0];
    proof {
        assert(as_spans(spans@)[0] == (s0 as int, e0 as int));
    }
    let n = match parse_number(text, s0, e0, usize::MAX as u64) {
        Some(v) => v as usize,
        None => return Err(GraphFileError::BadHeader),
    };
    if n == 0 || n > spans.len() {
        return Err(GraphFileError::HeaderOutOfRange);
    }
    let mut nodes: Vec<Observation<GeneAlphabet>> = Vec::new();
    let mut k = n;
    while k < spans.len()
        invariant
            t == text@,
            ls == lines(t),
            as_spans(spans@) == ls,
            forall|j: int| 0 <= j < spans@.len() ==> (#[trigger] spans@[j]).0 <= spans@[j].1 <= t.len(),
            1 <= n <= k <= spans@.len(),
            ls.len() > 0,
            bounded_number(t, ls[0].0, ls[0].1, usize::MAX as nat) == Some(n as nat),
            nodes@ == node_observations(t, ls, n as int, k as int),
            forall|j: int| n <= j < k ==> (#[trigger] node_line(t, ls[j])) is Some,
        decreases spans@.len() - k,
    {
        let (s, e) = spans[k];
        proof {
            assert(ls[k as int] == (s as int, e as int));
            assert(spans@[k as int].0 <= spans@[k as int].1 <= t.len());
        }
        let w = last_word_start_at(text, s, e);
        if w >= e {
            proof {
                assert(node_line(t, ls[k as int]) is None);
            }
            return Err(GraphFileError::BadNode);
        }
        let c = text[w];
        if c == 65 {
            nodes.push(Observation::Observed(GeneAlphabet::A));
        } else if c == 66 {
            nodes.push(Observation::Observed(GeneAlphabet::B));
        } else if c == 63 {
            nodes.push(Observation::Unobserved);
        }
        k = k + 1;
    }
    let mut edges: Vec<(u32, u32)> = Vec::new();
    let mut k: usize = 1;
    while k < n
        invariant
            t == text@,
            ls == lines(t),
            as_spans(spans@) == ls,
            forall|j: int| 0 <= j < spans@.len() ==> (#[trigger] spans@[j]).0 <= spans@[j].1 <= t.len(),
            1 <= k <= n <= spans@.len(),
            ls.len() > 0,
            bounded_number(t, ls[0].0, ls[0].1, usize::MAX as nat) == Some(n as nat),
            forall|j: int| n <= j < ls.len() ==> (#[trigger] node_line(t, ls[j])) is Some,
            edges@ == Seq::new((k - 1) as nat, |i: int| edge_line(t, ls[i + 1])->0),
            forall|j: int| 1 <= j < k ==> (#[trigger] edge_line(t, ls[j])) is Some,
        decreases n - k,
    {
        let (s, e) = spans[k];
        proof {
            assert(ls[k as int] == (s as int, e as int));
            assert(spans@[k as int].0 <= spans@[k as int].1 <= t.len());
        }
        let e1 = word_end_at(text, s, e);
        let a = match parse_number(text, s, e1, u32::MAX as u64) {
            Some(a) => a as u32,
            None => {
                proof {
                    assert(edge_line(t, ls[k as int]) is None);
                }
                return Err(GraphFileError::BadEdge);
            },
        };
        if e1 >= e {
            proof {
                assert(edge_line(t, ls[k as int]) is None);
            }
            return Err(GraphFileError::BadEdge);
        }
        let e2 = word_end_at(text, e1 + 1, e);
        let b = match parse_number(text, e1 + 1, e2, u32::MAX as u64) {
            Some(b) => b as u32,
            None => {
                proof {
                    assert(edge_line(t, ls[k as int]) is None);
                }
                return Err(GraphFileError::BadEdge);
            },
        };
        edges.push((a, b));
        proof {
            assert(edge_line(t, ls[k as int]) == Some((a, b)));
            assert(edges@ =~= Seq::new(k as nat, |i: int| edge_line(t, ls[i + 1])->0));
        }
        k = k + 1;
    }
    Ok(GeneGraphFile { edges, nodes })
}

} // verus!
