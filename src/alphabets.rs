use vstd::prelude::*;

pub mod binary;
pub mod pollen_allergy;

verus! {

/// Whether a variable's value was seen, and if so which value it was.
#[derive(Debug, PartialEq, PartialOrd, Clone)]
pub enum Observation<T> {
    Observed(T),
    Unobserved,
}

/// A finite, ordered state space: a stable bijection between its states and `0..size()`.
pub trait Alphabet {
    type State;
    type StateIter;

    /// The number of states.
    spec fn spec_size() -> nat;

    /// The position of a state in the enumeration.
    spec fn spec_index(state: Self::State) -> nat;

    /// The state at position `index` of the enumeration.
    spec fn spec_state(index: nat) -> Self::State;

    /// `it` has handed out nothing yet: it yields `spec_state(0)`, ..., `spec_state(size - 1)`
    /// in that order, and then nothing.
    spec fn is_fresh_enumeration(it: Self::StateIter) -> bool;

    /// The state at a position sits at that position.
    proof fn lemma_state_index(index: nat)
        requires
            index < Self::spec_size(),
        ensures
            Self::spec_index(Self::spec_state(index)) == index,
    ;

    /// Positions are below the size, and no two states share one.
    proof fn lemma_index_bijective(a: Self::State, b: Self::State)
        ensures
            Self::spec_index(a) < Self::spec_size(),
            Self::spec_index(a) == Self::spec_index(b) ==> a == b,
    ;

    fn size() -> (r: usize)
        ensures
            r as nat == Self::spec_size(),
    ;

    /// Enumerates every state once, in index order.
    fn states() -> (r: Self::StateIter)
        ensures
            Self::is_fresh_enumeration(r),
    ;

    /// The state at position `index` of the enumeration.
    fn try_from_index(index: usize) -> (r: Option<Self::State>)
        ensures
            r.is_some() <==> (index as nat) < Self::spec_size(),
            r matches Some(s) ==> s == Self::spec_state(index as nat) && Self::spec_index(s)
                == index as nat,
    ;

    fn to_index(state: Self::State) -> (r: usize)
        ensures
            r as nat == Self::spec_index(state),
            (r as nat) < Self::spec_size(),
    ;
}

} // verus!
