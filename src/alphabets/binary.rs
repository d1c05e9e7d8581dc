use super::Alphabet;
use vstd::prelude::*;

verus! {

/// The two-state alphabet `{Zero, One}`.
#[derive(Copy, Clone, PartialEq, Eq, PartialOrd, Debug, Structural)]
pub enum BinaryAlphabet {
    Zero,
    One,
}

pub open spec fn binary_index(s: BinaryAlphabet) -> nat {
    match s {
        BinaryAlphabet::Zero => 0,
        BinaryAlphabet::One => 1,
    }
}

pub open spec fn binary_at(i: nat) -> BinaryAlphabet {
    if i == 0 {
        BinaryAlphabet::Zero
    } else {
        BinaryAlphabet::One
    }
}

impl BinaryAlphabet {
    /// The digit that names the state: `'0'` or `'1'`.
    pub fn symbol(&self) -> (r: char)
        ensures
            r == (if *self == BinaryAlphabet::Zero { '0' } else { '1' }),
    {
        match self {
            BinaryAlphabet::Zero => '0',
            BinaryAlphabet::One => '1',
        }
    }
}

impl Alphabet for BinaryAlphabet {
    type State = BinaryAlphabet;
    type StateIter = BinaryIter;

    open spec fn spec_size() -> nat {
        2
    }

    open spec fn spec_index(state: BinaryAlphabet) -> nat {
        binary_index(state)
    }

    open spec fn spec_state(index: nat) -> BinaryAlphabet {
        binary_at(index)
    }

    open spec fn is_fresh_enumeration(it: BinaryIter) -> bool {
        it.wf() && it.position() == 0
    }

    proof fn lemma_state_index(index: nat) {
    }

    proof fn lemma_index_bijective(a: BinaryAlphabet, b: BinaryAlphabet) {
    }

    fn size() -> (r: usize) {
        2
    }

    fn states() -> (r: BinaryIter) {
        BinaryIter::new()
    }

    fn try_from_index(index: usize) -> (r: Option<BinaryAlphabet>) {
        if index == 0 {
            Some(BinaryAlphabet::Zero)
        } else if index == 1 {
            Some(BinaryAlphabet::One)
        } else {
            None
        }
    }

    fn to_index(state: BinaryAlphabet) -> (r: usize) {
        match state {
            BinaryAlphabet::Zero => 0,
            BinaryAlphabet::One => 1,
        }
    }
}

/// Walks the binary states in index order.
pub struct BinaryIter {
    states: [BinaryAlphabet; 2],
    counter: usize,
}

impl BinaryIter {
    pub closed spec fn wf(&self) -> bool {
        &&& self.states@ == seq![BinaryAlphabet::Zero, BinaryAlphabet::One]
        &&& self.counter <= 2
    }

    /// How many states have been handed out.
    pub closed spec fn position(&self) -> nat {
        self.counter as nat
    }

    pub fn new() -> (r: BinaryIter)
        ensures
            r.wf(),
            r.position() == 0,
    {
        BinaryIter { states: [BinaryAlphabet::Zero, BinaryAlphabet::One], counter: 0 }
    }

    /// The next state, or `None` once both have been handed out.
    pub fn next(&mut self) -> (r: Option<BinaryAlphabet>)
        requires
            old(self).wf(),
        ensures
            final(self).wf(),
            old(self).position() < 2 ==> r == Some(binary_at(old(self).position()))
                && final(self).position() == old(self).position() + 1,
            old(self).position() >= 2 ==> r.is_none() && final(self).position()
                == old(self).position(),
    {
        if self.counter < 2 {
            let i = self.counter;
            self.counter = self.counter + 1;
            Some(self.states[i])
        } else {
            None
        }
    }
}

} // verus!
