use vstd::prelude::*;

verus! {

/// Identifies a state in one finite automaton.
#[derive(Debug, Clone, Copy, PartialEq, Eq, Structural, PartialOrd, Ord, Hash)]
pub struct StateId(pub u32);

impl View for StateId {
    type V = nat;

    open spec fn view(&self) -> nat {
        self.0 as nat
    }
}

impl StateId {
    /// Creates an identifier for `index`.
    pub fn new(index: usize) -> (id: Self)
        requires
            index <= u32::MAX,
        ensures
            id@ == index,
    {
        StateId(index as u32)
    }

    /// Returns the state index.
    pub fn index(self) -> (index: usize)
        ensures
            index == self@,
    {
        self.0 as usize
    }
}

} // verus!
