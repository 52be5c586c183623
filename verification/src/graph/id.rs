use vstd::prelude::*;

verus! {

/// An index into the node arena of a rule graph.
#[derive(Debug, Clone, Copy, PartialEq, Eq, Structural, PartialOrd, Ord, Hash)]
pub struct NodeId(pub u32);

impl View for NodeId {
    type V = nat;

    open spec fn view(&self) -> nat {
        self.0 as nat
    }
}

impl NodeId {
    /// Creates a `NodeId` from an index into the node arena.
    pub fn new(index: usize) -> (id: Self)
        requires
            index <= u32::MAX,
        ensures
            id@ == index,
    {
        NodeId(index as u32)
    }

    /// Returns the index into the node arena that this identifier refers to.
    pub fn index(self) -> (index: usize)
        ensures
            index == self@,
    {
        self.0 as usize
    }

    /// Returns this identifier as the number that the emitted source writes.
    pub fn number(self) -> (number: u32)
        ensures
            number == self@,
    {
        self.0
    }
}

} // verus!
