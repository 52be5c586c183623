use vstd::prelude::*;

use super::id::StateId;

verus! {

/// One transition of an [`Automaton`]. The automaton reads one symbol, then it
/// goes to `target`.
#[derive(Debug, Clone, Copy, PartialEq, Eq)]
pub struct Transition<L> {
    /// The condition that a symbol obeys to move the automaton along this transition.
    pub label: L,
    /// The state that this transition goes to.
    pub target: StateId,
}

/// A finite automaton.
///
/// The automaton holds the states, the transitions, the states that accept,
/// and one or more start states. This trait reads that structure, and it
/// starts no scan. To scan the automaton, use
/// [`Scanner`](super::scanner::Scanner).
///
/// The automaton knows which states accept. It does not know what an accept
/// means. A lexer, for example, holds the token of each state that accepts,
/// and the automaton does not.
///
/// A nondeterministic automaton and a deterministic automaton implement this
/// trait. Thus one pass reads either of them with the same code.
pub trait Automaton {
    /// The condition on a transition of this automaton.
    type Label;

    /// Whether the automaton is consistent: each target and each start is one
    /// of its states.
    spec fn well_formed(&self) -> bool;

    /// The number of the states.
    spec fn spec_size(&self) -> nat;

    /// The transitions that leave the state at `index`.
    spec fn spec_moves(&self, index: int) -> Seq<Transition<Self::Label>>;

    /// Whether the state at `index` accepts.
    spec fn spec_is_accepting(&self, index: int) -> bool;

    /// The start states, the first start first.
    spec fn spec_entry_states(&self) -> Seq<StateId>;

    /// Returns the number of the states in the state arena.
    fn state_count(&self) -> (count: usize)
        ensures
            count == self.spec_size(),
    ;

    /// Returns the transitions that leave the state that `id` refers to.
    fn transitions(&self, id: StateId) -> (transitions: &[Transition<Self::Label>])
        requires
            self.well_formed(),
            id@ < self.spec_size(),
        ensures
            transitions@ == self.spec_moves(id@ as int),
    ;

    /// Returns `true` if the state that `id` refers to accepts.
    fn accepts(&self, id: StateId) -> (accepts: bool)
        requires
            self.well_formed(),
            id@ < self.spec_size(),
        ensures
            accepts == self.spec_is_accepting(id@ as int),
    ;

    /// Returns the state at which each start begins a scan, the first start first.
    fn start_states(&self) -> (starts: &[StateId])
        ensures
            starts@ == self.spec_entry_states(),
    ;

    /// Returns the number of the start states of the automaton.
    fn start_count(&self) -> (count: usize)
        ensures
            count == self.spec_entry_states().len(),
    {
        self.start_states().len()
    }

    /// Returns the state at which the automaton starts a scan under `start`.
    fn start_state(&self, start: usize) -> (state: StateId)
        requires
            start < self.spec_entry_states().len(),
        ensures
            state == self.spec_entry_states()[start as int],
    {
        let starts = self.start_states();
        starts[start]
    }
}

} // verus!
