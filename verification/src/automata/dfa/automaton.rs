use vstd::prelude::*;

use crate::automata::automaton::{Automaton, Transition};
use crate::automata::id::StateId;
use crate::automata::label::Label;
use crate::automata::adjacency::flatten;
use crate::automata::table::{
    STATE_IDENTIFIERS,
    StateTable,
    TRANSITION_CAPACITY,
    starts_below,
    targets_below,
};

verus! {

/// Whether no two transitions of one state of `groups` match one symbol.
pub open spec fn deterministic<L: Label>(groups: Seq<Seq<Transition<L>>>) -> bool {
    forall|state: int, first: int, second: int, symbol: L::Symbol|
        #![trigger groups[state][first].label.spec_matches(symbol), groups[state][second].label.spec_matches(symbol)]
        0 <= state < groups.len() && 0 <= first < second < groups[state].len()
            && groups[state][first].label.spec_matches(symbol) ==> !groups[state][second].label.spec_matches(
            symbol,
        )
}

/// The target of the transition of `transitions` that matches `symbol`, or
/// `None` for the implicit dead state.
pub open spec fn target_of<L: Label>(transitions: Seq<Transition<L>>, symbol: L::Symbol) -> Option<
    StateId,
> {
    if exists|k: int| 0 <= k < transitions.len() && #[trigger] transitions[k].label.spec_matches(symbol) {
        let k = choose|k: int|
            0 <= k < transitions.len() && #[trigger] transitions[k].label.spec_matches(symbol);
        Some(transitions[k].target)
    } else {
        None
    }
}

/// Stores a deterministic finite automaton.
///
/// Outgoing labels from one state do not overlap. A missing transition moves
/// to an implicit dead state.
#[derive(Debug, PartialEq, Eq)]
pub struct Dfa<L, A = ()> {
    table: StateTable<L, A>,
}

impl<L: Label, A> Dfa<L, A> {
    /// The labeled transitions of each state.
    pub closed spec fn spec_transitions(&self) -> Seq<Seq<Transition<L>>> {
        self.table.spec_transitions()
    }

    /// The accept value of each state.
    pub closed spec fn spec_accepts(&self) -> Seq<Option<A>> {
        self.table.spec_accepts()
    }

    /// The start states, in declaration sequence.
    pub closed spec fn spec_starts(&self) -> Seq<StateId> {
        self.table.spec_starts()
    }

    /// The number of the states.
    pub open spec fn spec_state_count(&self) -> nat {
        self.spec_accepts().len()
    }

    /// Whether the automaton is consistent: one group of transitions for each
    /// state, each target and each start in the automaton, and no two
    /// transitions of one state that match one symbol.
    pub open spec fn well_formed(&self) -> bool {
        &&& self.spec_transitions().len() == self.spec_state_count()
        &&& self.spec_state_count() <= STATE_IDENTIFIERS
        &&& starts_below(self.spec_starts(), self.spec_state_count() as int)
        &&& targets_below(self.spec_transitions(), self.spec_state_count() as int)
        &&& flatten(self.spec_transitions()).len() <= TRANSITION_CAPACITY
        &&& deterministic(self.spec_transitions())
    }

    /// Creates an automaton from a validated state table.
    pub fn new(table: StateTable<L, A>) -> (dfa: Self)
        requires
            table.well_formed(),
            deterministic(table.spec_transitions()),
        ensures
            dfa.well_formed(),
            dfa.spec_transitions() == table.spec_transitions(),
            dfa.spec_accepts() == table.spec_accepts(),
            dfa.spec_starts() == table.spec_starts(),
    {
        Dfa { table }
    }

    /// Returns the number of states in the automaton.
    pub fn state_count(&self) -> (count: usize)
        ensures
            count == self.spec_state_count(),
    {
        self.table.state_count()
    }

    /// Returns the transitions from `state`.
    pub fn transitions(&self, state: StateId) -> (transitions: &[Transition<L>])
        requires
            self.well_formed(),
            state@ < self.spec_state_count(),
        ensures
            transitions@ == self.spec_transitions()[state@ as int],
    {
        self.table.transitions(state)
    }

    /// Returns `true` if `state` accepts.
    pub fn accepts(&self, state: StateId) -> (accepts: bool)
        requires
            state@ < self.spec_state_count(),
        ensures
            accepts == self.spec_accepts()[state@ as int] is Some,
    {
        self.table.accepts(state)
    }

    /// Returns the accept value of `state`, if the state accepts.
    pub fn accept(&self, state: StateId) -> (accept: Option<&A>)
        requires
            state@ < self.spec_state_count(),
        ensures
            accept == match self.spec_accepts()[state@ as int] {
                Some(value) => Some(&value),
                None => None::<&A>,
            },
    {
        self.table.accept(state)
    }

    /// Returns the start states in declaration sequence.
    pub fn start_states(&self) -> (starts: &[StateId])
        ensures
            starts@ == self.spec_starts(),
    {
        self.table.start_states()
    }

    /// Returns the start state at `index`.
    pub fn start_state(&self, index: usize) -> (start: StateId)
        requires
            index < self.spec_starts().len(),
        ensures
            start == self.spec_starts()[index as int],
    {
        self.table.start_state(index)
    }

    /// Takes the accept values out of the automaton, one for each state.
    pub fn into_accepts(self) -> (accepts: Vec<Option<A>>)
        ensures
            accepts@ == self.spec_accepts(),
    {
        self.table.into_accepts()
    }

    /// Returns the target that matches `symbol`, or `None` for the dead state.
    ///
    /// The step reads the transitions in their sequence and stops at the first
    /// that matches; no other transition of the state matches the symbol.
    pub fn step(&self, state: StateId, symbol: L::Symbol) -> (target: Option<StateId>)
        requires
            self.well_formed(),
            state@ < self.spec_state_count(),
        ensures
            target == target_of(self.spec_transitions()[state@ as int], symbol),
            target matches Some(next) ==> next@ < self.spec_state_count(),
    {
        let transitions = self.transitions(state);
        let ghost groups = self.spec_transitions();
        let mut i: usize = 0;
        while i < transitions.len()
            invariant
                self.well_formed(),
                groups == self.spec_transitions(),
                state@ < self.spec_state_count(),
                transitions@ == groups[state@ as int],
                i <= transitions@.len(),
                forall|k: int| 0 <= k < i ==> !(#[trigger] transitions@[k].label.spec_matches(symbol)),
            decreases transitions@.len() - i,
        {
            if transitions[i].label.matches(symbol) {
                proof {
                    let k = choose|k: int|
                        0 <= k < transitions@.len() && #[trigger] transitions@[k].label.spec_matches(
                            symbol,
                        );
                    if k != i {
                        if k < i {
                        } else {
                            assert(groups[state@ as int][i as int].label.spec_matches(symbol));
                            assert(!groups[state@ as int][k].label.spec_matches(symbol));
                        }
                    }
                }
                return Some(transitions[i].target);
            }
            i = i + 1;
        }
        None
    }
}

impl<L: Label, A> Automaton for Dfa<L, A> {
    type Label = L;

    open spec fn well_formed(&self) -> bool {
        Dfa::well_formed(self)
    }

    open spec fn spec_size(&self) -> nat {
        self.spec_state_count()
    }

    open spec fn spec_moves(&self, index: int) -> Seq<Transition<L>> {
        self.spec_transitions()[index]
    }

    open spec fn spec_is_accepting(&self, index: int) -> bool {
        self.spec_accepts()[index] is Some
    }

    open spec fn spec_entry_states(&self) -> Seq<StateId> {
        self.spec_starts()
    }

    fn state_count(&self) -> (count: usize) {
        Dfa::state_count(self)
    }

    fn transitions(&self, id: StateId) -> (transitions: &[Transition<L>]) {
        Dfa::transitions(self, id)
    }

    fn accepts(&self, id: StateId) -> (accepts: bool) {
        Dfa::accepts(self, id)
    }

    fn start_states(&self) -> (starts: &[StateId]) {
        Dfa::start_states(self)
    }
}

} // verus!
