use vstd::prelude::*;

use super::automaton::{Nfa, epsilon_targets_below};
use crate::automata::adjacency::{AdjacencyListBuilder, group_of, sources_below};
use crate::automata::automaton::Transition;
use crate::automata::error::BuildError;
use crate::automata::id::StateId;
use crate::automata::table::{
    STATE_IDENTIFIERS,
    StateTableBuilder,
    TRANSITION_CAPACITY,
    spec_state_capacity,
    starts_below,
    targets_below,
};

verus! {

/// Collects states for an [`Nfa`].
///
/// A transition target can refer to a state that the caller adds later.
#[derive(Debug)]
pub struct Builder<L, A = ()> {
    table: StateTableBuilder<L, A>,
    epsilons: AdjacencyListBuilder<StateId>,
}

impl<L, A> Builder<L, A> {
    /// The shared state table under construction.
    pub closed spec fn spec_table(&self) -> StateTableBuilder<L, A> {
        self.table
    }

    /// The epsilon transitions, each with its source, in the sequence in
    /// which they arrived.
    pub closed spec fn spec_epsilon_edges(&self) -> Seq<(StateId, StateId)> {
        self.epsilons.view()
    }

    /// Whether the epsilon storage builds up to [`TRANSITION_CAPACITY`]
    /// transitions.
    pub closed spec fn storage_well_formed(&self) -> bool {
        self.epsilons.capacity() == TRANSITION_CAPACITY
    }

    /// The number of the states that the builder holds.
    pub open spec fn spec_state_count(&self) -> nat {
        self.spec_table().spec_state_count()
    }

    /// Whether the builder is consistent: its table is, and each epsilon
    /// transition leaves a state of the builder.
    pub open spec fn well_formed(&self) -> bool {
        &&& self.spec_table().well_formed()
        &&& self.storage_well_formed()
        &&& sources_below(self.spec_epsilon_edges(), self.spec_state_count() as int)
    }

    /// The epsilon targets of each state that a build gives.
    pub open spec fn spec_epsilon_groups(&self) -> Seq<Seq<StateId>> {
        Seq::new(
            self.spec_state_count(),
            |state: int| group_of(self.spec_epsilon_edges(), state),
        )
    }

    /// Whether a build gives an automaton rather than an error.
    pub open spec fn builds(&self) -> bool {
        &&& self.spec_table().builds()
        &&& self.spec_epsilon_edges().len() <= TRANSITION_CAPACITY
    }

    /// Creates an empty builder.
    pub fn new() -> (builder: Self)
        ensures
            builder.well_formed(),
            builder.spec_state_count() == 0,
            builder.spec_table().spec_edges().len() == 0,
            builder.spec_table().spec_capacity() == spec_state_capacity(),
            builder.spec_table().spec_error() is None,
            builder.spec_epsilon_edges().len() == 0,
    {
        Builder { table: StateTableBuilder::new(), epsilons: AdjacencyListBuilder::new() }
    }

    /// Creates a builder with the given state capacity.
    pub fn with_capacity(capacity: usize) -> (builder: Self)
        requires
            capacity <= STATE_IDENTIFIERS,
        ensures
            builder.well_formed(),
            builder.spec_state_count() == 0,
            builder.spec_table().spec_edges().len() == 0,
            builder.spec_table().spec_capacity() == capacity,
            builder.spec_table().spec_error() is None,
            builder.spec_epsilon_edges().len() == 0,
    {
        Builder {
            table: StateTableBuilder::with_capacity(capacity),
            epsilons: AdjacencyListBuilder::new(),
        }
    }

    /// Returns the current state count.
    pub fn state_count(&self) -> (count: usize)
        ensures
            count == self.spec_state_count(),
    {
        self.table.state_count()
    }

    /// Adds a state and returns its identifier.
    ///
    /// An addition past the capacity records an error and returns a placeholder.
    pub fn add_state(&mut self) -> (state: StateId)
        requires
            old(self).well_formed(),
        ensures
            final(self).well_formed(),
            final(self).spec_epsilon_edges() == old(self).spec_epsilon_edges(),
            final(self).spec_table().spec_edges() == old(self).spec_table().spec_edges(),
            final(self).spec_table().spec_capacity() == old(self).spec_table().spec_capacity(),
            old(self).spec_state_count() < old(self).spec_table().spec_capacity() ==> {
                &&& state@ == old(self).spec_state_count()
                &&& final(self).spec_table().spec_accepts() == old(
                    self,
                ).spec_table().spec_accepts().push(None)
                &&& final(self).spec_table().spec_error() == old(self).spec_table().spec_error()
            },
            old(self).spec_state_count() >= old(self).spec_table().spec_capacity() ==> {
                &&& state@ == 0
                &&& final(self).spec_table().spec_accepts() == old(self).spec_table().spec_accepts()
                &&& final(self).spec_table().spec_error() == Some(
                    BuildError::TooManyStates {
                        capacity: old(self).spec_table().spec_capacity() as usize,
                    },
                )
            },
    {
        let state = self.table.add_state();
        proof {
            assert forall|i: int| 0 <= i < self.spec_epsilon_edges().len() implies (
            #[trigger] self.spec_epsilon_edges()[i]).0@ < self.spec_state_count() by {
                assert(old(self).spec_epsilon_edges()[i] == self.spec_epsilon_edges()[i]);
            }
        }
        state
    }

    /// Adds a transition from `from` to `to`.
    ///
    /// A builder that recorded an error takes no transition.
    pub fn add_transition(&mut self, from: StateId, label: L, to: StateId)
        requires
            old(self).well_formed(),
            old(self).spec_table().spec_error() is None ==> from@ < old(self).spec_state_count(),
        ensures
            final(self).well_formed(),
            final(self).spec_epsilon_edges() == old(self).spec_epsilon_edges(),
            final(self).spec_table().spec_accepts() == old(self).spec_table().spec_accepts(),
            final(self).spec_table().spec_capacity() == old(self).spec_table().spec_capacity(),
            final(self).spec_table().spec_error() == old(self).spec_table().spec_error(),
            final(self).spec_table().spec_edges() == if old(self).spec_table().spec_error() is None {
                old(self).spec_table().spec_edges().push((from, Transition { label, target: to }))
            } else {
                old(self).spec_table().spec_edges()
            },
    {
        self.table.add_transition(from, label, to);
    }

    /// Adds an epsilon transition from `from` to `to`.
    ///
    /// A builder that recorded an error takes no transition.
    pub fn add_epsilon_transition(&mut self, from: StateId, to: StateId)
        requires
            old(self).well_formed(),
            old(self).spec_table().spec_error() is None ==> from@ < old(self).spec_state_count(),
        ensures
            final(self).well_formed(),
            final(self).spec_table() == old(self).spec_table(),
            final(self).spec_epsilon_edges() == if old(self).spec_table().spec_error() is None {
                old(self).spec_epsilon_edges().push((from, to))
            } else {
                old(self).spec_epsilon_edges()
            },
    {
        if self.table.has_error() {
            return;
        }
        self.epsilons.add(from, to);
        proof {
            assert forall|i: int| 0 <= i < self.spec_epsilon_edges().len() implies (
            #[trigger] self.spec_epsilon_edges()[i]).0@ < self.spec_state_count() by {
                if i < old(self).spec_epsilon_edges().len() {
                    assert(old(self).spec_epsilon_edges()[i] == self.spec_epsilon_edges()[i]);
                }
            }
        }
    }

    /// Sets the accept value and returns the prior value.
    ///
    /// A builder that recorded an error takes no accept, and returns `None`.
    pub fn set_accept(&mut self, state: StateId, accept: A) -> (prior: Option<A>)
        requires
            old(self).well_formed(),
            old(self).spec_table().spec_error() is None ==> state@ < old(self).spec_state_count(),
        ensures
            final(self).well_formed(),
            final(self).spec_epsilon_edges() == old(self).spec_epsilon_edges(),
            final(self).spec_table().spec_edges() == old(self).spec_table().spec_edges(),
            final(self).spec_table().spec_capacity() == old(self).spec_table().spec_capacity(),
            final(self).spec_table().spec_error() == old(self).spec_table().spec_error(),
            old(self).spec_table().spec_error() is None ==> {
                &&& prior == old(self).spec_table().spec_accepts()[state@ as int]
                &&& final(self).spec_table().spec_accepts() == old(
                    self,
                ).spec_table().spec_accepts().update(state@ as int, Some(accept))
            },
            old(self).spec_table().spec_error() is Some ==> {
                &&& prior is None
                &&& final(self).spec_table().spec_accepts() == old(self).spec_table().spec_accepts()
            },
    {
        self.table.set_accept(state, accept)
    }

    /// Builds an automaton with `starts` as its start states.
    ///
    /// A recorded capacity error comes back first, then an error of too many
    /// transitions of either kind.
    pub fn build(self, starts: &[StateId]) -> (result: Result<Nfa<L, A>, BuildError>)
        requires
            self.well_formed(),
            self.spec_table().builds() ==> starts_below(starts@, self.spec_state_count() as int),
            self.spec_table().builds() ==> targets_below(
                self.spec_table().spec_groups(),
                self.spec_state_count() as int,
            ),
            self.builds() ==> epsilon_targets_below(
                self.spec_epsilon_groups(),
                self.spec_state_count() as int,
            ),
        ensures
            self.builds() <==> result is Ok,
            self.spec_table().spec_error() matches Some(error) ==> result == Err::<
                Nfa<L, A>,
                BuildError,
            >(error),
            self.spec_table().spec_error() is None && !self.builds() ==> result == Err::<
                Nfa<L, A>,
                BuildError,
            >(BuildError::TooManyTransitions { capacity: TRANSITION_CAPACITY as usize }),
            result matches Ok(nfa) ==> {
                &&& nfa.well_formed()
                &&& nfa.spec_transitions() == self.spec_table().spec_groups()
                &&& nfa.spec_accepts() == self.spec_table().spec_accepts()
                &&& nfa.spec_starts() == starts@
                &&& nfa.spec_epsilons() == self.spec_epsilon_groups()
            },
    {
        let Builder { table, epsilons } = self;
        let count = table.state_count();
        let table = match table.build(starts) {
            Ok(table) => table,
            Err(error) => {
                return Err(error);
            },
        };
        let epsilons = match epsilons.build(count) {
            Ok(list) => list,
            Err(error) => {
                return Err(error);
            },
        };
        proof {
            assert(epsilons.view() =~= self.spec_epsilon_groups());
        }
        Ok(Nfa::new(table, epsilons))
    }
}

impl<L, A> Default for Builder<L, A> {
    /// Returns an empty builder.
    fn default() -> (builder: Self)
        ensures
            builder.well_formed(),
            builder.spec_state_count() == 0,
            builder.spec_table().spec_edges().len() == 0,
            builder.spec_table().spec_capacity() == spec_state_capacity(),
            builder.spec_table().spec_error() is None,
            builder.spec_epsilon_edges().len() == 0,
    {
        Self::new()
    }
}

impl<L> Builder<L> {
    /// Marks `state` as an accept state.
    pub fn mark_accept(&mut self, state: StateId)
        requires
            old(self).well_formed(),
            old(self).spec_table().spec_error() is None ==> state@ < old(self).spec_state_count(),
        ensures
            final(self).well_formed(),
            final(self).spec_epsilon_edges() == old(self).spec_epsilon_edges(),
            final(self).spec_table().spec_edges() == old(self).spec_table().spec_edges(),
            final(self).spec_table().spec_capacity() == old(self).spec_table().spec_capacity(),
            final(self).spec_table().spec_error() == old(self).spec_table().spec_error(),
            old(self).spec_table().spec_error() is None ==> final(self).spec_table().spec_accepts()
                == old(self).spec_table().spec_accepts().update(state@ as int, Some(())),
            old(self).spec_table().spec_error() is Some ==> final(self).spec_table().spec_accepts()
                == old(self).spec_table().spec_accepts(),
    {
        let _ = self.set_accept(state, ());
    }
}

} // verus!
