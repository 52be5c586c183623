use vstd::prelude::*;

use super::automaton::{Dfa, deterministic};
use crate::automata::automaton::Transition;
use crate::automata::error::BuildError;
use crate::automata::id::StateId;
use crate::automata::label::Label;
use crate::automata::table::{
    STATE_IDENTIFIERS,
    StateTableBuilder,
    TRANSITION_CAPACITY,
    spec_state_capacity,
    starts_below,
    targets_below,
};

verus! {

/// Collects states for a [`Dfa`].
///
/// A transition target can refer to a state that the caller adds later. The
/// outgoing labels of one state must be disjoint.
#[derive(Debug)]
pub struct Builder<L, A = ()> {
    table: StateTableBuilder<L, A>,
}

impl<L, A> Builder<L, A> {
    /// The shared state table under construction.
    pub closed spec fn spec_table(&self) -> StateTableBuilder<L, A> {
        self.table
    }

    /// The number of the states that the builder holds.
    pub open spec fn spec_state_count(&self) -> nat {
        self.spec_table().spec_state_count()
    }

    /// Whether the builder is consistent.
    pub open spec fn well_formed(&self) -> bool {
        self.spec_table().well_formed()
    }

    /// Creates an empty builder.
    pub fn new() -> (builder: Self)
        ensures
            builder.well_formed(),
            builder.spec_state_count() == 0,
            builder.spec_table().spec_edges().len() == 0,
            builder.spec_table().spec_capacity() == spec_state_capacity(),
            builder.spec_table().spec_error() is None,
    {
        Builder { table: StateTableBuilder::new() }
    }

    /// Creates a builder with the given state capacity.
    pub fn with_capacity(capacity: usize) -> (builder: Self)
        requires
            capacity <= STATE_IDENTIFIERS,
        ensures
            builder.well_formed(),
            builder.spec_state_count() == 0,
            builder.spec_table().spec_edges().len() == 0,
            builder.spec_table().spec_capacity() == capacity,
            builder.spec_table().spec_error() is None,
    {
        Builder { table: StateTableBuilder::with_capacity(capacity) }
    }

    /// Returns the current state count.
    pub fn state_count(&self) -> (count: usize)
        ensures
            count == self.spec_state_count(),
    {
        self.table.state_count()
    }

    /// Adds a state and returns its identifier.
    ///
    /// An addition past the capacity records an error and returns a placeholder.
    pub fn add_state(&mut self) -> (state: StateId)
        requires
            old(self).well_formed(),
        ensures
            final(self).well_formed(),
            final(self).spec_table().spec_edges() == old(self).spec_table().spec_edges(),
            final(self).spec_table().spec_capacity() == old(self).spec_table().spec_capacity(),
            old(self).spec_state_count() < old(self).spec_table().spec_capacity() ==> {
                &&& state@ == old(self).spec_state_count()
                &&& final(self).spec_table().spec_accepts() == old(
                    self,
                ).spec_table().spec_accepts().push(None)
                &&& final(self).spec_table().spec_error() == old(self).spec_table().spec_error()
            },
            old(self).spec_state_count() >= old(self).spec_table().spec_capacity() ==> {
                &&& state@ == 0
                &&& final(self).spec_table().spec_accepts() == old(self).spec_table().spec_accepts()
                &&& final(self).spec_table().spec_error() == Some(
                    BuildError::TooManyStates {
                        capacity: old(self).spec_table().spec_capacity() as usize,
                    },
                )
            },
    {
        self.table.add_state()
    }

    /// Adds a transition from `from` to `to`.
    ///
    /// A builder that recorded an error takes no transition.
    pub fn add_transition(&mut self, from: StateId, label: L, to: StateId)
        requires
            old(self).well_formed(),
            old(self).spec_table().spec_error() is None ==> from@ < old(self).spec_state_count(),
        ensures
            final(self).well_formed(),
            final(self).spec_table().spec_accepts() == old(self).spec_table().spec_accepts(),
            final(self).spec_table().spec_capacity() == old(self).spec_table().spec_capacity(),
            final(self).spec_table().spec_error() == old(self).spec_table().spec_error(),
            final(self).spec_table().spec_edges() == if old(self).spec_table().spec_error() is None {
                old(self).spec_table().spec_edges().push((from, Transition { label, target: to }))
            } else {
                old(self).spec_table().spec_edges()
            },
    {
        self.table.add_transition(from, label, to);
    }

    /// Sets the accept value and returns the prior value.
    ///
    /// A builder that recorded an error takes no accept, and returns `None`.
    pub fn set_accept(&mut self, state: StateId, accept: A) -> (prior: Option<A>)
        requires
            old(self).well_formed(),
            old(self).spec_table().spec_error() is None ==> state@ < old(self).spec_state_count(),
        ensures
            final(self).well_formed(),
            final(self).spec_table().spec_edges() == old(self).spec_table().spec_edges(),
            final(self).spec_table().spec_capacity() == old(self).spec_table().spec_capacity(),
            final(self).spec_table().spec_error() == old(self).spec_table().spec_error(),
            old(self).spec_table().spec_error() is None ==> {
                &&& prior == old(self).spec_table().spec_accepts()[state@ as int]
                &&& final(self).spec_table().spec_accepts() == old(
                    self,
                ).spec_table().spec_accepts().update(state@ as int, Some(accept))
            },
            old(self).spec_table().spec_error() is Some ==> {
                &&& prior is None
                &&& final(self).spec_table().spec_accepts() == old(self).spec_table().spec_accepts()
            },
    {
        self.table.set_accept(state, accept)
    }

}

impl<L: Label, A> Builder<L, A> {
    /// Builds an automaton with `starts` as its start states.
    ///
    /// A recorded capacity error comes back first, then an error of too many
    /// transitions.
    pub fn build(self, starts: &[StateId]) -> (result: Result<Dfa<L, A>, BuildError>)
        requires
            self.well_formed(),
            self.spec_table().builds() ==> starts_below(starts@, self.spec_state_count() as int),
            self.spec_table().builds() ==> targets_below(
                self.spec_table().spec_groups(),
                self.spec_state_count() as int,
            ),
            self.spec_table().builds() ==> deterministic(self.spec_table().spec_groups()),
        ensures
            self.spec_table().builds() <==> result is Ok,
            self.spec_table().spec_error() matches Some(error) ==> result == Err::<
                Dfa<L, A>,
                BuildError,
            >(error),
            self.spec_table().spec_error() is None && !self.spec_table().builds() ==> result
                == Err::<Dfa<L, A>, BuildError>(
                BuildError::TooManyTransitions { capacity: TRANSITION_CAPACITY as usize },
            ),
            result matches Ok(dfa) ==> {
                &&& dfa.well_formed()
                &&& dfa.spec_transitions() == self.spec_table().spec_groups()
                &&& dfa.spec_accepts() == self.spec_table().spec_accepts()
                &&& dfa.spec_starts() == starts@
            },
    {
        match self.table.build(starts) {
            Ok(table) => Ok(Dfa::new(table)),
            Err(error) => Err(error),
        }
    }
}

impl<L, A> Default for Builder<L, A> {
    /// Returns an empty builder.
    fn default() -> (builder: Self)
        ensures
            builder.well_formed(),
            builder.spec_state_count() == 0,
            builder.spec_table().spec_edges().len() == 0,
            builder.spec_table().spec_capacity() == spec_state_capacity(),
            builder.spec_table().spec_error() is None,
    {
        Self::new()
    }
}

impl<L> Builder<L> {
    /// Marks `state` as an accept state.
    pub fn mark_accept(&mut self, state: StateId)
        requires
            old(self).well_formed(),
            old(self).spec_table().spec_error() is None ==> state@ < old(self).spec_state_count(),
        ensures
            final(self).well_formed(),
            final(self).spec_table().spec_edges() == old(self).spec_table().spec_edges(),
            final(self).spec_table().spec_capacity() == old(self).spec_table().spec_capacity(),
            final(self).spec_table().spec_error() == old(self).spec_table().spec_error(),
            old(self).spec_table().spec_error() is None ==> final(self).spec_table().spec_accepts()
                == old(self).spec_table().spec_accepts().update(state@ as int, Some(())),
            old(self).spec_table().spec_error() is Some ==> final(self).spec_table().spec_accepts()
                == old(self).spec_table().spec_accepts(),
    {
        let _ = self.set_accept(state, ());
    }
}

} // verus!
