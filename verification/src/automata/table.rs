use vstd::prelude::*;

use super::adjacency::{AdjacencyList, AdjacencyListBuilder, flatten, group_of, sources_below};
use super::automaton::Transition;
use super::error::BuildError;
use super::id::StateId;

verus! {

/// The number of the indexes that a [`StateId`] can hold.
pub const STATE_IDENTIFIERS: u64 = 0x1_0000_0000;

/// The most states that one automaton holds: each index that a [`StateId`]
/// can hold, or as many as a `usize` counts where that is fewer.
pub open spec fn spec_state_capacity() -> nat {
    if STATE_IDENTIFIERS <= usize::MAX {
        STATE_IDENTIFIERS as nat
    } else {
        usize::MAX as nat
    }
}

/// Returns the most states that one automaton holds.
pub fn state_capacity() -> (capacity: usize)
    ensures
        capacity == spec_state_capacity(),
{
    if STATE_IDENTIFIERS <= usize::MAX as u64 {
        STATE_IDENTIFIERS as usize
    } else {
        usize::MAX
    }
}

/// The most transitions that one group of transitions holds.
pub const TRANSITION_CAPACITY: u32 = 0xFFFF_FFFF;

/// Whether each transition of `groups` goes to a state below `count`.
pub open spec fn targets_below<L>(groups: Seq<Seq<Transition<L>>>, count: int) -> bool {
    forall|s: int, t: int|
        0 <= s < groups.len() && 0 <= t < groups[s].len() ==> (#[trigger] groups[s][t]).target@
            < count
}

/// Whether each state of `starts` is below `count`, and there is at least one.
pub open spec fn starts_below(starts: Seq<StateId>, count: int) -> bool {
    &&& starts.len() > 0
    &&& forall|i: int| 0 <= i < starts.len() ==> (#[trigger] starts[i])@ < count
}

/// The shared states of a finite automaton.
///
/// The table holds labeled transitions, accept values, and start states. A
/// nondeterministic automaton adds its epsilon transitions. A deterministic
/// automaton needs no other state storage.
///
/// The table does not require disjoint transition labels. A nondeterministic
/// automaton permits overlapping labels. A deterministic automaton establishes
/// that stronger invariant itself.
#[derive(Debug, PartialEq, Eq)]
pub struct StateTable<L, A> {
    transitions: AdjacencyList<Transition<L>>,
    accepts: Vec<Option<A>>,
    starts: Vec<StateId>,
}

impl<L, A> StateTable<L, A> {
    /// The transitions of each state, in the sequence in which they arrived.
    pub closed spec fn spec_transitions(&self) -> Seq<Seq<Transition<L>>> {
        self.transitions.view()
    }

    /// The accept value of each state, `None` for a state that does not accept.
    pub closed spec fn spec_accepts(&self) -> Seq<Option<A>> {
        self.accepts@
    }

    /// The start states, in their declared sequence.
    pub closed spec fn spec_starts(&self) -> Seq<StateId> {
        self.starts@
    }

    /// The number of the states.
    pub open spec fn spec_state_count(&self) -> nat {
        self.spec_accepts().len()
    }

    /// Whether the parts of the table agree: one group of transitions for
    /// each state, each target and each start in the table, and at least one
    /// start.
    pub open spec fn well_formed(&self) -> bool {
        &&& self.spec_transitions().len() == self.spec_accepts().len()
        &&& self.spec_accepts().len() <= STATE_IDENTIFIERS
        &&& starts_below(self.spec_starts(), self.spec_state_count() as int)
        &&& targets_below(self.spec_transitions(), self.spec_state_count() as int)
        &&& flatten(self.spec_transitions()).len() <= TRANSITION_CAPACITY
    }

    /// Creates a state table from its parallel storage.
    pub fn new(
        transitions: AdjacencyList<Transition<L>>,
        accepts: Vec<Option<A>>,
        starts: Vec<StateId>,
    ) -> (table: Self)
        requires
            transitions.view().len() == accepts@.len(),
            accepts@.len() <= STATE_IDENTIFIERS,
            starts_below(starts@, accepts@.len() as int),
            targets_below(transitions.view(), accepts@.len() as int),
            flatten(transitions.view()).len() <= TRANSITION_CAPACITY,
        ensures
            table.well_formed(),
            table.spec_transitions() == transitions.view(),
            table.spec_accepts() == accepts@,
            table.spec_starts() == starts@,
    {
        StateTable { transitions, accepts, starts }
    }

    /// Returns the number of states in the table.
    pub fn state_count(&self) -> (count: usize)
        ensures
            count == self.spec_state_count(),
    {
        self.accepts.len()
    }

    /// Returns the labeled transitions from `state`.
    pub fn transitions(&self, state: StateId) -> (transitions: &[Transition<L>])
        requires
            self.well_formed(),
            state@ < self.spec_state_count(),
        ensures
            transitions@ == self.spec_transitions()[state@ as int],
    {
        match self.transitions.get(state) {
            Some(group) => group,
            None => {
                proof {
                    assert(false);
                }
                &[]
            },
        }
    }

    /// Returns `true` if `state` accepts.
    pub fn accepts(&self, state: StateId) -> (accepts: bool)
        requires
            state@ < self.spec_state_count(),
        ensures
            accepts == self.spec_accepts()[state@ as int] is Some,
    {
        self.accepts[state.index()].is_some()
    }

    /// Returns the accept value of `state`, if the state accepts.
    pub fn accept(&self, state: StateId) -> (accept: Option<&A>)
        requires
            state@ < self.spec_state_count(),
        ensures
            accept == match self.spec_accepts()[state@ as int] {
                Some(value) => Some(&value),
                None => None::<&A>,
            },
    {
        self.accepts[state.index()].as_ref()
    }

    /// Returns the start states in their declared sequence.
    pub fn start_states(&self) -> (starts: &[StateId])
        ensures
            starts@ == self.spec_starts(),
    {
        self.starts.as_slice()
    }

    /// Returns the start state at `index`.
    pub fn start_state(&self, index: usize) -> (start: StateId)
        requires
            index < self.spec_starts().len(),
        ensures
            start == self.spec_starts()[index as int],
    {
        self.starts[index]
    }

    /// Takes the accept values out of the table, one for each state.
    pub fn into_accepts(self) -> (accepts: Vec<Option<A>>)
        ensures
            accepts@ == self.spec_accepts(),
    {
        self.accepts
    }
}

/// A shared state table that is not complete.
///
/// The builder owns the parts that the construction of either kind of
/// automaton shares. Each automaton builder adds the storage and invariants of
/// its kind.
///
/// An addition past the capacity records a [`BuildError`]. The builder then
/// takes no more transitions and accepts, and [`build`](Self::build) returns
/// the error.
#[derive(Debug)]
pub struct StateTableBuilder<L, A> {
    transitions: AdjacencyListBuilder<Transition<L>>,
    accepts: Vec<Option<A>>,
    capacity: usize,
    error: Option<BuildError>,
}

impl<L, A> StateTableBuilder<L, A> {
    /// The transitions that the builder holds, each with its source state,
    /// in the sequence in which they arrived.
    pub closed spec fn spec_edges(&self) -> Seq<(StateId, Transition<L>)> {
        self.transitions.view()
    }

    /// The accept value of each state that the builder holds.
    pub closed spec fn spec_accepts(&self) -> Seq<Option<A>> {
        self.accepts@
    }

    /// The most states that the builder holds.
    pub closed spec fn spec_capacity(&self) -> nat {
        self.capacity as nat
    }

    /// The error that the builder recorded, if any.
    pub closed spec fn spec_error(&self) -> Option<BuildError> {
        self.error
    }

    /// The number of the states that the builder holds.
    pub open spec fn spec_state_count(&self) -> nat {
        self.spec_accepts().len()
    }

    /// Whether the transition storage builds up to [`TRANSITION_CAPACITY`]
    /// transitions.
    pub closed spec fn storage_well_formed(&self) -> bool {
        self.transitions.capacity() == TRANSITION_CAPACITY
    }

    /// Whether the parts of the builder agree: each transition leaves a state
    /// of the builder, the builder holds no more states than its capacity, and
    /// an error is the error of that capacity.
    pub open spec fn well_formed(&self) -> bool {
        &&& self.storage_well_formed()
        &&& sources_below(self.spec_edges(), self.spec_state_count() as int)
        &&& self.spec_state_count() <= self.spec_capacity()
        &&& self.spec_capacity() <= STATE_IDENTIFIERS
        &&& self.spec_error() matches Some(error) ==> error == (BuildError::TooManyStates {
            capacity: self.spec_capacity() as usize,
        }) && self.spec_state_count() == self.spec_capacity()
    }

    /// The transitions of the table that a build of this builder gives, one
    /// group for each state.
    pub open spec fn spec_groups(&self) -> Seq<Seq<Transition<L>>> {
        Seq::new(self.spec_state_count(), |state: int| group_of(self.spec_edges(), state))
    }

    /// Whether a build of this builder with `starts` gives a table rather
    /// than an error.
    pub open spec fn builds(&self) -> bool {
        &&& self.spec_error() is None
        &&& self.spec_edges().len() <= TRANSITION_CAPACITY
    }

    /// Creates a builder that holds no state.
    pub fn new() -> (builder: Self)
        ensures
            builder.well_formed(),
            builder.spec_edges().len() == 0,
            builder.spec_state_count() == 0,
            builder.spec_capacity() == spec_state_capacity(),
            builder.spec_error() is None,
    {
        StateTableBuilder {
            transitions: AdjacencyListBuilder::new(),
            accepts: Vec::new(),
            capacity: state_capacity(),
            error: None,
        }
    }

    /// Creates a builder that holds at most `capacity` states.
    pub fn with_capacity(capacity: usize) -> (builder: Self)
        requires
            capacity <= STATE_IDENTIFIERS,
        ensures
            builder.well_formed(),
            builder.spec_edges().len() == 0,
            builder.spec_state_count() == 0,
            builder.spec_capacity() == capacity,
            builder.spec_error() is None,
    {
        StateTableBuilder {
            transitions: AdjacencyListBuilder::new(),
            accepts: Vec::new(),
            capacity,
            error: None,
        }
    }

    /// Returns the number of states that the builder holds.
    pub fn state_count(&self) -> (count: usize)
        ensures
            count == self.spec_state_count(),
    {
        self.accepts.len()
    }

    /// Returns `true` if the builder recorded an error.
    pub fn has_error(&self) -> (error: bool)
        ensures
            error == self.spec_error() is Some,
    {
        self.error.is_some()
    }

    /// Returns `true` if the builder holds `state`.
    pub fn contains(&self, state: StateId) -> (contains: bool)
        ensures
            contains == (state@ < self.spec_state_count()),
    {
        state.index() < self.accepts.len()
    }

    /// Adds a state, then returns its identifier.
    ///
    /// An addition past the capacity records a [`BuildError`] and returns a
    /// placeholder identifier.
    pub fn add_state(&mut self) -> (state: StateId)
        requires
            old(self).well_formed(),
        ensures
            final(self).well_formed(),
            final(self).spec_edges() == old(self).spec_edges(),
            final(self).spec_capacity() == old(self).spec_capacity(),
            old(self).spec_state_count() < old(self).spec_capacity() ==> {
                &&& state@ == old(self).spec_state_count()
                &&& final(self).spec_accepts() == old(self).spec_accepts().push(None)
                &&& final(self).spec_error() == old(self).spec_error()
            },
            old(self).spec_state_count() >= old(self).spec_capacity() ==> {
                &&& state@ == 0
                &&& final(self).spec_accepts() == old(self).spec_accepts()
                &&& final(self).spec_error() == Some(
                    BuildError::TooManyStates { capacity: old(self).spec_capacity() as usize },
                )
            },
    {
        let count = self.accepts.len();
        if count >= self.capacity {
            let capacity = self.capacity;
            self.error = Some(BuildError::TooManyStates { capacity });
            return StateId::new(0);
        }
        let state = StateId::new(count);
        self.accepts.push(None);
        proof {
            assert forall|i: int| 0 <= i < self.spec_edges().len() implies (
            #[trigger] self.spec_edges()[i]).0@ < self.spec_state_count() by {
                assert(old(self).spec_edges()[i] == self.spec_edges()[i]);
            }
        }
        state
    }

    /// Adds a labeled transition from `from` to `to`.
    ///
    /// `to` can refer to a state that the caller adds later. A builder that
    /// recorded an error takes no transition.
    pub fn add_transition(&mut self, from: StateId, label: L, to: StateId)
        requires
            old(self).well_formed(),
            old(self).spec_error() is None ==> from@ < old(self).spec_state_count(),
        ensures
            final(self).well_formed(),
            final(self).spec_accepts() == old(self).spec_accepts(),
            final(self).spec_capacity() == old(self).spec_capacity(),
            final(self).spec_error() == old(self).spec_error(),
            final(self).spec_edges() == if old(self).spec_error() is None {
                old(self).spec_edges().push((from, Transition { label, target: to }))
            } else {
                old(self).spec_edges()
            },
    {
        if self.has_error() {
            return;
        }
        self.transitions.add(from, Transition { label, target: to });
        proof {
            assert forall|i: int| 0 <= i < self.spec_edges().len() implies (
            #[trigger] self.spec_edges()[i]).0@ < self.spec_state_count() by {
                if i < old(self).spec_edges().len() {
                    assert(old(self).spec_edges()[i] == self.spec_edges()[i]);
                }
            }
        }
    }

    /// Sets the accept value of `state`, then returns its prior value.
    ///
    /// A builder that recorded an error takes no accept, and returns `None`.
    pub fn set_accept(&mut self, state: StateId, accept: A) -> (prior: Option<A>)
        requires
            old(self).well_formed(),
            old(self).spec_error() is None ==> state@ < old(self).spec_state_count(),
        ensures
            final(self).well_formed(),
            final(self).spec_edges() == old(self).spec_edges(),
            final(self).spec_capacity() == old(self).spec_capacity(),
            final(self).spec_error() == old(self).spec_error(),
            old(self).spec_error() is None ==> {
                &&& prior == old(self).spec_accepts()[state@ as int]
                &&& final(self).spec_accepts() == old(self).spec_accepts().update(
                    state@ as int,
                    Some(accept),
                )
            },
            old(self).spec_error() is Some ==> {
                &&& prior is None
                &&& final(self).spec_accepts() == old(self).spec_accepts()
            },
    {
        if self.has_error() {
            return None;
        }
        let mut slot = Some(accept);
        std::mem::swap(&mut self.accepts[state.index()], &mut slot);
        slot
    }

    /// Builds a table with the given start states.
    ///
    /// A recorded error comes back first. A build of more transitions than a
    /// group of transitions holds returns
    /// [`BuildError::TooManyTransitions`].
    pub fn build(self, starts: &[StateId]) -> (result: Result<StateTable<L, A>, BuildError>)
        requires
            self.well_formed(),
            self.builds() ==> starts_below(starts@, self.spec_state_count() as int),
            self.builds() ==> targets_below(self.spec_groups(), self.spec_state_count() as int),
        ensures
            self.spec_error() matches Some(error) ==> result == Err::<StateTable<L, A>, BuildError>(
                error,
            ),
            self.spec_error() is None && !self.builds() ==> result == Err::<
                StateTable<L, A>,
                BuildError,
            >(BuildError::TooManyTransitions { capacity: TRANSITION_CAPACITY as usize }),
            self.builds() <==> result is Ok,
            result matches Ok(table) ==> {
                &&& table.well_formed()
                &&& table.spec_transitions() == self.spec_groups()
                &&& table.spec_accepts() == self.spec_accepts()
                &&& table.spec_starts() == starts@
            },
    {
        let StateTableBuilder { transitions, accepts, capacity: _, error } = self;
        if let Some(error) = error {
            return Err(error);
        }
        let count = accepts.len();
        let transitions = match transitions.build(count) {
            Ok(list) => list,
            Err(error) => {
                return Err(error);
            },
        };
        let starts = copied(starts);
        proof {
            assert(transitions.view() =~= self.spec_groups());
        }
        Ok(StateTable::new(transitions, accepts, starts))
    }
}

/// Returns the identifiers of `states` in a vector of their own.
pub fn copied(states: &[StateId]) -> (copy: Vec<StateId>)
    ensures
        copy@ == states@,
{
    let mut copy: Vec<StateId> = Vec::new();
    let mut i: usize = 0;
    while i < states.len()
        invariant
            i <= states@.len(),
            copy@ == states@.take(i as int),
        decreases states@.len() - i,
    {
        copy.push(states[i]);
        i = i + 1;
        proof {
            assert(copy@ =~= states@.take(i as int));
        }
    }
    proof {
        assert(states@.take(states@.len() as int) =~= states@);
    }
    copy
}

impl<L, A> Default for StateTableBuilder<L, A> {
    /// Returns a builder that holds no state, with the capacity of each state identifier.
    fn default() -> (builder: Self)
        ensures
            builder.well_formed(),
            builder.spec_edges().len() == 0,
            builder.spec_state_count() == 0,
            builder.spec_capacity() == spec_state_capacity(),
            builder.spec_error() is None,
    {
        Self::new()
    }
}

} // verus!
