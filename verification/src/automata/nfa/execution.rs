use vstd::prelude::*;

use super::automaton::{Nfa, moves, lemma_moves};
use super::closure::{closure, closed_under, epsilon_closure};
use crate::automata::automaton::{Automaton, Transition};
use crate::automata::execution::{self as scan_api, Match};
use crate::automata::scanner::Scanner;
use crate::automata::id::StateId;
use crate::automata::label::Label;
use crate::automata::state_set::{StateSet, ascending, id_set, lemma_ascending};

verus! {

/// The states at which a restart at `start` puts a scan of `nfa`: the
/// closure of that start state, in ascending sequence.
pub open spec fn start_states<L, A>(nfa: &Nfa<L, A>, start: int) -> Seq<StateId> {
    ascending(
        closure(nfa.spec_epsilons(), set![nfa.spec_starts()[start]@]),
        nfa.spec_state_count(),
    )
}

/// The states that reading `symbol` in `states` takes a scan of `nfa` to:
/// the closure of each target of a matching transition, in ascending
/// sequence.
pub open spec fn next_states<L: Label, A>(
    nfa: &Nfa<L, A>,
    states: Seq<StateId>,
    symbol: L::Symbol,
) -> Seq<StateId> {
    ascending(
        closure(nfa.spec_epsilons(), id_set(moves(nfa.spec_transitions(), states, symbol))),
        nfa.spec_state_count(),
    )
}

/// The states of a scan of `nfa` under `start` after it reads `input`.
pub open spec fn scan<L: Label, A>(nfa: &Nfa<L, A>, start: int, input: Seq<L::Symbol>) -> Seq<
    StateId,
>
    decreases input.len(),
{
    if input.len() == 0 {
        start_states(nfa, start)
    } else {
        next_states(nfa, scan(nfa, start, input.drop_last()), input.last())
    }
}

/// Whether a state of `states` accepts in `nfa`.
pub open spec fn accepting<L, A>(nfa: &Nfa<L, A>, states: Seq<StateId>) -> bool {
    exists|k: int|
        0 <= k < states.len() && (#[trigger] nfa.spec_accepts()[states[k]@ as int]) is Some
}

/// Whether two automata scan the same way: the same number of starts, the
/// same states after each input, and the same accepting sets of states.
pub open spec fn same_scan<L: Label, A>(first: &Nfa<L, A>, second: &Nfa<L, A>) -> bool {
    &&& first.spec_starts().len() == second.spec_starts().len()
    &&& forall|start: int, input: Seq<L::Symbol>| #[trigger]
        scan(first, start, input) == scan(second, start, input)
    &&& forall|states: Seq<StateId>| #[trigger]
        accepting(first, states) == accepting(second, states)
}

/// The closure of no state is no state, and no state in ascending sequence
/// is the empty sequence.
pub proof fn lemma_no_state(epsilons: Seq<Seq<StateId>>, count: nat)
    requires
        count <= crate::automata::table::STATE_IDENTIFIERS,
    ensures
        ascending(closure(epsilons, Set::empty()), count) == Seq::<StateId>::empty(),
{
    let empty = Set::<nat>::empty();
    assert(closed_under(epsilons, empty));
    assert(closure(epsilons, empty) =~= empty);
    lemma_ascending(empty, count);
    let sequence = ascending(empty, count);
    if sequence.len() > 0 {
        assert(id_set(sequence).contains(sequence[0]@));
        assert(empty.filter(|index: nat| index < count).contains(sequence[0]@));
    }
}

/// Tracks the set of states of one scan of an [`Nfa`].
///
/// The set of states is epsilon-closed. The execution reuses its buffers
/// between steps.
#[derive(Debug)]
pub struct Execution<'a, L, A = ()> {
    nfa: &'a Nfa<L, A>,
    states: StateSet,
    next: Vec<StateId>,
}

impl<'a, L: Label, A> Execution<'a, L, A> {
    /// The automaton that the execution scans.
    pub closed spec fn spec_nfa(&self) -> Nfa<L, A> {
        *self.nfa
    }

    /// Creates an execution with no state.
    pub fn new(nfa: &'a Nfa<L, A>) -> (execution: Self)
        requires
            nfa.well_formed(),
        ensures
            execution.spec_nfa() == *nfa,
            scan_api::Execution::well_formed(&execution),
            scan_api::Execution::spec_states(&execution) == Seq::<StateId>::empty(),
    {
        Execution { nfa, states: StateSet::new(nfa.state_count()), next: Vec::new() }
    }

    /// Returns the longest match at the start of `input` under `start`; see
    /// [`longest_match`](scan_api::longest_match).
    pub fn longest_match<T, F: Fn(&[StateId]) -> T>(
        &mut self,
        start: usize,
        input: &[L::Symbol],
        select: F,
    ) -> (found: Option<Match<T>>)
        requires
            scan_api::Execution::well_formed(&*old(self)),
            start < old(self).spec_nfa().spec_starts().len(),
            forall|states: &[StateId]| #[trigger] call_requires(select, (states,)),
        ensures
            scan_api::Execution::well_formed(&*final(self)),
            same_scan(&final(self).spec_nfa(), &old(self).spec_nfa()),
            found is None <==> forall|length: int|
                0 <= length <= input@.len() ==> !accepting(
                    &old(self).spec_nfa(),
                    #[trigger] scan(&old(self).spec_nfa(), start as int, input@.take(length)),
                ),
            found matches Some(m) ==> {
                &&& m.length <= input@.len()
                &&& accepting(
                    &old(self).spec_nfa(),
                    scan(&old(self).spec_nfa(), start as int, input@.take(m.length as int)),
                )
                &&& forall|length: int|
                    m.length < length <= input@.len() ==> !accepting(
                        &old(self).spec_nfa(),
                        #[trigger] scan(&old(self).spec_nfa(), start as int, input@.take(length)),
                    )
                &&& exists|states: &[StateId]|
                    states@ == scan(&old(self).spec_nfa(), start as int, input@.take(m.length as int))
                        && #[trigger] call_ensures(select, (states,), m.accept)
            },
    {
        let ghost before = *self;
        let found = scan_api::longest_match(self, start, input, select);
        proof {
            let nfa = before.spec_nfa();
            assert forall|length: int|
                #![trigger scan(&nfa, start as int, input@.take(length))]
                #![trigger scan_api::Execution::spec_run(&before, start as int, input@.take(length))]
                0 <= length <= input@.len() implies scan(&nfa, start as int, input@.take(length))
                == scan_api::Execution::spec_run(&before, start as int, input@.take(length))
                && accepting(&nfa, scan(&nfa, start as int, input@.take(length)))
                == scan_api::Execution::spec_accepting(
                    &before,
                    scan_api::Execution::spec_run(&before, start as int, input@.take(length)),
                ) by {}
            let after = *self;
            assert forall|start: int, input: Seq<L::Symbol>| #[trigger]
                scan(&after.spec_nfa(), start, input) == scan(&nfa, start, input) by {
                assert(scan_api::Execution::spec_run(&after, start, input)
                    == scan_api::Execution::spec_run(&before, start, input));
            }
            assert forall|states: Seq<StateId>| #[trigger]
                accepting(&after.spec_nfa(), states) == accepting(&nfa, states) by {
                assert(scan_api::Execution::spec_accepting(&after, states)
                    == scan_api::Execution::spec_accepting(&before, states));
            }
        }
        found
    }
}

impl<'a, L: Label, A> scan_api::Execution for Execution<'a, L, A> {
    type Symbol = L::Symbol;

    closed spec fn well_formed(&self) -> bool {
        &&& self.nfa.well_formed()
        &&& self.states.well_formed()
        &&& self.states.spec_bound() == self.nfa.spec_state_count()
    }

    closed spec fn spec_states(&self) -> Seq<StateId> {
        self.states.view()
    }

    closed spec fn spec_start_count(&self) -> nat {
        self.nfa.spec_starts().len()
    }

    closed spec fn spec_start(&self, start: int) -> Seq<StateId> {
        start_states(self.nfa, start)
    }

    closed spec fn spec_next(&self, states: Seq<StateId>, symbol: L::Symbol) -> Seq<StateId> {
        next_states(self.nfa, states, symbol)
    }

    closed spec fn spec_accepting(&self, states: Seq<StateId>) -> bool {
        accepting(self.nfa, states)
    }

    closed spec fn spec_run(&self, start: int, input: Seq<L::Symbol>) -> Seq<StateId> {
        scan(self.nfa, start, input)
    }

    proof fn lemma_run(&self) {
        lemma_no_state(self.nfa.spec_epsilons(), self.nfa.spec_state_count());
        assert forall|symbol: L::Symbol| #[trigger]
            next_states(self.nfa, Seq::empty(), symbol) == Seq::<StateId>::empty() by {
            assert(id_set(moves(self.nfa.spec_transitions(), Seq::empty(), symbol))
                =~= Set::<nat>::empty());
        }
    }

    fn restart(&mut self, start: usize) {
        let state = self.nfa.start_state(start);
        let seeds = [state];
        proof {
            assert(id_set(seeds@) =~= set![state@]) by {
                assert(seeds@[0] == state);
            }
        }
        epsilon_closure(self.nfa, &seeds, &mut self.states);
    }

    fn step(&mut self, symbol: L::Symbol) -> (alive: bool) {
        proof {
            crate::automata::state_set::lemma_distinct_len(
                self.states.view(),
                self.states.spec_bound(),
            );
        }
        self.next.clear();
        self.nfa.push_moves(self.states.members(), symbol, &mut self.next);
        proof {
            assert(self.next@ =~= moves(self.nfa.spec_transitions(), old(self).states.view(), symbol));
            lemma_moves(self.nfa.spec_transitions(), old(self).states.view(), symbol);
            assert forall|k: int| 0 <= k < self.next@.len() implies (#[trigger] self.next@[k])@
                < self.nfa.spec_state_count() by {
                assert(id_set(self.next@).contains(self.next@[k]@));
            }
        }
        epsilon_closure(self.nfa, &self.next, &mut self.states);
        !self.states.is_empty()
    }

    fn states(&self) -> (states: &[StateId]) {
        self.states.members()
    }

    fn accepts(&self) -> (accepts: bool) {
        let states = self.states.members();
        let mut i: usize = 0;
        while i < states.len()
            invariant
                self.nfa.well_formed(),
                self.states.well_formed(),
                self.states.spec_bound() == self.nfa.spec_state_count(),
                states@ == self.states.view(),
                i <= states@.len(),
                forall|k: int| 0 <= k < i ==> (#[trigger] self.nfa.spec_accepts()[states@[k]@ as int]) is None,
            decreases states@.len() - i,
        {
            if self.nfa.accepts(states[i]) {
                return true;
            }
            i = i + 1;
        }
        false
    }
}

impl<L: Label, A> Nfa<L, A> {
    /// Creates an empty [`Execution`] for this automaton.
    pub fn execution(&self) -> (execution: Execution<'_, L, A>)
        requires
            self.well_formed(),
        ensures
            execution.spec_nfa() == *self,
            scan_api::Execution::well_formed(&execution),
            scan_api::Execution::spec_states(&execution) == Seq::<StateId>::empty(),
    {
        Execution::new(self)
    }
}

impl<L: Label, A> Automaton for Nfa<L, A> {
    type Label = L;

    open spec fn well_formed(&self) -> bool {
        Nfa::well_formed(self)
    }

    open spec fn spec_size(&self) -> nat {
        self.spec_state_count()
    }

    open spec fn spec_moves(&self, index: int) -> Seq<Transition<L>> {
        self.spec_transitions()[index]
    }

    open spec fn spec_is_accepting(&self, index: int) -> bool {
        self.spec_accepts()[index] is Some
    }

    open spec fn spec_entry_states(&self) -> Seq<StateId> {
        self.spec_starts()
    }

    fn state_count(&self) -> (count: usize) {
        Nfa::state_count(self)
    }

    fn transitions(&self, id: StateId) -> (transitions: &[Transition<L>]) {
        Nfa::transitions(self, id)
    }

    fn accepts(&self, id: StateId) -> (accepts: bool) {
        Nfa::accepts(self, id)
    }

    fn start_states(&self) -> (starts: &[StateId]) {
        Nfa::start_states(self)
    }
}

impl<'a, L: Label + 'a, A: 'a> Scanner<'a> for Nfa<L, A> {
    type Symbol = L::Symbol;

    type Execution = Execution<'a, L, A>;

    fn execute(&'a self) -> (execution: Execution<'a, L, A>)
        ensures
            execution.spec_nfa() == *self,
    {
        Execution::new(self)
    }
}

} // verus!
