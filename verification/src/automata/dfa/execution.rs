use vstd::prelude::*;

use super::automaton::{Dfa, target_of};
use crate::automata::execution::{self as scan_api, Match};
use crate::automata::id::StateId;
use crate::automata::label::Label;
use crate::automata::scanner::Scanner;

verus! {

/// The states that reading `symbol` in `states` takes a scan of `dfa` to: the
/// target of the matching transition of the one state, or no state.
pub open spec fn next_state<L: Label, A>(
    dfa: &Dfa<L, A>,
    states: Seq<StateId>,
    symbol: L::Symbol,
) -> Seq<StateId> {
    if states.len() == 1 {
        match target_of(dfa.spec_transitions()[states[0]@ as int], symbol) {
            Some(target) => seq![target],
            None => Seq::empty(),
        }
    } else {
        Seq::empty()
    }
}

/// The states of a scan of `dfa` under `start` after it reads `input`: one
/// state, or none once no transition matched.
pub open spec fn scan<L: Label, A>(dfa: &Dfa<L, A>, start: int, input: Seq<L::Symbol>) -> Seq<
    StateId,
>
    decreases input.len(),
{
    if input.len() == 0 {
        seq![dfa.spec_starts()[start]]
    } else {
        next_state(dfa, scan(dfa, start, input.drop_last()), input.last())
    }
}

/// Whether a state of `states` accepts in `dfa`.
pub open spec fn accepting<L: Label, A>(dfa: &Dfa<L, A>, states: Seq<StateId>) -> bool {
    exists|k: int|
        0 <= k < states.len() && (#[trigger] dfa.spec_accepts()[states[k]@ as int]) is Some
}

/// Tracks the state of one scan of a [`Dfa`].
///
/// The execution is in one state, or in no state once a symbol matched no
/// transition.
#[derive(Debug)]
pub struct Execution<'a, L, A = ()> {
    dfa: &'a Dfa<L, A>,
    current: Vec<StateId>,
}

impl<'a, L: Label, A> Execution<'a, L, A> {
    /// The automaton that the execution scans.
    pub closed spec fn spec_dfa(&self) -> Dfa<L, A> {
        *self.dfa
    }

    /// Creates an execution in no state.
    pub fn new(dfa: &'a Dfa<L, A>) -> (execution: Self)
        requires
            dfa.well_formed(),
        ensures
            execution.spec_dfa() == *dfa,
            scan_api::Execution::well_formed(&execution),
            scan_api::Execution::spec_states(&execution) == Seq::<StateId>::empty(),
    {
        Execution { dfa, current: Vec::new() }
    }

    /// Returns the longest match at the start of `input` under `start`; see
    /// [`longest_match`](scan_api::longest_match).
    pub fn longest_match<T, F: Fn(&[StateId]) -> T>(
        &mut self,
        start: usize,
        input: &[L::Symbol],
        select: F,
    ) -> (found: Option<Match<T>>)
        requires
            scan_api::Execution::well_formed(&*old(self)),
            start < old(self).spec_dfa().spec_starts().len(),
            forall|states: &[StateId]| #[trigger] call_requires(select, (states,)),
        ensures
            scan_api::Execution::well_formed(&*final(self)),
            scan_api::same_machine(&*old(self), &*final(self)),
            found is None <==> forall|length: int|
                0 <= length <= input@.len() ==> !accepting(
                    &old(self).spec_dfa(),
                    #[trigger] scan(&old(self).spec_dfa(), start as int, input@.take(length)),
                ),
            found matches Some(m) ==> {
                &&& m.length <= input@.len()
                &&& accepting(
                    &old(self).spec_dfa(),
                    scan(&old(self).spec_dfa(), start as int, input@.take(m.length as int)),
                )
                &&& forall|length: int|
                    m.length < length <= input@.len() ==> !accepting(
                        &old(self).spec_dfa(),
                        #[trigger] scan(&old(self).spec_dfa(), start as int, input@.take(length)),
                    )
                &&& exists|states: &[StateId]|
                    states@ == scan(&old(self).spec_dfa(), start as int, input@.take(m.length as int))
                        && #[trigger] call_ensures(select, (states,), m.accept)
            },
    {
        let ghost before = *self;
        let found = scan_api::longest_match(self, start, input, select);
        proof {
            let dfa = before.spec_dfa();
            assert forall|length: int|
                #![trigger scan(&dfa, start as int, input@.take(length))]
                #![trigger scan_api::Execution::spec_run(&before, start as int, input@.take(length))]
                0 <= length <= input@.len() implies scan(&dfa, start as int, input@.take(length))
                == scan_api::Execution::spec_run(&before, start as int, input@.take(length))
                && accepting(&dfa, scan(&dfa, start as int, input@.take(length)))
                == scan_api::Execution::spec_accepting(
                    &before,
                    scan_api::Execution::spec_run(&before, start as int, input@.take(length)),
                ) by {}
        }
        found
    }
}

impl<'a, L: Label, A> scan_api::Execution for Execution<'a, L, A> {
    type Symbol = L::Symbol;

    closed spec fn well_formed(&self) -> bool {
        &&& self.dfa.well_formed()
        &&& self.current@.len() <= 1
        &&& forall|k: int| 0 <= k < self.current@.len() ==> (#[trigger] self.current@[k])@
            < self.dfa.spec_state_count()
    }

    closed spec fn spec_states(&self) -> Seq<StateId> {
        self.current@
    }

    closed spec fn spec_start_count(&self) -> nat {
        self.dfa.spec_starts().len()
    }

    closed spec fn spec_start(&self, start: int) -> Seq<StateId> {
        seq![self.dfa.spec_starts()[start]]
    }

    closed spec fn spec_next(&self, states: Seq<StateId>, symbol: L::Symbol) -> Seq<StateId> {
        next_state(self.dfa, states, symbol)
    }

    closed spec fn spec_accepting(&self, states: Seq<StateId>) -> bool {
        accepting(self.dfa, states)
    }

    closed spec fn spec_run(&self, start: int, input: Seq<L::Symbol>) -> Seq<StateId> {
        scan(self.dfa, start, input)
    }

    proof fn lemma_run(&self) {
    }

    fn restart(&mut self, start: usize) {
        let state = self.dfa.start_state(start);
        self.current.clear();
        self.current.push(state);
        proof {
            assert(self.current@ =~= seq![state]);
        }
    }

    fn step(&mut self, symbol: L::Symbol) -> (alive: bool) {
        if self.current.len() == 0 {
            proof {
                assert(old(self).current@ =~= Seq::<StateId>::empty());
            }
            return false;
        }
        let state = self.current[0];
        self.current.clear();
        match self.dfa.step(state, symbol) {
            Some(target) => {
                self.current.push(target);
                proof {
                    assert(self.current@ =~= seq![target]);
                }
                true
            },
            None => {
                proof {
                    assert(self.current@ =~= Seq::<StateId>::empty());
                }
                false
            },
        }
    }

    fn states(&self) -> (states: &[StateId]) {
        self.current.as_slice()
    }

    fn accepts(&self) -> (accepts: bool) {
        if self.current.len() == 0 {
            false
        } else {
            self.dfa.accepts(self.current[0])
        }
    }
}

impl<'a, L: Label + 'a, A: 'a> Scanner<'a> for Dfa<L, A> {
    type Symbol = L::Symbol;

    type Execution = Execution<'a, L, A>;

    fn execute(&'a self) -> (execution: Execution<'a, L, A>)
        ensures
            execution.spec_dfa() == *self,
    {
        Execution::new(self)
    }
}

} // verus!
