use vstd::prelude::*;

use super::id::StateId;

verus! {

/// A match that [`Execution::longest_match`] found.
#[derive(Debug, Clone, Copy, PartialEq, Eq)]
pub struct Match<T> {
    /// The value that `select` gave for the states at the end of the match.
    pub accept: T,
    /// The number of the symbols in the match.
    pub length: usize,
}

/// One scan of an automaton, in progress.
///
/// An automaton holds no state of a scan. It is read only. An execution holds
/// where the scan is, and the buffers that the scan needs. Thus one execution
/// scans a sequence of tokens.
///
/// [`restart`](Self::restart), [`step`](Self::step), [`states`](Self::states),
/// and [`accepts`](Self::accepts) move the scan one symbol at a time.
/// [`longest_match`] reads one whole token with them.
///
/// The spec functions describe the automaton that the execution scans: the
/// states at which each start puts it, the states that one symbol takes a set
/// of states to, and which sets of states accept. A scan changes where the
/// execution is, and none of these.
pub trait Execution: Sized {
    /// One symbol of the alphabet that the automaton reads.
    type Symbol: Copy;

    /// Whether the execution is consistent with its automaton.
    spec fn well_formed(&self) -> bool;

    /// The states that the execution is in.
    spec fn spec_states(&self) -> Seq<StateId>;

    /// The number of the start states of the automaton.
    spec fn spec_start_count(&self) -> nat;

    /// The states that a restart at start `start` puts the execution in.
    spec fn spec_start(&self, start: int) -> Seq<StateId>;

    /// The states that reading `symbol` in `states` takes the execution to.
    spec fn spec_next(&self, states: Seq<StateId>, symbol: Self::Symbol) -> Seq<StateId>;

    /// Whether a state of `states` accepts.
    spec fn spec_accepting(&self, states: Seq<StateId>) -> bool;

    /// The states that a restart at `start`, then a step for each symbol of
    /// `input`, take the execution to.
    spec fn spec_run(&self, start: int, input: Seq<Self::Symbol>) -> Seq<StateId>;

    /// A run is a restart, then one step for each symbol. An execution in no
    /// state stays in no state, and accepts nothing.
    proof fn lemma_run(&self)
        requires
            self.well_formed(),
        ensures
            forall|start: int| #[trigger]
                self.spec_run(start, Seq::empty()) == self.spec_start(start),
            forall|start: int, input: Seq<Self::Symbol>|
                input.len() > 0 ==> #[trigger] self.spec_run(start, input) == self.spec_next(
                    self.spec_run(start, input.drop_last()),
                    input.last(),
                ),
            forall|symbol: Self::Symbol| #[trigger]
                self.spec_next(Seq::empty(), symbol) == Seq::<StateId>::empty(),
            !self.spec_accepting(Seq::empty()),
    ;

    /// Puts the execution back at the start state that `start` refers to.
    fn restart(&mut self, start: usize)
        requires
            old(self).well_formed(),
            start < old(self).spec_start_count(),
        ensures
            final(self).well_formed(),
            final(self).spec_start_count() == old(self).spec_start_count(),
            forall|start: int| #[trigger]
                final(self).spec_start(start) == old(self).spec_start(start),
            forall|states: Seq<StateId>, symbol: Self::Symbol| #[trigger]
                final(self).spec_next(states, symbol) == old(self).spec_next(states, symbol),
            forall|states: Seq<StateId>| #[trigger]
                final(self).spec_accepting(states) == old(self).spec_accepting(states),
            forall|start: int, input: Seq<Self::Symbol>| #[trigger]
                final(self).spec_run(start, input) == old(self).spec_run(start, input),
            final(self).spec_states() == old(self).spec_start(start as int),
    ;

    /// Reads `symbol`, then moves the execution.
    ///
    /// Returns `false` if the execution reaches no state. The execution then
    /// accepts nothing, and each later step also gives `false`.
    fn step(&mut self, symbol: Self::Symbol) -> (alive: bool)
        requires
            old(self).well_formed(),
        ensures
            final(self).well_formed(),
            final(self).spec_start_count() == old(self).spec_start_count(),
            forall|start: int| #[trigger]
                final(self).spec_start(start) == old(self).spec_start(start),
            forall|states: Seq<StateId>, symbol: Self::Symbol| #[trigger]
                final(self).spec_next(states, symbol) == old(self).spec_next(states, symbol),
            forall|states: Seq<StateId>| #[trigger]
                final(self).spec_accepting(states) == old(self).spec_accepting(states),
            forall|start: int, input: Seq<Self::Symbol>| #[trigger]
                final(self).spec_run(start, input) == old(self).spec_run(start, input),
            final(self).spec_states() == old(self).spec_next(old(self).spec_states(), symbol),
            alive == (final(self).spec_states().len() > 0),
    ;

    /// Returns the states that the execution is in.
    fn states(&self) -> (states: &[StateId])
        requires
            self.well_formed(),
        ensures
            states@ == self.spec_states(),
    ;

    /// Returns `true` if a state that the execution is in accepts.
    fn accepts(&self) -> (accepts: bool)
        requires
            self.well_formed(),
        ensures
            accepts == self.spec_accepting(self.spec_states()),
    ;
}

/// Returns the longest match at the start of `input` under `start`.
///
/// The automaton says where a match ends. `select` gives the meaning of the
/// states at the end of the match, and the function calls it only at a length
/// at which the execution accepts. A lexer, for example, gives the token of the
/// rule of the highest precedence.
///
/// The function returns `None` if the scan reaches no state that accepts. A
/// start state that accepts before it reads a symbol gives a match of length
/// 0. Only the rules of `start` are applicable: the other start states take no
/// part in the scan. Call it again on the same execution for the next token.
///
/// The function restarts `execution` at `start`, then reads `input` one symbol
/// at a time. It remembers the last length at which the execution accepts, and
/// the value that `select` gives for the states there. It stops at the end of
/// the input, or where the execution reaches no state.
pub fn longest_match<S: Copy, E: Execution<Symbol = S>, T, F: Fn(&[StateId]) -> T>(
    execution: &mut E,
    start: usize,
    input: &[S],
    select: F,
) -> (found: Option<Match<T>>)
    requires
        old(execution).well_formed(),
        start < old(execution).spec_start_count(),
        forall|states: &[StateId]| #[trigger] call_requires(select, (states,)),
    ensures
        final(execution).well_formed(),
        same_machine(&*old(execution), &*final(execution)),
        found is None ==> forall|length: int|
            0 <= length <= input@.len() ==> !old(execution).spec_accepting(
                #[trigger] old(execution).spec_run(start as int, input@.take(length)),
            ),
        found matches Some(m) ==> {
            &&& m.length <= input@.len()
            &&& old(execution).spec_accepting(
                old(execution).spec_run(start as int, input@.take(m.length as int)),
            )
            &&& forall|length: int|
                m.length < length <= input@.len() ==> !old(execution).spec_accepting(
                    #[trigger] old(execution).spec_run(start as int, input@.take(length)),
                )
            &&& exists|states: &[StateId]|
                states@ == old(execution).spec_run(start as int, input@.take(m.length as int))
                    && #[trigger] call_ensures(select, (states,), m.accept)
        },
{
    let ghost machine = *execution;
    proof {
        machine.lemma_run();
        assert(input@.take(0) =~= Seq::<S>::empty());
    }
    execution.restart(start);
    proof {
        assert(execution.spec_states() == machine.spec_run(start as int, input@.take(0)));
    }
    let mut best: Option<Match<T>> = None;
    if execution.accepts() {
        let states = execution.states();
        let accept = select(states);
        best = Some(Match { accept, length: 0 });
        proof {
            assert(call_ensures(select, (states,), accept));
            assert(states@ == machine.spec_run(start as int, input@.take(0)));
            assert(machine.spec_accepting(machine.spec_run(start as int, input@.take(0))));
            assert(exists|witness: &[StateId]|
                witness@ == machine.spec_run(start as int, input@.take(0))
                    && #[trigger] call_ensures(select, (witness,), accept));
            assert(best->Some_0.accept == accept);
            assert(best->Some_0.length == 0);
            assert(call_ensures(select, (states,), best->Some_0.accept));
        }
        proof {
            assert(best matches Some(m) ==> exists|witness: &[StateId]|
                witness@ == machine.spec_run(start as int, input@.take(m.length as int))
                    && #[trigger] call_ensures(select, (witness,), m.accept));
        }
    }
    let mut consumed: usize = 0;
    while consumed < input.len()
        invariant_except_break
            consumed <= input@.len(),
            execution.spec_states() == machine.spec_run(start as int, input@.take(consumed as int)),
        invariant
            execution.well_formed(),
            machine.well_formed(),
            same_machine(&machine, &*execution),
            consumed <= input@.len(),
            start < machine.spec_start_count(),
            forall|states: &[StateId]| #[trigger] call_requires(select, (states,)),
            best is None <==> forall|length: int|
                0 <= length <= consumed ==> !machine.spec_accepting(
                    #[trigger] machine.spec_run(start as int, input@.take(length)),
                ),
            best matches Some(m) ==> m.length <= consumed,
            best matches Some(m) ==> machine.spec_accepting(
                machine.spec_run(start as int, input@.take(m.length as int)),
            ),
            best matches Some(m) ==> forall|length: int|
                m.length < length <= consumed ==> !machine.spec_accepting(
                    #[trigger] machine.spec_run(start as int, input@.take(length)),
                ),
            best matches Some(m) ==> exists|states: &[StateId]|
                states@ == machine.spec_run(start as int, input@.take(m.length as int))
                    && #[trigger] call_ensures(select, (states,), m.accept),
        ensures
            execution.well_formed(),
            same_machine(&machine, &*execution),
            best is None <==> forall|length: int|
                0 <= length <= input@.len() ==> !machine.spec_accepting(
                    #[trigger] machine.spec_run(start as int, input@.take(length)),
                ),
            best matches Some(m) ==> {
                &&& m.length <= input@.len()
                &&& machine.spec_accepting(machine.spec_run(start as int, input@.take(m.length as int)))
                &&& forall|length: int|
                    m.length < length <= input@.len() ==> !machine.spec_accepting(
                        #[trigger] machine.spec_run(start as int, input@.take(length)),
                    )
                &&& exists|states: &[StateId]|
                    states@ == machine.spec_run(start as int, input@.take(m.length as int))
                        && #[trigger] call_ensures(select, (states,), m.accept)
            },
        decreases input@.len() - consumed,
    {
        let symbol = input[consumed];
        let alive = execution.step(symbol);
        proof {
            machine.lemma_run();
            assert(input@.take(consumed + 1).drop_last() =~= input@.take(consumed as int));
            assert(input@.take(consumed + 1).last() == symbol);
            assert(execution.spec_states() == machine.spec_run(
                start as int,
                input@.take(consumed + 1),
            ));
        }
        if !alive {
            proof {
                assert(execution.spec_states() =~= Seq::<StateId>::empty());
                lemma_no_state_run(&machine, start as int, input@, consumed + 1);
            }
            break;
        }
        consumed = consumed + 1;
        if execution.accepts() {
            let states = execution.states();
            let accept = select(states);
            best = Some(Match { accept, length: consumed });
            proof {
                assert(best->Some_0.accept == accept);
                assert(best->Some_0.length == consumed);
                assert(call_ensures(select, (states,), best->Some_0.accept));
                assert(states@ == machine.spec_run(start as int, input@.take(consumed as int)));
            }
        }
    }
    best
}

/// Whether two executions scan the same automaton: the same starts, the same
/// moves, and the same accepting sets of states.
pub open spec fn same_machine<E: Execution>(first: &E, second: &E) -> bool {
    &&& first.spec_start_count() == second.spec_start_count()
    &&& forall|start: int| #[trigger] first.spec_start(start) == second.spec_start(start)
    &&& forall|states: Seq<StateId>, symbol: E::Symbol| #[trigger]
        first.spec_next(states, symbol) == second.spec_next(states, symbol)
    &&& forall|states: Seq<StateId>| #[trigger]
        first.spec_accepting(states) == second.spec_accepting(states)
    &&& forall|start: int, input: Seq<E::Symbol>| #[trigger]
        first.spec_run(start, input) == second.spec_run(start, input)
}

/// A run that reaches no state stays in no state.
pub proof fn lemma_no_state_run<E: Execution>(
    execution: &E,
    start: int,
    input: Seq<E::Symbol>,
    from: int,
)
    requires
        execution.well_formed(),
        0 <= from <= input.len(),
        execution.spec_run(start, input.take(from)) == Seq::<StateId>::empty(),
    ensures
        forall|length: int|
            from <= length <= input.len() ==> #[trigger] execution.spec_run(start, input.take(length))
                == Seq::<StateId>::empty(),
    decreases input.len() - from,
{
    execution.lemma_run();
    if from < input.len() {
        assert(input.take(from + 1).drop_last() =~= input.take(from));
        lemma_no_state_run(execution, start, input, from + 1);
    }
}

} // verus!
