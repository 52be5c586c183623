use vstd::prelude::*;

use crate::automata::adjacency::{AdjacencyList, flatten};
use crate::automata::automaton::Transition;
use crate::automata::id::StateId;
use crate::automata::label::Label;
use crate::automata::state_set::id_set;
use crate::automata::table::{
    STATE_IDENTIFIERS,
    StateTable,
    TRANSITION_CAPACITY,
    starts_below,
    targets_below,
};

verus! {

/// Whether each epsilon transition of `epsilons` goes to a state below `count`.
pub open spec fn epsilon_targets_below(epsilons: Seq<Seq<StateId>>, count: int) -> bool {
    forall|s: int, k: int|
        0 <= s < epsilons.len() && 0 <= k < epsilons[s].len() ==> (#[trigger] epsilons[s][k])@
            < count
}

/// The targets of the transitions of `transitions` whose label matches
/// `symbol`, in the sequence of the transitions.
pub open spec fn matching_targets<L: Label>(
    transitions: Seq<Transition<L>>,
    symbol: L::Symbol,
) -> Seq<StateId>
    decreases transitions.len(),
{
    if transitions.len() == 0 {
        Seq::empty()
    } else {
        let last = transitions.last();
        matching_targets(transitions.drop_last(), symbol) + if last.label.spec_matches(symbol) {
            seq![last.target]
        } else {
            Seq::empty()
        }
    }
}

/// The targets that `symbol` reaches from each state of `states`, the targets
/// of the first state first. A target that two transitions reach occurs two
/// times.
pub open spec fn moves<L: Label>(
    groups: Seq<Seq<Transition<L>>>,
    states: Seq<StateId>,
    symbol: L::Symbol,
) -> Seq<StateId>
    decreases states.len(),
{
    if states.len() == 0 {
        Seq::empty()
    } else {
        moves(groups, states.drop_last(), symbol) + matching_targets(
            groups[states.last()@ as int],
            symbol,
        )
    }
}

/// Whether a transition of `groups` from a state of `sources` reads
/// `symbol` and goes to `target`.
pub open spec fn moves_to<L: Label>(
    groups: Seq<Seq<Transition<L>>>,
    sources: Set<nat>,
    symbol: L::Symbol,
    target: nat,
) -> bool {
    exists|source: nat, k: int|
        #![trigger sources.contains(source), groups[source as int][k]]
        sources.contains(source) && 0 <= k < groups[source as int].len()
            && groups[source as int][k].label.spec_matches(symbol) && groups[source as int][k].target@
            == target
}

/// The targets of `matching_targets` are the targets of the matching transitions.
pub proof fn lemma_matching_targets<L: Label>(transitions: Seq<Transition<L>>, symbol: L::Symbol)
    ensures
        forall|target: nat|
            #[trigger] id_set(matching_targets(transitions, symbol)).contains(target) <==> exists|
                k: int,
            |
                0 <= k < transitions.len() && #[trigger] transitions[k].label.spec_matches(symbol)
                    && transitions[k].target@ == target,
    decreases transitions.len(),
{
    if transitions.len() > 0 {
        let prefix = transitions.drop_last();
        lemma_matching_targets(prefix, symbol);
        let before = matching_targets(prefix, symbol);
        let after = matching_targets(transitions, symbol);
        assert forall|target: nat| #[trigger] id_set(after).contains(target) <==> exists|k: int|
            0 <= k < transitions.len() && #[trigger] transitions[k].label.spec_matches(symbol)
                && transitions[k].target@ == target by {
            if id_set(after).contains(target) {
                let j = choose|j: int| 0 <= j < after.len() && (#[trigger] after[j])@ == target;
                if j < before.len() {
                    assert(after[j] == before[j]);
                    assert(id_set(before).contains(target));
                    let k = choose|k: int|
                        0 <= k < prefix.len() && #[trigger] prefix[k].label.spec_matches(symbol)
                            && prefix[k].target@ == target;
                    assert(transitions[k] == prefix[k]);
                } else {
                    assert(transitions[transitions.len() - 1] == transitions.last());
                }
            }
            if exists|k: int|
                0 <= k < transitions.len() && #[trigger] transitions[k].label.spec_matches(symbol)
                    && transitions[k].target@ == target {
                let k = choose|k: int|
                    0 <= k < transitions.len() && #[trigger] transitions[k].label.spec_matches(
                        symbol,
                    ) && transitions[k].target@ == target;
                if k < prefix.len() {
                    assert(prefix[k] == transitions[k]);
                    assert(prefix[k].label.spec_matches(symbol));
                    assert(id_set(before).contains(target));
                    let j = choose|j: int| 0 <= j < before.len() && (#[trigger] before[j])@ == target;
                    assert(after[j] == before[j]);
                } else {
                    assert(after[before.len() as int] == transitions.last().target);
                }
            }
        }
    }
}

/// The targets of `moves` are the states that a transition from a state of
/// `states` reaches with `symbol`.
pub proof fn lemma_moves<L: Label>(
    groups: Seq<Seq<Transition<L>>>,
    states: Seq<StateId>,
    symbol: L::Symbol,
)
    requires
        forall|k: int| 0 <= k < states.len() ==> (#[trigger] states[k])@ < groups.len(),
    ensures
        forall|target: nat|
            #[trigger] id_set(moves(groups, states, symbol)).contains(target) <==> moves_to(
                groups,
                id_set(states),
                symbol,
                target,
            ),
    decreases states.len(),
{
    if states.len() > 0 {
        let prefix = states.drop_last();
        let last = states.last();
        lemma_moves(groups, prefix, symbol);
        lemma_matching_targets(groups[last@ as int], symbol);
        let before = moves(groups, prefix, symbol);
        let tail = matching_targets(groups[last@ as int], symbol);
        let after = moves(groups, states, symbol);
        assert(after == before + tail);
        assert forall|target: nat| #[trigger] id_set(after).contains(target) <==> moves_to(
            groups,
            id_set(states),
            symbol,
            target,
        ) by {
            if id_set(after).contains(target) {
                let j = choose|j: int| 0 <= j < after.len() && (#[trigger] after[j])@ == target;
                if j < before.len() {
                    assert(after[j] == before[j]);
                    assert(id_set(before).contains(target));
                    let (source, k) = choose|source: nat, k: int|
                        #![trigger id_set(prefix).contains(source), groups[source as int][k]]
                        id_set(prefix).contains(source) && 0 <= k < groups[source as int].len()
                            && groups[source as int][k].label.spec_matches(symbol)
                            && groups[source as int][k].target@ == target;
                    let i = choose|i: int| 0 <= i < prefix.len() && (#[trigger] prefix[i])@ == source;
                    assert(states[i] == prefix[i]);
                    assert(id_set(states).contains(source));
                } else {
                    assert(after[j] == tail[j - before.len()]);
                    assert(id_set(tail).contains(target));
                    assert(states[states.len() - 1] == last);
                    assert(id_set(states).contains(last@));
                }
            }
            if moves_to(groups, id_set(states), symbol, target) {
                let (source, k) = choose|source: nat, k: int|
                    #![trigger id_set(states).contains(source), groups[source as int][k]]
                    id_set(states).contains(source) && 0 <= k < groups[source as int].len()
                        && groups[source as int][k].label.spec_matches(symbol)
                        && groups[source as int][k].target@ == target;
                let i = choose|i: int| 0 <= i < states.len() && (#[trigger] states[i])@ == source;
                if i < prefix.len() {
                    assert(prefix[i] == states[i]);
                    assert(id_set(prefix).contains(source));
                    assert(id_set(before).contains(target));
                    let j = choose|j: int| 0 <= j < before.len() && (#[trigger] before[j])@ == target;
                    assert(after[j] == before[j]);
                } else {
                    assert(groups[last@ as int][k].label.spec_matches(symbol));
                    assert(id_set(tail).contains(target));
                    let j = choose|j: int| 0 <= j < tail.len() && (#[trigger] tail[j])@ == target;
                    assert(after[before.len() + j] == tail[j]);
                }
            }
        }
    }
}

/// Stores a nondeterministic finite automaton.
///
/// A nondeterministic automaton permits overlapping labels and epsilon
/// transitions. The accept type identifies lexer rules without defining their
/// precedence.
#[derive(Debug, PartialEq, Eq)]
pub struct Nfa<L, A = ()> {
    table: StateTable<L, A>,
    epsilons: AdjacencyList<StateId>,
}

impl<L, A> Nfa<L, A> {
    /// The labeled transitions of each state.
    pub closed spec fn spec_transitions(&self) -> Seq<Seq<Transition<L>>> {
        self.table.spec_transitions()
    }

    /// The accept value of each state.
    pub closed spec fn spec_accepts(&self) -> Seq<Option<A>> {
        self.table.spec_accepts()
    }

    /// The start states, in declaration sequence.
    pub closed spec fn spec_starts(&self) -> Seq<StateId> {
        self.table.spec_starts()
    }

    /// The targets of the epsilon transitions of each state.
    pub closed spec fn spec_epsilons(&self) -> Seq<Seq<StateId>> {
        self.epsilons.view()
    }

    /// The number of the states.
    pub open spec fn spec_state_count(&self) -> nat {
        self.spec_accepts().len()
    }

    /// Whether the automaton is consistent: one group of each kind of
    /// transition for each state, and each target and each start in the
    /// automaton.
    pub open spec fn well_formed(&self) -> bool {
        &&& self.spec_transitions().len() == self.spec_state_count()
        &&& self.spec_epsilons().len() == self.spec_state_count()
        &&& self.spec_state_count() <= STATE_IDENTIFIERS
        &&& starts_below(self.spec_starts(), self.spec_state_count() as int)
        &&& targets_below(self.spec_transitions(), self.spec_state_count() as int)
        &&& flatten(self.spec_transitions()).len() <= TRANSITION_CAPACITY
        &&& epsilon_targets_below(self.spec_epsilons(), self.spec_state_count() as int)
    }

    /// Creates an automaton from its validated storage.
    pub fn new(table: StateTable<L, A>, epsilons: AdjacencyList<StateId>) -> (nfa: Self)
        requires
            table.well_formed(),
            epsilons.view().len() == table.spec_state_count(),
            epsilon_targets_below(epsilons.view(), table.spec_state_count() as int),
        ensures
            nfa.well_formed(),
            nfa.spec_transitions() == table.spec_transitions(),
            nfa.spec_accepts() == table.spec_accepts(),
            nfa.spec_starts() == table.spec_starts(),
            nfa.spec_epsilons() == epsilons.view(),
    {
        Nfa { table, epsilons }
    }

    /// Returns the epsilon-transition targets from `state`.
    pub fn epsilon_targets(&self, state: StateId) -> (targets: &[StateId])
        requires
            self.well_formed(),
            state@ < self.spec_state_count(),
        ensures
            targets@ == self.spec_epsilons()[state@ as int],
    {
        match self.epsilons.get(state) {
            Some(targets) => targets,
            None => {
                proof {
                    assert(false);
                }
                &[]
            },
        }
    }

    /// Returns the number of states in the automaton.
    pub fn state_count(&self) -> (count: usize)
        ensures
            count == self.spec_state_count(),
    {
        self.table.state_count()
    }

    /// Returns the transitions from `state`.
    pub fn transitions(&self, state: StateId) -> (transitions: &[Transition<L>])
        requires
            self.well_formed(),
            state@ < self.spec_state_count(),
        ensures
            transitions@ == self.spec_transitions()[state@ as int],
    {
        self.table.transitions(state)
    }

    /// Returns `true` if `state` accepts.
    pub fn accepts(&self, state: StateId) -> (accepts: bool)
        requires
            state@ < self.spec_state_count(),
        ensures
            accepts == self.spec_accepts()[state@ as int] is Some,
    {
        self.table.accepts(state)
    }

    /// Returns the accept value of `state`, if the state accepts.
    pub fn accept(&self, state: StateId) -> (accept: Option<&A>)
        requires
            state@ < self.spec_state_count(),
        ensures
            accept == match self.spec_accepts()[state@ as int] {
                Some(value) => Some(&value),
                None => None::<&A>,
            },
    {
        self.table.accept(state)
    }

    /// Returns the start states in declaration sequence.
    pub fn start_states(&self) -> (starts: &[StateId])
        ensures
            starts@ == self.spec_starts(),
    {
        self.table.start_states()
    }

    /// Returns the start state at `index`.
    pub fn start_state(&self, index: usize) -> (start: StateId)
        requires
            index < self.spec_starts().len(),
        ensures
            start == self.spec_starts()[index as int],
    {
        self.table.start_state(index)
    }
}

impl<L: Label, A> Nfa<L, A> {
    /// Returns each target reached from `states` with `symbol`.
    ///
    /// This method does not follow epsilon transitions or remove duplicates.
    pub fn step(&self, states: &[StateId], symbol: L::Symbol) -> (targets: Vec<StateId>)
        requires
            self.well_formed(),
            forall|k: int| 0 <= k < states@.len() ==> (#[trigger] states@[k])@
                < self.spec_state_count(),
        ensures
            targets@ == moves(self.spec_transitions(), states@, symbol),
    {
        let mut targets: Vec<StateId> = Vec::new();
        self.push_moves(states, symbol, &mut targets);
        targets
    }

    /// Appends to `targets` each target reached from `states` with `symbol`.
    pub fn push_moves(&self, states: &[StateId], symbol: L::Symbol, targets: &mut Vec<StateId>)
        requires
            self.well_formed(),
            forall|k: int| 0 <= k < states@.len() ==> (#[trigger] states@[k])@
                < self.spec_state_count(),
        ensures
            final(targets)@ == old(targets)@ + moves(self.spec_transitions(), states@, symbol),
    {
        let ghost initial = targets@;
        let mut i: usize = 0;
        proof {
            assert(initial + moves(self.spec_transitions(), states@.take(0), symbol) =~= initial);
        }
        while i < states.len()
            invariant
                self.well_formed(),
                i <= states@.len(),
                forall|k: int| 0 <= k < states@.len() ==> (#[trigger] states@[k])@
                    < self.spec_state_count(),
                targets@ == initial + moves(self.spec_transitions(), states@.take(i as int), symbol),
            decreases states@.len() - i,
        {
            let transitions = self.transitions(states[i]);
            let ghost before = targets@;
            let mut j: usize = 0;
            proof {
                assert(before + matching_targets(transitions@.take(0), symbol) =~= before);
            }
            while j < transitions.len()
                invariant
                    j <= transitions@.len(),
                    targets@ == before + matching_targets(transitions@.take(j as int), symbol),
                decreases transitions@.len() - j,
            {
                let transition = &transitions[j];
                if transition.label.matches(symbol) {
                    targets.push(transition.target);
                }
                proof {
                    assert(transitions@.take(j + 1).drop_last() =~= transitions@.take(j as int));
                    assert(transitions@.take(j + 1).last() == transitions@[j as int]);
                }
                j = j + 1;
                proof {
                    assert(targets@ =~= before + matching_targets(
                        transitions@.take(j as int),
                        symbol,
                    ));
                }
            }
            proof {
                assert(transitions@.take(transitions@.len() as int) =~= transitions@);
                assert(states@.take(i + 1).drop_last() =~= states@.take(i as int));
                assert(states@.take(i + 1).last() == states@[i as int]);
                assert(targets@ =~= initial + moves(
                    self.spec_transitions(),
                    states@.take(i + 1),
                    symbol,
                ));
            }
            i = i + 1;
        }
        proof {
            assert(states@.take(states@.len() as int) =~= states@);
        }
    }
}

} // verus!
