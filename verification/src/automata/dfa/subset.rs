//! Builds a deterministic automaton from a nondeterministic one.
//!
//! Each state of the result stands for one set of states of the
//! nondeterministic automaton: the set that a scan of the nondeterministic
//! automaton is in after some input.
use vstd::prelude::*;

use super::automaton::{Dfa, deterministic, target_of};
use super::builder::Builder;
use crate::automata::adjacency::{flatten, group_of, lemma_group_empty, lemma_group_push, lemma_groups_len};
use crate::automata::automaton::Transition;
use crate::automata::error::BuildError;
use crate::automata::id::StateId;
use crate::automata::label::{Label, LabelClass, Partitionable, inhabited, is_partition};
use crate::automata::nfa::automaton::{Nfa, lemma_matching_targets, matching_targets, moves};
use crate::automata::nfa::closure::{closure, epsilon_closure};
use crate::automata::nfa::execution::{
    accepting,
    accepting as nfa_accepting,
    lemma_no_state,
    next_states,
    scan as nfa_scan,
    start_states,
};
use super::execution::{accepting as dfa_accepting, scan as dfa_scan};
use crate::automata::state_set::{StateSet, ascending, id_set, lemma_ascending};
use crate::automata::table::{TRANSITION_CAPACITY, copied, spec_state_capacity, targets_below};

verus! {

/// Whether the transitions of one deterministic state whose set of states is
/// `subset` step as the nondeterministic automaton does: a symbol goes to the
/// state whose set is the set that `nfa` reaches, or to no state where `nfa`
/// reaches no state.
pub open spec fn steps_like<L: Label, A>(
    nfa: &Nfa<L, A>,
    transitions: Seq<Transition<L>>,
    subsets: Seq<Seq<StateId>>,
    subset: Seq<StateId>,
) -> bool {
    forall|symbol: L::Symbol|
        {
            &&& (#[trigger] target_of(transitions, symbol)) is None <==> next_states(
                nfa,
                subset,
                symbol,
            ).len() == 0
            &&& target_of(transitions, symbol) matches Some(target) ==> target@ < subsets.len()
                && subsets[target@ as int] == next_states(nfa, subset, symbol)
        }
}

/// Whether `subset` is the closure of a start of `nfa`, or the set that `nfa`
/// reaches by one symbol from a set of `subsets`.
pub open spec fn reachable_from<L: Label, A>(
    nfa: &Nfa<L, A>,
    subsets: Seq<Seq<StateId>>,
    subset: Seq<StateId>,
) -> bool {
    ||| exists|start: int|
        0 <= start < nfa.spec_starts().len() && subset == #[trigger] start_states(nfa, start)
    ||| exists|set: int, symbol: L::Symbol|
        0 <= set < subsets.len() && subset == #[trigger] next_states(nfa, subsets[set], symbol)
}

/// Whether each set of `subsets` is reachable from the sets before it: thus
/// a scan of `nfa` under some start reaches each of them after some input.
pub open spec fn reached_in_turn<L: Label, A>(nfa: &Nfa<L, A>, subsets: Seq<Seq<StateId>>) -> bool {
    forall|k: int| 0 <= k < subsets.len() ==> #[trigger] reachable_from(nfa, subsets.take(k), subsets[k])
}

/// A set reachable from some sets stays reachable where sets are added after
/// them, and adding a reachable set keeps each set reachable in turn.
proof fn lemma_reached_push<L: Label, A>(
    nfa: &Nfa<L, A>,
    subsets: Seq<Seq<StateId>>,
    subset: Seq<StateId>,
)
    requires
        reached_in_turn(nfa, subsets),
        reachable_from(nfa, subsets, subset),
    ensures
        reached_in_turn(nfa, subsets.push(subset)),
{
    let pushed = subsets.push(subset);
    assert forall|k: int| 0 <= k < pushed.len() implies #[trigger] reachable_from(
        nfa,
        pushed.take(k),
        pushed[k],
    ) by {
        if k < subsets.len() {
            assert(pushed.take(k) =~= subsets.take(k));
            assert(reachable_from(nfa, subsets.take(k), subsets[k]));
        } else {
            assert(pushed.take(k) =~= subsets);
        }
    }
}

/// Whether no set occurs twice in `subsets`.
pub open spec fn distinct_subsets(subsets: Seq<Seq<StateId>>) -> bool {
    forall|first: int, second: int|
        0 <= first < second < subsets.len() ==> #[trigger] subsets[first] != #[trigger] subsets[second]
}

/// Whether each state of each set of `subsets` is below `count`.
pub open spec fn subsets_below(subsets: Seq<Seq<StateId>>, count: nat) -> bool {
    forall|set: int, k: int|
        0 <= set < subsets.len() && 0 <= k < subsets[set].len() ==> (#[trigger] subsets[set][k])@
            < count
}

/// Whether `accepts` holds an accept for each set of `subsets` that accepts in
/// `nfa`, and no other, and each accept is a value that `select` gives for
/// that set.
pub open spec fn accepts_like<L: Label, A, B, F: Fn(&[StateId]) -> B>(
    nfa: &Nfa<L, A>,
    accepts: Seq<Option<B>>,
    subsets: Seq<Seq<StateId>>,
    select: F,
) -> bool {
    &&& accepts.len() == subsets.len()
    &&& forall|set: int|
        0 <= set < subsets.len() ==> ((#[trigger] accepts[set]) is Some <==> accepting(
            nfa,
            subsets[set],
        ))
    &&& forall|set: int|
        0 <= set < subsets.len() && (#[trigger] accepts[set]) is Some ==> exists|states: &[StateId]|
            states@ == subsets[set] && #[trigger] call_ensures(
                select,
                (states,),
                accepts[set]->Some_0,
            )
}

/// Whether `dfa` is the subset construction of `nfa` under `select`, with
/// `subsets` the set of states of `nfa` that each state of `dfa` stands for.
///
/// Each start of `dfa` stands for the closure of the same start of `nfa`.
/// Each state steps as `nfa` does from its set. A state accepts if a state of
/// its set accepts, and its accept is the value that `select` gives for the
/// set. No two states stand for one set.
pub open spec fn constructs<L: Label, A, B, F: Fn(&[StateId]) -> B>(
    nfa: &Nfa<L, A>,
    dfa: &Dfa<L, B>,
    subsets: Seq<Seq<StateId>>,
    select: F,
) -> bool {
    &&& subsets.len() == dfa.spec_state_count()
    &&& dfa.spec_starts().len() == nfa.spec_starts().len()
    &&& forall|start: int|
        0 <= start < dfa.spec_starts().len() ==> subsets[(#[trigger] dfa.spec_starts()[start])@ as int]
            == start_states(nfa, start)
    &&& forall|state: int|
        0 <= state < subsets.len() ==> steps_like(
            nfa,
            #[trigger] dfa.spec_transitions()[state],
            subsets,
            subsets[state],
        )
    &&& accepts_like(nfa, dfa.spec_accepts(), subsets, select)
    &&& distinct_subsets(subsets)
}

/// The transitions of each state of `states`, the transitions of the first
/// state first.
pub open spec fn flatten_moves<L>(groups: Seq<Seq<Transition<L>>>, states: Seq<StateId>) -> Seq<
    Transition<L>,
>
    decreases states.len(),
{
    if states.len() == 0 {
        Seq::empty()
    } else {
        flatten_moves(groups, states.drop_last()) + groups[states.last()@ as int]
    }
}

/// The matching targets of two sequences of transitions are those of the
/// first, then those of the second.
proof fn lemma_matching_concat<L: Label>(
    first: Seq<Transition<L>>,
    second: Seq<Transition<L>>,
    symbol: L::Symbol,
)
    ensures
        matching_targets(first + second, symbol) == matching_targets(first, symbol)
            + matching_targets(second, symbol),
    decreases second.len(),
{
    if second.len() == 0 {
        assert(first + second =~= first);
        assert(matching_targets(first, symbol) + matching_targets(second, symbol) =~= matching_targets(
            first,
            symbol,
        ));
    } else {
        lemma_matching_concat(first, second.drop_last(), symbol);
        assert((first + second).drop_last() =~= first + second.drop_last());
        assert((first + second).last() == second.last());
    }
}

/// The moves of `states` are the matching targets of their transitions.
proof fn lemma_moves_flat<L: Label>(
    groups: Seq<Seq<Transition<L>>>,
    states: Seq<StateId>,
    symbol: L::Symbol,
)
    ensures
        moves(groups, states, symbol) == matching_targets(flatten_moves(groups, states), symbol),
    decreases states.len(),
{
    if states.len() > 0 {
        lemma_moves_flat(groups, states.drop_last(), symbol);
        lemma_matching_concat(
            flatten_moves(groups, states.drop_last()),
            groups[states.last()@ as int],
            symbol,
        );
    }
}

/// A deterministic step that keeps its target sets lies in a longer list of
/// sets that keeps the sets of the shorter one.
proof fn lemma_steps_like_grow<L: Label, A>(
    nfa: &Nfa<L, A>,
    transitions: Seq<Transition<L>>,
    before: Seq<Seq<StateId>>,
    after: Seq<Seq<StateId>>,
    subset: Seq<StateId>,
)
    requires
        steps_like(nfa, transitions, before, subset),
        before.len() <= after.len(),
        forall|set: int| 0 <= set < before.len() ==> #[trigger] after[set] == before[set],
    ensures
        steps_like(nfa, transitions, after, subset),
{
    assert forall|symbol: L::Symbol| {
        &&& (#[trigger] target_of(transitions, symbol)) is None <==> next_states(
            nfa,
            subset,
            symbol,
        ).len() == 0
        &&& target_of(transitions, symbol) matches Some(target) ==> target@ < after.len()
            && after[target@ as int] == next_states(nfa, subset, symbol)
    } by {
        if let Some(target) = target_of(transitions, symbol) {
            assert(after[target@ as int] == before[target@ as int]);
        }
    }
}

/// Each target of the transitions of states of an automaton is a state of
/// that automaton.
proof fn lemma_flatten_below<L>(groups: Seq<Seq<Transition<L>>>, states: Seq<StateId>, count: nat)
    requires
        forall|k: int| 0 <= k < states.len() ==> (#[trigger] states[k])@ < groups.len(),
        targets_below(groups, count as int),
    ensures
        forall|i: int|
            0 <= i < flatten_moves(groups, states).len() ==> (#[trigger] flatten_moves(
                groups,
                states,
            )[i]).target@ < count,
    decreases states.len(),
{
    if states.len() > 0 {
        let prefix = states.drop_last();
        assert forall|k: int| 0 <= k < prefix.len() implies (#[trigger] prefix[k])@
            < groups.len() by {
            assert(prefix[k] == states[k]);
        }
        lemma_flatten_below(groups, prefix, count);
        let before = flatten_moves(groups, prefix);
        let last = groups[states.last()@ as int];
        assert(states.last() == states[states.len() - 1]);
        assert forall|i: int| 0 <= i < flatten_moves(groups, states).len() implies (
        #[trigger] flatten_moves(groups, states)[i]).target@ < count by {
            if i >= before.len() {
                assert(flatten_moves(groups, states)[i] == last[i - before.len()]);
            }
        }
    }
}

/// The targets of the transitions whose labels fall in one class are the
/// targets that each symbol of that class reaches.
proof fn lemma_class_seeds<L: Label>(
    groups: Seq<Seq<Transition<L>>>,
    subset: Seq<StateId>,
    flat: Seq<Transition<L>>,
    labels: Seq<L>,
    targets: Seq<StateId>,
    indexes: Seq<usize>,
    seeds: Seq<StateId>,
    symbol: L::Symbol,
)
    requires
        flat == flatten_moves(groups, subset),
        labels == flat.map_values(|transition: Transition<L>| transition.label),
        targets == flat.map_values(|transition: Transition<L>| transition.target),
        forall|k: int| 0 <= k < indexes.len() ==> indexes[k] < labels.len(),
        forall|i: int|
            0 <= i < labels.len() ==> (indexes.contains(i as usize) <==> #[trigger] labels[i].spec_matches(
                symbol,
            )),
        seeds.len() == indexes.len(),
        labels.len() <= usize::MAX,
        forall|n: int| 0 <= n < seeds.len() ==> #[trigger] seeds[n] == targets[indexes[n] as int],
    ensures
        id_set(seeds) == id_set(moves(groups, subset, symbol)),
{
    lemma_moves_flat(groups, subset, symbol);
    lemma_matching_targets(flat, symbol);
    assert forall|target: nat| #[trigger] id_set(seeds).contains(target) implies id_set(
        moves(groups, subset, symbol),
    ).contains(target) by {
        let n = choose|n: int| 0 <= n < seeds.len() && (#[trigger] seeds[n])@ == target;
        let i = indexes[n] as int;
        assert(indexes.contains(i as usize));
        assert(labels[i].spec_matches(symbol));
        assert(flat[i].label.spec_matches(symbol));
    }
    assert forall|target: nat| #[trigger] id_set(moves(groups, subset, symbol)).contains(
        target,
    ) implies id_set(seeds).contains(target) by {
        let k = choose|k: int|
            0 <= k < flat.len() && #[trigger] flat[k].label.spec_matches(symbol) && flat[k].target@
                == target;
        assert(labels[k] == flat[k].label);
        assert(indexes.contains(k as usize));
        let n = choose|n: int| 0 <= n < indexes.len() && indexes[n] == k as usize;
        assert(indexes[n] as int == k);
        assert(seeds[n] == targets[k]);
    }
    assert(id_set(seeds) =~= id_set(moves(groups, subset, symbol)));
}

/// The closure of some states of an automaton holds a state.
proof fn lemma_closure_nonempty<L, A>(nfa: &Nfa<L, A>, seeds: Seq<StateId>)
    requires
        nfa.well_formed(),
        seeds.len() > 0,
        forall|k: int| 0 <= k < seeds.len() ==> (#[trigger] seeds[k])@ < nfa.spec_state_count(),
    ensures
        ascending(closure(nfa.spec_epsilons(), id_set(seeds)), nfa.spec_state_count()).len() > 0,
{
    let set = closure(nfa.spec_epsilons(), id_set(seeds));
    assert(id_set(seeds).contains(seeds[0]@));
    assert(set.contains(seeds[0]@));
    lemma_ascending(set, nfa.spec_state_count());
    let sequence = ascending(set, nfa.spec_state_count());
    assert(set.filter(|index: nat| index < nfa.spec_state_count()).contains(seeds[0]@));
    assert(id_set(sequence).contains(seeds[0]@));
}

/// The transitions of one class for each class of the labels of the states
/// of a set step as the automaton does from that set.
proof fn lemma_class_steps<L: Partitionable, A>(
    nfa: &Nfa<L, A>,
    transitions: Seq<Transition<L>>,
    subsets: Seq<Seq<StateId>>,
    subset: Seq<StateId>,
    flat: Seq<Transition<L>>,
    labels: Seq<L>,
    classes: Seq<LabelClass<L>>,
    interned: Seq<StateId>,
)
    requires
        nfa.well_formed(),
        forall|k: int| 0 <= k < subset.len() ==> (#[trigger] subset[k])@ < nfa.spec_state_count(),
        flat == flatten_moves(nfa.spec_transitions(), subset),
        labels == flat.map_values(|transition: Transition<L>| transition.label),
        is_partition(labels, classes),
        interned.len() == classes.len(),
        transitions == Seq::new(
            classes.len(),
            |i: int| Transition { label: classes[i].label, target: interned[i] },
        ),
        forall|i: int|
            0 <= i < classes.len() ==> (#[trigger] interned[i])@ < subsets.len()
                && subsets[interned[i]@ as int].len() > 0,
        forall|i: int, symbol: L::Symbol|
            0 <= i < classes.len() && #[trigger] classes[i].label.spec_matches(symbol)
                ==> subsets[interned[i]@ as int] == next_states(nfa, subset, symbol),
    ensures
        steps_like(nfa, transitions, subsets, subset),
{
    assert forall|symbol: L::Symbol| {
        &&& (#[trigger] target_of(transitions, symbol)) is None <==> next_states(
            nfa,
            subset,
            symbol,
        ).len() == 0
        &&& target_of(transitions, symbol) matches Some(target) ==> target@ < subsets.len()
            && subsets[target@ as int] == next_states(nfa, subset, symbol)
    } by {
        if exists|k: int|
            0 <= k < transitions.len() && #[trigger] transitions[k].label.spec_matches(symbol) {
            let k = choose|k: int|
                0 <= k < transitions.len() && #[trigger] transitions[k].label.spec_matches(symbol);
            assert(classes[k].label.spec_matches(symbol));
        } else {
            lemma_moves_flat(nfa.spec_transitions(), subset, symbol);
            lemma_matching_targets(flat, symbol);
            let moved = id_set(moves(nfa.spec_transitions(), subset, symbol));
            assert forall|target: nat| !moved.contains(target) by {
                if moved.contains(target) {
                    let k = choose|k: int|
                        0 <= k < flat.len() && #[trigger] flat[k].label.spec_matches(symbol)
                            && flat[k].target@ == target;
                    assert(labels[k] == flat[k].label);
                    assert(labels[k].spec_matches(symbol));
                    let c = choose|c: int|
                        0 <= c < classes.len() && #[trigger] classes[c].label.spec_matches(symbol);
                    assert(transitions[c].label.spec_matches(symbol));
                }
            }
            assert(moved =~= Set::<nat>::empty());
            lemma_no_state(nfa.spec_epsilons(), nfa.spec_state_count());
        }
    }
}

/// Returns `true` if `first` and `second` hold the same states in the same
/// sequence.
fn same_states(first: &[StateId], second: &[StateId]) -> (same: bool)
    ensures
        same == (first@ == second@),
{
    if first.len() != second.len() {
        return false;
    }
    let mut i: usize = 0;
    while i < first.len()
        invariant
            first@.len() == second@.len(),
            i <= first@.len(),
            forall|k: int| 0 <= k < i ==> first@[k] == second@[k],
        decreases first@.len() - i,
    {
        if first[i].index() != second[i].index() {
            return false;
        }
        i = i + 1;
    }
    proof {
        assert(first@ =~= second@);
    }
    true
}

/// The state of one subset construction.
///
/// The construction numbers the sets that it meets in the sequence in which
/// it meets them: the set at index `i` of [`subsets`](Self::subsets) is the
/// state `i` of the result. It expands the sets in that sequence, thus each
/// set below [`next_subset`](Self::next_subset) holds its transitions.
pub struct Construction<'a, L, A, B, F> {
    nfa: &'a Nfa<L, A>,
    builder: Builder<L, B>,
    selector: F,
    subsets: Vec<Vec<StateId>>,
    next_subset: usize,
    closure: StateSet,
    targets: Vec<StateId>,
}

impl<'a, L: Partitionable, A, B, F: Fn(&[StateId]) -> B> Construction<'a, L, A, B, F> {
    /// The automaton that the construction reads.
    pub closed spec fn spec_nfa(&self) -> Nfa<L, A> {
        *self.nfa
    }

    /// The builder of the result.
    pub closed spec fn spec_builder(&self) -> Builder<L, B> {
        self.builder
    }

    /// The selector of the accepts.
    pub closed spec fn spec_selector(&self) -> F {
        self.selector
    }

    /// The set of states that each state of the result stands for.
    pub closed spec fn spec_subsets(&self) -> Seq<Seq<StateId>> {
        self.subsets@.map_values(|subset: Vec<StateId>| subset@)
    }

    /// The states of the last closure.
    pub closed spec fn spec_closure(&self) -> Seq<StateId> {
        self.closure.view()
    }

    /// The seeds of the last closure.
    pub closed spec fn spec_seeds(&self) -> Seq<StateId> {
        self.targets@
    }

    /// The number of the sets that the construction expanded.
    pub closed spec fn spec_next_subset(&self) -> nat {
        self.next_subset as nat
    }

    /// Whether the buffers of the construction fit its automaton.
    pub closed spec fn buffers_well_formed(&self) -> bool {
        &&& self.closure.well_formed()
        &&& self.closure.spec_bound() == self.nfa.spec_state_count()
    }

    /// Whether the construction is consistent: each state of the result
    /// stands for one set of states of the automaton, and each accept is the
    /// accept of its set.
    pub open spec fn consistent(&self) -> bool {
        let nfa = self.spec_nfa();
        let builder = self.spec_builder();
        let subsets = self.spec_subsets();
        &&& nfa.well_formed()
        &&& self.buffers_well_formed()
        &&& builder.well_formed()
        &&& builder.spec_table().spec_capacity() == spec_state_capacity()
        &&& builder.spec_state_count() == subsets.len()
        &&& self.spec_next_subset() <= subsets.len()
        &&& subsets_below(subsets, nfa.spec_state_count())
        &&& distinct_subsets(subsets)
        &&& reached_in_turn(&nfa, subsets)
        &&& forall|states: &[StateId]| #[trigger] call_requires(self.spec_selector(), (states,))
        &&& accepts_like(&nfa, builder.spec_table().spec_accepts(), subsets, self.spec_selector())
    }

    /// Whether each expanded state of the result steps as the automaton does
    /// from its set, and the others have no transition yet. A builder that
    /// recorded an error promises no transition.
    pub open spec fn expanded_well(&self) -> bool {
        let nfa = self.spec_nfa();
        let subsets = self.spec_subsets();
        let groups = self.spec_builder().spec_table().spec_groups();
        self.spec_builder().spec_table().spec_error() is None ==> {
            &&& targets_below(groups, subsets.len() as int)
            &&& deterministic(groups)
            &&& forall|state: int|
                0 <= state < self.spec_next_subset() ==> steps_like(
                    &nfa,
                    #[trigger] groups[state],
                    subsets,
                    subsets[state],
                )
            &&& forall|state: int|
                self.spec_next_subset() <= state < subsets.len() ==> (#[trigger] groups[state]).len()
                    == 0
        }
    }

    /// Whether the construction is consistent and each expanded state steps
    /// as the automaton does.
    pub open spec fn well_formed(&self) -> bool {
        &&& self.consistent()
        &&& self.expanded_well()
    }

    /// Creates a construction that has met no set.
    pub fn new(nfa: &'a Nfa<L, A>, selector: F) -> (construction: Self)
        requires
            nfa.well_formed(),
            forall|states: &[StateId]| #[trigger] call_requires(selector, (states,)),
        ensures
            construction.well_formed(),
            construction.spec_nfa() == *nfa,
            construction.spec_selector() == selector,
            construction.spec_subsets().len() == 0,
            construction.spec_next_subset() == 0,
            construction.spec_closure().len() == 0,
            construction.spec_seeds().len() == 0,
    {
        let construction = Construction {
            nfa,
            builder: Builder::new(),
            selector,
            subsets: Vec::new(),
            next_subset: 0,
            closure: StateSet::new(nfa.state_count()),
            targets: Vec::new(),
        };
        proof {
            assert(construction.spec_subsets() =~= Seq::<Seq<StateId>>::empty());
            assert(construction.spec_builder().spec_table().spec_groups() =~= Seq::<
                Seq<Transition<L>>,
            >::empty());
        }
        construction
    }

    /// Returns the number of the states of the result.
    pub fn state_count(&self) -> (count: usize)
        ensures
            count == self.spec_builder().spec_state_count(),
    {
        self.builder.state_count()
    }

    /// Returns the set of states of the automaton that each state of the
    /// result stands for.
    pub fn subsets(&self) -> (subsets: &[Vec<StateId>])
        ensures
            subsets@.map_values(|subset: Vec<StateId>| subset@) == self.spec_subsets(),
    {
        self.subsets.as_slice()
    }

    /// Returns the number of the sets that the construction expanded.
    pub fn next_subset(&self) -> (next: usize)
        ensures
            next == self.spec_next_subset(),
    {
        self.next_subset
    }

    /// Returns the state of the result that stands for `subset`, if the
    /// construction met that set.
    pub fn state_of(&self, subset: &[StateId]) -> (state: Option<StateId>)
        requires
            self.consistent(),
        ensures
            state is None <==> forall|set: int|
                0 <= set < self.spec_subsets().len() ==> #[trigger] self.spec_subsets()[set]
                    != subset@,
            state matches Some(found) ==> found@ < self.spec_subsets().len()
                && self.spec_subsets()[found@ as int] == subset@,
    {
        let mut i: usize = 0;
        while i < self.subsets.len()
            invariant
                i <= self.subsets@.len(),
                self.spec_subsets().len() == self.subsets@.len(),
                self.subsets@.len() <= spec_state_capacity(),
                forall|set: int| 0 <= set < i ==> #[trigger] self.spec_subsets()[set] != subset@,
            decreases self.subsets@.len() - i,
        {
            if same_states(self.subsets[i].as_slice(), subset) {
                proof {
                    assert(self.spec_subsets()[i as int] == subset@);
                }
                return Some(StateId::new(i));
            }
            i = i + 1;
        }
        None
    }

    /// Returns the states of the last closure.
    pub fn closure_states(&self) -> (states: &[StateId])
        ensures
            states@ == self.spec_closure(),
    {
        self.closure.members()
    }

    /// Returns the seeds of the last closure.
    pub fn closure_seeds(&self) -> (seeds: &[StateId])
        ensures
            seeds@ == self.spec_seeds(),
    {
        self.targets.as_slice()
    }

    /// Returns the state of the result that stands for `subset`, and adds
    /// that state if the construction has not met the set.
    ///
    /// A new state accepts if a state of its set accepts, and its accept is
    /// the value that the selector gives for the set. A new state past the
    /// capacity of the result records the error of the builder, and the
    /// construction then meets no more sets.
    pub fn intern(&mut self, subset: Vec<StateId>) -> (state: StateId)
        requires
            old(self).consistent(),
            reachable_from(&old(self).spec_nfa(), old(self).spec_subsets(), subset@),
            forall|k: int| 0 <= k < subset@.len() ==> (#[trigger] subset@[k])@
                < old(self).spec_nfa().spec_state_count(),
        ensures
            final(self).consistent(),
            old(self).well_formed() ==> final(self).well_formed(),
            forall|state: int|
                old(self).spec_subsets().len() <= state < final(self).spec_subsets().len()
                    ==> (#[trigger] final(self).spec_builder().spec_table().spec_groups()[state]).len()
                    == 0,
            final(self).spec_nfa() == old(self).spec_nfa(),
            final(self).spec_selector() == old(self).spec_selector(),
            final(self).spec_next_subset() == old(self).spec_next_subset(),
            final(self).spec_builder().spec_table().spec_edges() == old(
                self,
            ).spec_builder().spec_table().spec_edges(),
            final(self).spec_subsets().len() >= old(self).spec_subsets().len(),
            forall|set: int|
                0 <= set < old(self).spec_subsets().len() ==> #[trigger] final(self).spec_subsets()[set]
                    == old(self).spec_subsets()[set],
            final(self).spec_builder().spec_table().spec_error() is None ==> {
                &&& old(self).spec_builder().spec_table().spec_error() is None
                &&& state@ < final(self).spec_subsets().len()
                &&& final(self).spec_subsets()[state@ as int] == subset@
            },
            (exists|set: int|
                0 <= set < old(self).spec_subsets().len() && #[trigger] old(self).spec_subsets()[set]
                    == subset@) ==> final(self).spec_subsets() == old(self).spec_subsets(),
            final(self).spec_subsets() == old(self).spec_subsets() || {
                &&& final(self).spec_subsets() == old(self).spec_subsets().push(subset@)
                &&& forall|set: int|
                    0 <= set < old(self).spec_subsets().len() ==> #[trigger] old(
                        self,
                    ).spec_subsets()[set] != subset@
            },
    {
        if let Some(existing) = self.state_of(subset.as_slice()) {
            return existing;
        }
        let count = self.builder.state_count();
        let state = self.builder.add_state();
        if self.builder.state_count() == count {
            return state;
        }
        let ghost builder_before = self.builder;
        let ghost accepts_before = self.builder.spec_table().spec_accepts();
        let mut accepting_subset = false;
        let mut i: usize = 0;
        while i < subset.len()
            invariant
                self.nfa.well_formed(),
                i <= subset@.len(),
                forall|k: int| 0 <= k < subset@.len() ==> (#[trigger] subset@[k])@
                    < self.nfa.spec_state_count(),
                accepting_subset <==> exists|k: int|
                    0 <= k < i && (#[trigger] self.nfa.spec_accepts()[subset@[k]@ as int]) is Some,
            decreases subset@.len() - i,
        {
            if self.nfa.accepts(subset[i]) {
                accepting_subset = true;
            }
            i = i + 1;
        }
        proof {
            assert(accepting_subset == accepting(self.nfa, subset@));
        }
        let ghost mut chosen: Option<B> = None;
        let ghost mut witness: &[StateId] = arbitrary();
        if accepting_subset {
            let states = subset.as_slice();
            let accept = (self.selector)(states);
            proof {
                assert(call_ensures(self.selector, (states,), accept));
                assert(states@ == subset@);
                assert(exists|witness: &[StateId]|
                    witness@ == subset@ && #[trigger] call_ensures(
                        self.selector,
                        (witness,),
                        accept,
                    ));
                chosen = Some(accept);
                witness = states;
                assert(chosen->Some_0 == accept);
                assert(call_ensures(self.selector, (states,), chosen->Some_0));
                assert(exists|witness: &[StateId]|
                    witness@ == subset@ && #[trigger] call_ensures(
                        self.selector,
                        (witness,),
                        chosen->Some_0,
                    ));
            }
            self.builder.set_accept(state, accept);
        }
        let ghost old_subsets = self.spec_subsets();
        self.subsets.push(subset);
        proof {
            let subsets = self.spec_subsets();
            assert(subsets =~= old_subsets.push(subset@));
            lemma_reached_push(self.nfa, old_subsets, subset@);
            let table = self.builder.spec_table();
            let edges = table.spec_edges();
            let groups = table.spec_groups();
            let old_groups = old(self).spec_builder().spec_table().spec_groups();
            assert forall|set: int| 0 <= set < old_groups.len() implies #[trigger] groups[set]
                == old_groups[set] by {}
            assert(groups[count as int].len() == 0) by {
                assert forall|i: int| 0 <= i < edges.len() implies (#[trigger] edges[i]).0@
                    != count by {}
                lemma_group_empty(edges, count as int);
            }
            let accepts = table.spec_accepts();
            assert forall|set: int| 0 <= set < old_subsets.len() implies #[trigger] accepts[set]
                == accepts_before[set] by {}
            assert forall|first: int, second: int|
                0 <= first < second < subsets.len() implies #[trigger] subsets[first]
                != #[trigger] subsets[second] by {
                if second == old_subsets.len() {
                    assert(old_subsets[first] != subset@);
                }
            }
            assert(self.buffers_well_formed());
            assert(self.builder.well_formed());
            assert(subsets_below(subsets, self.nfa.spec_state_count()));
            assert(accepts[count as int] == chosen);
            assert(chosen is Some <==> accepting(self.nfa, subsets[count as int]));
            if accepting_subset {
                assert(witness@ == subsets[count as int]);
                assert(call_ensures(self.selector, (witness,), chosen->Some_0));
            }
            assert(accepts_like(self.nfa, accepts, subsets, self.selector));
            if old(self).well_formed() && table.spec_error() is None {
                assert(targets_below(groups, subsets.len() as int));
                assert(deterministic(groups));
            }
        }
        state
    }

    /// Returns the state of the result that stands for the closure of
    /// `seeds`, and adds that state if the construction has not met the set.
    pub fn intern_closure(&mut self, seeds: &[StateId]) -> (state: StateId)
        requires
            old(self).consistent(),
            reachable_from(
                &old(self).spec_nfa(),
                old(self).spec_subsets(),
                ascending(
                    closure(old(self).spec_nfa().spec_epsilons(), id_set(seeds@)),
                    old(self).spec_nfa().spec_state_count(),
                ),
            ),
            forall|k: int| 0 <= k < seeds@.len() ==> (#[trigger] seeds@[k])@
                < old(self).spec_nfa().spec_state_count(),
        ensures
            final(self).consistent(),
            old(self).well_formed() ==> final(self).well_formed(),
            forall|state: int|
                old(self).spec_subsets().len() <= state < final(self).spec_subsets().len()
                    ==> (#[trigger] final(self).spec_builder().spec_table().spec_groups()[state]).len()
                    == 0,
            final(self).spec_nfa() == old(self).spec_nfa(),
            final(self).spec_selector() == old(self).spec_selector(),
            final(self).spec_next_subset() == old(self).spec_next_subset(),
            final(self).spec_builder().spec_table().spec_edges() == old(
                self,
            ).spec_builder().spec_table().spec_edges(),
            final(self).spec_subsets().len() >= old(self).spec_subsets().len(),
            forall|set: int|
                0 <= set < old(self).spec_subsets().len() ==> #[trigger] final(self).spec_subsets()[set]
                    == old(self).spec_subsets()[set],
            final(self).spec_builder().spec_table().spec_error() is None ==> {
                &&& old(self).spec_builder().spec_table().spec_error() is None
                &&& state@ < final(self).spec_subsets().len()
                &&& final(self).spec_subsets()[state@ as int] == ascending(
                    closure(old(self).spec_nfa().spec_epsilons(), id_set(seeds@)),
                    old(self).spec_nfa().spec_state_count(),
                )
            },
    {
        self.targets.clear();
        let mut i: usize = 0;
        while i < seeds.len()
            invariant
                i <= seeds@.len(),
                self.targets@ == seeds@.take(i as int),
                self.nfa == old(self).nfa,
                self.builder == old(self).builder,
                self.selector == old(self).selector,
                self.subsets == old(self).subsets,
                self.next_subset == old(self).next_subset,
                self.closure == old(self).closure,
            decreases seeds@.len() - i,
        {
            self.targets.push(seeds[i]);
            i = i + 1;
            proof {
                assert(self.targets@ =~= seeds@.take(i as int));
            }
        }
        proof {
            assert(seeds@.take(seeds@.len() as int) =~= seeds@);
        }
        epsilon_closure(self.nfa, &self.targets, &mut self.closure);
        let subset = copied(self.closure.members());
        proof {
            lemma_ascending(
                closure(self.nfa.spec_epsilons(), id_set(seeds@)),
                self.nfa.spec_state_count(),
            );
        }
        self.intern(subset)
    }

    /// Adds the state of the closure of each start of the automaton, and
    /// returns those states, the first start first.
    pub fn seed(&mut self) -> (starts: Vec<StateId>)
        requires
            old(self).well_formed(),
        ensures
            final(self).well_formed(),
            final(self).spec_nfa() == old(self).spec_nfa(),
            final(self).spec_selector() == old(self).spec_selector(),
            final(self).spec_next_subset() == old(self).spec_next_subset(),
            final(self).spec_builder().spec_table().spec_edges() == old(
                self,
            ).spec_builder().spec_table().spec_edges(),
            final(self).spec_subsets().len() >= old(self).spec_subsets().len(),
            forall|set: int|
                0 <= set < old(self).spec_subsets().len() ==> #[trigger] final(self).spec_subsets()[set]
                    == old(self).spec_subsets()[set],
            starts@.len() == old(self).spec_nfa().spec_starts().len(),
            final(self).spec_builder().spec_table().spec_error() is None ==> {
                &&& old(self).spec_builder().spec_table().spec_error() is None
                &&& forall|start: int|
                    0 <= start < starts@.len() ==> (#[trigger] starts@[start])@
                        < final(self).spec_subsets().len() && final(self).spec_subsets()[starts@[
                        start
                    ]@ as int] == start_states(&old(self).spec_nfa(), start)
            },
    {
        let ghost nfa = *self.nfa;
        let count = self.nfa.start_states().len();
        let mut starts: Vec<StateId> = Vec::new();
        let mut k: usize = 0;
        while k < count
            invariant
                self.well_formed(),
                self.spec_nfa() == nfa,
                self.spec_selector() == old(self).spec_selector(),
                self.spec_next_subset() == old(self).spec_next_subset(),
                self.spec_builder().spec_table().spec_edges() == old(
                    self,
                ).spec_builder().spec_table().spec_edges(),
                self.spec_subsets().len() >= old(self).spec_subsets().len(),
                forall|set: int|
                    0 <= set < old(self).spec_subsets().len() ==> #[trigger] self.spec_subsets()[set]
                        == old(self).spec_subsets()[set],
                count == nfa.spec_starts().len(),
                k <= count,
                starts@.len() == k,
                self.spec_builder().spec_table().spec_error() is None ==> {
                    &&& old(self).spec_builder().spec_table().spec_error() is None
                    &&& forall|start: int|
                        0 <= start < k ==> (#[trigger] starts@[start])@ < self.spec_subsets().len()
                            && self.spec_subsets()[starts@[start]@ as int] == start_states(
                            &nfa,
                            start,
                        )
                },
            decreases count - k,
        {
            let start = self.nfa.start_state(k);
            let seeds = [start];
            proof {
                assert(id_set(seeds@) =~= set![start@]) by {
                    assert(seeds@[0] == start);
                }
            }
            let ghost before = self.spec_subsets();
            proof {
                assert(start == nfa.spec_starts()[k as int]);
                assert(start_states(&nfa, k as int) == ascending(
                    closure(nfa.spec_epsilons(), id_set(seeds@)),
                    nfa.spec_state_count(),
                ));
            }
            let state = self.intern_closure(&seeds);
            starts.push(state);
            proof {
                if self.spec_builder().spec_table().spec_error() is None {
                    assert forall|start_index: int|
                        0 <= start_index < k + 1 implies (#[trigger] starts@[start_index])@
                        < self.spec_subsets().len() && self.spec_subsets()[starts@[start_index]@ as int]
                        == start_states(&nfa, start_index) by {
                        if start_index < k {
                            assert(self.spec_subsets()[starts@[start_index]@ as int]
                                == before[starts@[start_index]@ as int]);
                        }
                    }
                }
            }
            k = k + 1;
        }
        starts
    }

    /// Expands the next set that the construction met: adds one transition
    /// for each class of the labels of its states, to the state of the closure
    /// of the targets of that class.
    ///
    /// Returns `false` if each set is expanded.
    #[verifier::rlimit(50)]
    pub fn expand_next(&mut self) -> (expanded: bool)
        requires
            old(self).well_formed(),
        ensures
            final(self).well_formed(),
            final(self).spec_nfa() == old(self).spec_nfa(),
            final(self).spec_selector() == old(self).spec_selector(),
            expanded == (old(self).spec_next_subset() < old(self).spec_subsets().len()),
            expanded ==> final(self).spec_next_subset() == old(self).spec_next_subset() + 1,
            !expanded ==> final(self).spec_next_subset() == old(self).spec_next_subset(),
            !expanded ==> final(self).spec_subsets() == old(self).spec_subsets(),
            final(self).spec_builder().spec_table().spec_error() is None ==> old(
                self,
            ).spec_builder().spec_table().spec_error() is None,
            final(self).spec_subsets().len() >= old(self).spec_subsets().len(),
            forall|set: int|
                0 <= set < old(self).spec_subsets().len() ==> #[trigger] final(self).spec_subsets()[set]
                    == old(self).spec_subsets()[set],
    {
        if self.next_subset == self.subsets.len() {
            return false;
        }
        let index = self.next_subset;
        let source = StateId::new(index);
        let subset = copied(self.subsets[index].as_slice());
        let ghost nfa = *self.nfa;
        let ghost moves_of = nfa.spec_transitions();
        let ghost subsets0 = self.spec_subsets();
        let ghost flat = flatten_moves(moves_of, subset@);
        proof {
            assert(subset@ == subsets0[index as int]);
        }

        // The labels of the transitions of the states of the set, and their targets.
        let mut labels: Vec<L> = Vec::new();
        let mut transition_targets: Vec<StateId> = Vec::new();
        let mut j: usize = 0;
        proof {
            assert(labels@ =~= flatten_moves(moves_of, subset@.take(0)).map_values(
                |transition: Transition<L>| transition.label,
            ));
            assert(transition_targets@ =~= flatten_moves(moves_of, subset@.take(0)).map_values(
                |transition: Transition<L>| transition.target,
            ));
        }
        while j < subset.len()
            invariant
                nfa.well_formed(),
                *self.nfa == nfa,
                moves_of == nfa.spec_transitions(),
                j <= subset@.len(),
                forall|k: int| 0 <= k < subset@.len() ==> (#[trigger] subset@[k])@
                    < nfa.spec_state_count(),
                labels@ == flatten_moves(moves_of, subset@.take(j as int)).map_values(
                    |transition: Transition<L>| transition.label,
                ),
                transition_targets@ == flatten_moves(moves_of, subset@.take(j as int)).map_values(
                    |transition: Transition<L>| transition.target,
                ),
            decreases subset@.len() - j,
        {
            let transitions = self.nfa.transitions(subset[j]);
            let ghost labels_before = labels@;
            let ghost targets_before = transition_targets@;
            let mut k: usize = 0;
            proof {
                assert(labels@ =~= labels_before + transitions@.take(0).map_values(
                    |transition: Transition<L>| transition.label,
                ));
                assert(transition_targets@ =~= targets_before + transitions@.take(0).map_values(
                    |transition: Transition<L>| transition.target,
                ));
            }
            while k < transitions.len()
                invariant
                    k <= transitions@.len(),
                    labels@ == labels_before + transitions@.take(k as int).map_values(
                        |transition: Transition<L>| transition.label,
                    ),
                    transition_targets@ == targets_before + transitions@.take(k as int).map_values(
                        |transition: Transition<L>| transition.target,
                    ),
                decreases transitions@.len() - k,
            {
                labels.push(transitions[k].label);
                transition_targets.push(transitions[k].target);
                k = k + 1;
                proof {
                    assert(labels@ =~= labels_before + transitions@.take(k as int).map_values(
                        |transition: Transition<L>| transition.label,
                    ));
                    assert(transition_targets@ =~= targets_before + transitions@.take(
                        k as int,
                    ).map_values(|transition: Transition<L>| transition.target));
                }
            }
            proof {
                assert(transitions@.take(transitions@.len() as int) =~= transitions@);
                assert(subset@.take(j + 1).drop_last() =~= subset@.take(j as int));
                assert(subset@.take(j + 1).last() == subset@[j as int]);
                let flat_next = flatten_moves(moves_of, subset@.take(j + 1));
                assert(flat_next == flatten_moves(moves_of, subset@.take(j as int)) + transitions@);
                assert(labels@ =~= flat_next.map_values(|transition: Transition<L>| transition.label));
                assert(transition_targets@ =~= flat_next.map_values(
                    |transition: Transition<L>| transition.target,
                ));
            }
            j = j + 1;
        }
        proof {
            assert(subset@.take(subset@.len() as int) =~= subset@);
        }

        let label_count = labels.len();
        let classes = L::partition(labels.as_slice());
        let ghost mut interned: Seq<StateId> = Seq::empty();
        let mut c: usize = 0;
        while c < classes.len()
            invariant
                self.consistent(),
                self.spec_nfa() == nfa,
                self.spec_selector() == old(self).spec_selector(),
                self.spec_next_subset() == index,
                moves_of == nfa.spec_transitions(),
                index < subsets0.len(),
                subset@ == subsets0[index as int],
                source@ == index,
                forall|k: int| 0 <= k < subset@.len() ==> (#[trigger] subset@[k])@
                    < nfa.spec_state_count(),
                self.spec_subsets().len() >= subsets0.len(),
                forall|set: int|
                    0 <= set < subsets0.len() ==> #[trigger] self.spec_subsets()[set]
                        == subsets0[set],
                subsets0 == old(self).spec_subsets(),
                self.spec_builder().spec_table().spec_error() is None ==> old(
                    self,
                ).spec_builder().spec_table().spec_error() is None,
                flat == flatten_moves(moves_of, subset@),
                labels@ == flat.map_values(|transition: Transition<L>| transition.label),
                transition_targets@ == flat.map_values(|transition: Transition<L>| transition.target),
                is_partition(labels@, classes@),
                forall|i: int| 0 <= i < classes@.len() ==> #[trigger] inhabited(classes@[i].label),
                labels@.len() == label_count,
                c <= classes@.len(),
                interned.len() == c,
                self.spec_builder().spec_table().spec_error() is None ==> {
                    let groups = self.spec_builder().spec_table().spec_groups();
                    let subsets = self.spec_subsets();
                    &&& targets_below(groups, subsets.len() as int)
                    &&& deterministic(groups)
                    &&& forall|state: int|
                        0 <= state < index ==> steps_like(
                            &nfa,
                            #[trigger] groups[state],
                            subsets,
                            subsets[state],
                        )
                    &&& forall|state: int|
                        index < state < subsets.len() ==> (#[trigger] groups[state]).len() == 0
                    &&& groups[index as int] == Seq::new(
                        c as nat,
                        |i: int| Transition { label: classes@[i].label, target: interned[i] },
                    )
                    &&& forall|i: int|
                        0 <= i < c ==> (#[trigger] interned[i])@ < subsets.len()
                            && subsets[interned[i]@ as int].len() > 0
                    &&& forall|i: int, symbol: L::Symbol|
                        0 <= i < c && #[trigger] classes@[i].label.spec_matches(symbol)
                            ==> subsets[interned[i]@ as int] == next_states(&nfa, subset@, symbol)
                },
            decreases classes@.len() - c,
        {
            let class = &classes[c];
            let matching = class.get_matching_labels();
            let mut seeds: Vec<StateId> = Vec::new();
            let mut m: usize = 0;
            while m < matching.len()
                invariant
                    m <= matching@.len(),
                    matching@ == classes@[c as int].matching_labels@,
                    is_partition(labels@, classes@),
                    c < classes@.len(),
                    transition_targets@.len() == labels@.len(),
                    seeds@.len() == m,
                    forall|n: int|
                        0 <= n < m ==> #[trigger] seeds@[n] == transition_targets@[matching@[n] as int],
                decreases matching@.len() - m,
            {
                seeds.push(transition_targets[matching[m]]);
                m = m + 1;
            }
            proof {
                assert forall|k: int| 0 <= k < seeds@.len() implies (#[trigger] seeds@[k])@
                    < nfa.spec_state_count() by {
                    lemma_flatten_below(moves_of, subset@, nfa.spec_state_count());
                    assert(seeds@[k] == flat[matching@[k] as int].target);
                }
                assert forall|symbol: L::Symbol|
                    #[trigger] classes@[c as int].label.spec_matches(symbol) implies id_set(seeds@)
                    == id_set(moves(moves_of, subset@, symbol)) by {
                    lemma_class_seeds(
                        moves_of,
                        subset@,
                        flat,
                        labels@,
                        transition_targets@,
                        classes@[c as int].matching_labels@,
                        seeds@,
                        symbol,
                    );
                }
            }
            let ghost before = *self;
            proof {
                assert(inhabited(classes@[c as int].label));
                let symbol = choose|symbol: L::Symbol| #[trigger] classes@[c as int].label.spec_matches(
                    symbol,
                );
                assert(id_set(seeds@) == id_set(moves(moves_of, subset@, symbol)));
                assert(self.spec_subsets()[index as int] == subset@);
                assert(ascending(closure(nfa.spec_epsilons(), id_set(seeds@)), nfa.spec_state_count())
                    == next_states(&nfa, self.spec_subsets()[index as int], symbol));
            }
            let target = self.intern_closure(seeds.as_slice());
            let ghost mid = *self;
            let label = *class.get_label();
            self.builder.add_transition(source, label, target);
            proof {
                let table = self.spec_builder().spec_table();
                if table.spec_error() is None {
                    let groups = table.spec_groups();
                    let subsets = self.spec_subsets();
                    let before_groups = before.spec_builder().spec_table().spec_groups();
                    let mid_groups = mid.spec_builder().spec_table().spec_groups();
                    let edges_before = before.spec_builder().spec_table().spec_edges();
                    assert forall|state: int| 0 <= state < mid_groups.len() && state != index implies (
                    #[trigger] mid_groups[state]).len() == 0 || (state < before_groups.len()
                        && mid_groups[state] == before_groups[state]) by {
                        if state < before_groups.len() {
                            assert(mid_groups[state] == before_groups[state]);
                        }
                    }
                    let pushed = Transition { label, target };
                    assert(table.spec_edges() == edges_before.push((source, pushed)));
                    assert forall|state: int| 0 <= state < groups.len() implies #[trigger] groups[state]
                        == if state == index {
                        group_of(edges_before, state).push(pushed)
                    } else {
                        group_of(edges_before, state)
                    } by {
                        lemma_group_push(edges_before, (source, pushed), state);
                    }
                    let next_interned = interned.push(target);
                    assert(groups[index as int] =~= Seq::new(
                        (c + 1) as nat,
                        |i: int| Transition { label: classes@[i].label, target: next_interned[i] },
                    ));
                    lemma_closure_nonempty(&nfa, seeds@);
                    assert forall|state: int|
                        0 <= state < index implies steps_like(
                        &nfa,
                        #[trigger] groups[state],
                        subsets,
                        subsets[state],
                    ) by {
                        assert(groups[state] == mid_groups[state]);
                        assert(mid_groups[state] == before_groups[state]);
                        lemma_steps_like_grow(
                            &nfa,
                            groups[state],
                            before.spec_subsets(),
                            subsets,
                            subsets[state],
                        );
                        assert(subsets[state] == before.spec_subsets()[state]);
                    }
                    assert(deterministic(groups)) by {
                        assert forall|state: int, first: int, second: int, symbol: L::Symbol|
                            0 <= state < groups.len() && 0 <= first < second < groups[state].len()
                                && #[trigger] groups[state][first].label.spec_matches(symbol)
                                implies !#[trigger] groups[state][second].label.spec_matches(
                            symbol,
                        ) by {
                            if state == index {
                                assert(groups[state][first].label == classes@[first].label);
                                assert(groups[state][second].label == classes@[second].label);
                            } else {
                                assert(groups[state] == mid_groups[state]);
                                if state < before_groups.len() && mid_groups[state].len() > 0 {
                                    assert(mid_groups[state] == before_groups[state]);
                                }
                            }
                        }
                    }
                    assert forall|i: int, symbol: L::Symbol|
                        0 <= i < c + 1 && #[trigger] classes@[i].label.spec_matches(symbol)
                            implies subsets[next_interned[i]@ as int] == next_states(
                        &nfa,
                        subset@,
                        symbol,
                    ) by {
                        if i < c {
                            assert(subsets[interned[i]@ as int] == before.spec_subsets()[interned[i]@ as int]);
                        }
                    }
                    assert forall|i: int|
                        0 <= i < c + 1 implies (#[trigger] next_interned[i])@ < subsets.len()
                            && subsets[next_interned[i]@ as int].len() > 0 by {
                        if i < c {
                            assert(subsets[interned[i]@ as int] == before.spec_subsets()[interned[i]@ as int]);
                        }
                    }
                    assert forall|state: int|
                        index < state < subsets.len() implies (#[trigger] groups[state]).len() == 0 by {
                        assert(groups[state] == mid_groups[state]);
                        if state < before_groups.len() {
                            assert(mid_groups[state] == before_groups[state]);
                        }
                    }
                    assert(targets_below(groups, subsets.len() as int)) by {
                        assert forall|state: int, t: int|
                            0 <= state < groups.len() && 0 <= t < groups[state].len() implies (
                            #[trigger] groups[state][t]).target@ < subsets.len() by {
                            if state != index {
                                assert(groups[state] == mid_groups[state]);
                                if state < before_groups.len() && mid_groups[state].len() > 0 {
                                    assert(mid_groups[state] == before_groups[state]);
                                }
                            }
                        }
                    }
                }
                interned = interned.push(target);
            }
            c = c + 1;
        }
        proof {
            let table = self.spec_builder().spec_table();
            if table.spec_error() is None {
                let groups = table.spec_groups();
                let subsets = self.spec_subsets();
                lemma_class_steps(&nfa, groups[index as int], subsets, subset@, flat, labels@, classes@, interned);
            }
        }
        self.next_subset = index + 1;
        true
    }

    /// Expands each set that the construction met, and each set that the
    /// expansion meets.
    pub fn expand(&mut self)
        requires
            old(self).well_formed(),
        ensures
            final(self).well_formed(),
            final(self).spec_nfa() == old(self).spec_nfa(),
            final(self).spec_selector() == old(self).spec_selector(),
            final(self).spec_next_subset() == final(self).spec_subsets().len(),
            final(self).spec_builder().spec_table().spec_error() is None ==> old(
                self,
            ).spec_builder().spec_table().spec_error() is None,
            final(self).spec_subsets().len() >= old(self).spec_subsets().len(),
            forall|set: int|
                0 <= set < old(self).spec_subsets().len() ==> #[trigger] final(self).spec_subsets()[set]
                    == old(self).spec_subsets()[set],
    {
        loop
            invariant
                self.well_formed(),
                self.spec_nfa() == old(self).spec_nfa(),
                self.spec_selector() == old(self).spec_selector(),
                self.spec_builder().spec_table().spec_error() is None ==> old(
                    self,
                ).spec_builder().spec_table().spec_error() is None,
                self.spec_subsets().len() >= old(self).spec_subsets().len(),
                forall|set: int|
                    0 <= set < old(self).spec_subsets().len() ==> #[trigger] self.spec_subsets()[set]
                        == old(self).spec_subsets()[set],
            ensures
                self.well_formed(),
                self.spec_nfa() == old(self).spec_nfa(),
                self.spec_selector() == old(self).spec_selector(),
                self.spec_next_subset() == self.spec_subsets().len(),
                self.spec_builder().spec_table().spec_error() is None ==> old(
                    self,
                ).spec_builder().spec_table().spec_error() is None,
                self.spec_subsets().len() >= old(self).spec_subsets().len(),
                forall|set: int|
                    0 <= set < old(self).spec_subsets().len() ==> #[trigger] self.spec_subsets()[set]
                        == old(self).spec_subsets()[set],
            decreases spec_state_capacity() - self.spec_next_subset(),
        {
            let ghost before = self.spec_subsets();
            if !self.expand_next() {
                break;
            }
            proof {
                assert forall|set: int| 0 <= set < old(self).spec_subsets().len() implies #[trigger] self.spec_subsets()[set]
                    == old(self).spec_subsets()[set] by {
                    assert(self.spec_subsets()[set] == before[set]);
                }
            }
        }
    }

    /// Builds the result, with `starts` as its start states.
    pub fn build(self, starts: &[StateId]) -> (result: Result<Dfa<L, B>, BuildError>)
        requires
            self.well_formed(),
            self.spec_next_subset() == self.spec_subsets().len(),
            self.spec_builder().spec_table().spec_error() is None ==> forall|start: int|
                0 <= start < starts@.len() ==> (#[trigger] starts@[start])@
                    < self.spec_subsets().len(),
            starts@.len() > 0,
        ensures
            self.spec_builder().spec_table().builds() <==> result is Ok,
            result matches Err(error) ==> error == (BuildError::TooManyStates {
                capacity: spec_state_capacity() as usize,
            }) || error == (BuildError::TooManyTransitions { capacity: u32::MAX as usize }),
            self.spec_builder().spec_table().spec_error() matches Some(error) ==> result == Err::<
                Dfa<L, B>,
                BuildError,
            >(error),
            self.spec_builder().spec_table().spec_error() is None
                && !self.spec_builder().spec_table().builds() ==> result == Err::<Dfa<L, B>, BuildError>(
                BuildError::TooManyTransitions { capacity: u32::MAX as usize },
            ),
            result matches Ok(dfa) ==> {
                &&& dfa.well_formed()
                &&& dfa.spec_state_count() == self.spec_subsets().len()
                &&& dfa.spec_starts() == starts@
                &&& forall|state: int|
                    0 <= state < self.spec_subsets().len() ==> steps_like(
                        &self.spec_nfa(),
                        #[trigger] dfa.spec_transitions()[state],
                        self.spec_subsets(),
                        self.spec_subsets()[state],
                    )
                &&& accepts_like(
                    &self.spec_nfa(),
                    dfa.spec_accepts(),
                    self.spec_subsets(),
                    self.spec_selector(),
                )
                &&& distinct_subsets(self.spec_subsets())
            },
    {
        self.builder.build(starts)
    }
}

/// Whether `groups` holds, for each set of `subsets`, transitions that step
/// as `nfa` does from that set, no two of one group for one symbol, and more
/// transitions in all than one automaton holds.
pub open spec fn overflows<L: Label, A>(
    nfa: &Nfa<L, A>,
    subsets: Seq<Seq<StateId>>,
    groups: Seq<Seq<Transition<L>>>,
) -> bool {
    &&& distinct_subsets(subsets)
    &&& groups.len() == subsets.len()
    &&& deterministic(groups)
    &&& forall|state: int|
        0 <= state < subsets.len() ==> steps_like(nfa, #[trigger] groups[state], subsets, subsets[state])
    &&& flatten(groups).len() > TRANSITION_CAPACITY
}

/// Builds the deterministic automaton of `nfa` by subset construction.
///
/// Each state of the result stands for the set of states that `nfa` is in
/// after some input. A state accepts if a state of its set accepts, and
/// `select` gives its accept from the states of its set. The result has one
/// start for each start of `nfa`.
///
/// The result is [`BuildError::TooManyStates`] only where `nfa` reaches as
/// many distinct sets as an automaton holds states, and
/// [`BuildError::TooManyTransitions`] only where the transitions between the
/// sets that it reaches are more than an automaton holds.
pub fn construct<L: Partitionable, A, B, F: Fn(&[StateId]) -> B>(nfa: &Nfa<L, A>, select: F) -> (result:
    Result<Dfa<L, B>, BuildError>)
    requires
        nfa.well_formed(),
        forall|states: &[StateId]| #[trigger] call_requires(select, (states,)),
    ensures
        result matches Err(error) ==> error == (BuildError::TooManyStates {
            capacity: spec_state_capacity() as usize,
        }) || error == (BuildError::TooManyTransitions { capacity: u32::MAX as usize }),
        result == Err::<Dfa<L, B>, BuildError>(
            BuildError::TooManyStates { capacity: spec_state_capacity() as usize },
        ) ==> exists|subsets: Seq<Seq<StateId>>|
            #[trigger] reached_in_turn(nfa, subsets) && distinct_subsets(subsets) && subsets.len()
                == spec_state_capacity(),
        result == Err::<Dfa<L, B>, BuildError>(
            BuildError::TooManyTransitions { capacity: u32::MAX as usize },
        ) ==> exists|subsets: Seq<Seq<StateId>>, groups: Seq<Seq<Transition<L>>>|
            reached_in_turn(nfa, subsets) && #[trigger] overflows(nfa, subsets, groups),
        result matches Ok(dfa) ==> {
            &&& dfa.well_formed()
            &&& exists|subsets: Seq<Seq<StateId>>| constructs(nfa, &dfa, subsets, select)
        },
{
    let mut construction = Construction::new(nfa, select);
    let starts = construction.seed();
    let ghost seeded = construction.spec_subsets();
    construction.expand();
    let ghost subsets = construction.spec_subsets();
    let ghost error = construction.spec_builder().spec_table().spec_error();
    proof {
        if error is None {
            assert forall|start: int| 0 <= start < starts@.len() implies (#[trigger] starts@[start])@
                < subsets.len() && subsets[starts@[start]@ as int] == start_states(nfa, start) by {
                assert(subsets[starts@[start]@ as int] == seeded[starts@[start]@ as int]);
            }
        }
    }
    let ghost table = construction.spec_builder().spec_table();
    let result = construction.build(&starts);
    proof {
        if result is Ok {
            let dfa = result->Ok_0;
            assert(constructs(nfa, &dfa, subsets, select));
        }
        if result == Err::<Dfa<L, B>, BuildError>(
            BuildError::TooManyStates { capacity: spec_state_capacity() as usize },
        ) {
            assert(table.spec_error() is Some);
            assert(reached_in_turn(nfa, subsets));
        }
        if result == Err::<Dfa<L, B>, BuildError>(
            BuildError::TooManyTransitions { capacity: u32::MAX as usize },
        ) {
            assert(table.spec_error() is None);
            lemma_groups_len(table.spec_edges(), table.spec_state_count() as int);
            assert(overflows(nfa, subsets, table.spec_groups()));
            assert(reached_in_turn(nfa, subsets));
        }
    }
    result
}

/// The law of the subset construction: a scan of the result under one start
/// reads each input as a scan of `nfa` under that start does. The result is in
/// no state where `nfa` is in no state, and else in the one state that stands
/// for the states of `nfa`. Thus both accept the same input.
pub proof fn lemma_construction_scans_like<L: Partitionable, A, B, F: Fn(&[StateId]) -> B>(
    nfa: &Nfa<L, A>,
    dfa: &Dfa<L, B>,
    subsets: Seq<Seq<StateId>>,
    select: F,
    start: int,
    input: Seq<L::Symbol>,
)
    requires
        nfa.well_formed(),
        dfa.well_formed(),
        constructs(nfa, dfa, subsets, select),
        0 <= start < nfa.spec_starts().len(),
    ensures
        dfa_scan(dfa, start, input).len() == 0 <==> nfa_scan(nfa, start, input).len() == 0,
        dfa_scan(dfa, start, input).len() <= 1,
        dfa_scan(dfa, start, input).len() == 1 ==> dfa_scan(dfa, start, input)[0]@ < subsets.len()
            && subsets[dfa_scan(dfa, start, input)[0]@ as int] == nfa_scan(nfa, start, input),
        dfa_accepting(dfa, dfa_scan(dfa, start, input)) == nfa_accepting(
            nfa,
            nfa_scan(nfa, start, input),
        ),
    decreases input.len(),
{
    if input.len() == 0 {
        let first = dfa.spec_starts()[start];
        assert(subsets[first@ as int] == start_states(nfa, start));
        let seeds = seq![nfa.spec_starts()[start]];
        assert(id_set(seeds) =~= set![nfa.spec_starts()[start]@]) by {
            assert(seeds[0] == nfa.spec_starts()[start]);
        }
        lemma_closure_nonempty(nfa, seeds);
    } else {
        let prefix = input.drop_last();
        let symbol = input.last();
        lemma_construction_scans_like(nfa, dfa, subsets, select, start, prefix);
        let before = dfa_scan(dfa, start, prefix);
        if before.len() == 1 {
            let state = before[0]@ as int;
            assert(steps_like(nfa, dfa.spec_transitions()[state], subsets, subsets[state]));
            assert(target_of(dfa.spec_transitions()[state], symbol) is None <==> next_states(
                nfa,
                subsets[state],
                symbol,
            ).len() == 0);
            if let Some(target) = target_of(dfa.spec_transitions()[state], symbol) {
                assert(dfa_scan(dfa, start, input) =~= seq![target]);
            }
        } else {
            assert(nfa_scan(nfa, start, prefix).len() == 0);
            assert(nfa_scan(nfa, start, prefix) =~= Seq::<StateId>::empty());
            lemma_no_state(nfa.spec_epsilons(), nfa.spec_state_count());
            assert(id_set(moves(nfa.spec_transitions(), Seq::<StateId>::empty(), symbol))
                =~= Set::<nat>::empty());
        }
        let after = dfa_scan(dfa, start, input);
        if after.len() == 1 {
            assert(after[0]@ < subsets.len()) by {
                let state = before[0]@ as int;
                assert(steps_like(nfa, dfa.spec_transitions()[state], subsets, subsets[state]));
            }
        }
    }
    let after = dfa_scan(dfa, start, input);
    if after.len() == 1 {
        let state = after[0]@ as int;
        assert(dfa.spec_accepts()[state] is Some <==> nfa_accepting(nfa, subsets[state]));
        if dfa_accepting(dfa, after) {
            let k = choose|k: int|
                0 <= k < after.len() && (#[trigger] dfa.spec_accepts()[after[k]@ as int]) is Some;
            assert(k == 0);
        }
        if dfa.spec_accepts()[state] is Some {
            assert(dfa.spec_accepts()[after[0]@ as int] is Some);
        }
    }
}

} // verus!
