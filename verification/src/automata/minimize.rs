//! Minimizes a deterministic automaton by partition refinement.
use vstd::prelude::*;

use super::automaton::Transition;
use super::dfa::automaton::{Dfa, deterministic, target_of};
use super::id::StateId;
use super::label::{Label, Partitionable, inhabited, is_partition};
use super::table::{STATE_IDENTIFIERS, StateTableBuilder};
use super::adjacency::{flatten, group_of, lemma_group_empty, lemma_group_push};
use super::dfa::builder::Builder;
use super::dfa::execution::{accepting, scan};
use vstd::set_lib::{lemma_int_range, lemma_map_size_bound, set_int_range};
use vstd::laws_eq::obeys_concrete_eq;
use super::trim::{accept_after, lemma_run_concat, lemma_run_first, lemma_trim_below, lemma_trim_live, lemma_trim_scans_like, live, live_states, trim, trims};
use vstd::std_specs::cmp::PartialEqSpec;

verus! {

/// The transitions of each state below `count`, each with its source, the
/// transitions of the first state first.
pub open spec fn tagged<L>(groups: Seq<Seq<Transition<L>>>, count: nat) -> Seq<
    (StateId, Transition<L>),
>
    decreases count,
{
    if count == 0 {
        Seq::empty()
    } else {
        let last = (count - 1) as nat;
        tagged(groups, last) + groups[last as int].map_values(
            |transition: Transition<L>| (StateId(last as u32), transition),
        )
    }
}

/// Each item of `tagged` is a transition of its source.
pub(crate) proof fn lemma_tagged_sources<L>(groups: Seq<Seq<Transition<L>>>, count: nat)
    requires
        count <= groups.len(),
        count <= STATE_IDENTIFIERS,
    ensures
        forall|i: int|
            0 <= i < tagged(groups, count).len() ==> {
                let (source, transition) = #[trigger] tagged(groups, count)[i];
                &&& source@ < count
                &&& exists|k: int|
                    0 <= k < groups[source@ as int].len() && groups[source@ as int][k] == transition
            },
    decreases count,
{
    if count > 0 {
        let last = (count - 1) as nat;
        lemma_tagged_sources(groups, last);
        let before = tagged(groups, last);
        let after = tagged(groups, count);
        let tail = groups[last as int].map_values(
            |transition: Transition<L>| (StateId(last as u32), transition),
        );
        assert(after == before + tail);
        assert forall|i: int| 0 <= i < after.len() implies {
            let (source, transition) = #[trigger] after[i];
            &&& source@ < count
            &&& exists|k: int|
                0 <= k < groups[source@ as int].len() && groups[source@ as int][k] == transition
        } by {
            if i < before.len() {
                assert(after[i] == before[i]);
            } else {
                let k = i - before.len();
                assert(after[i] == tail[k]);
                assert(StateId(last as u32)@ == last);
                assert(groups[last as int][k] == after[i].1);
            }
        }
    }
}

pub(crate) proof fn lemma_tagged_index<L>(groups: Seq<Seq<Transition<L>>>, count: nat, state: int, k: int)
    requires
        count <= groups.len(),
        count <= STATE_IDENTIFIERS,
        0 <= state < count,
        0 <= k < groups[state].len(),
    ensures
        tagged(groups, state as nat).len() + k < tagged(groups, count).len(),
        tagged(groups, count)[tagged(groups, state as nat).len() + k] == (
            StateId(state as u32),
            groups[state][k],
        ),
    decreases count,
{
    let last = (count - 1) as nat;
    let before = tagged(groups, last);
    let after = tagged(groups, count);
    let tail = groups[last as int].map_values(
        |transition: Transition<L>| (StateId(last as u32), transition),
    );
    assert(after == before + tail);
    if state < last {
        lemma_tagged_index(groups, last, state, k);
        let j = tagged(groups, state as nat).len() + k;
        assert(after[j] == before[j]);
    } else {
        assert(after[before.len() + k] == tail[k]);
    }
}

/// Two transitions of one state that match one symbol of a class are one
/// transition, thus they have one target.
proof fn lemma_one_match<L: Label>(
    groups: Seq<Seq<Transition<L>>>,
    count: nat,
    items: Seq<(StateId, Transition<L>)>,
    labels: Seq<L>,
    classes: Seq<super::label::LabelClass<L>>,
    c: int,
    first: int,
    second: int,
    symbol: L::Symbol,
)
    requires
        deterministic(groups),
        count <= groups.len(),
        labels == items.map_values(|item: (StateId, Transition<L>)| item.1.label),
        is_partition(labels, classes),
        0 <= c < classes.len(),
        classes[c].label.spec_matches(symbol),
        0 <= first < classes[c].matching_labels@.len(),
        0 <= second < classes[c].matching_labels@.len(),
        forall|i: int|
            0 <= i < items.len() ==> {
                let (source, transition) = #[trigger] items[i];
                &&& source@ < count
                &&& exists|k: int|
                    0 <= k < groups[source@ as int].len() && groups[source@ as int][k] == transition
            },
        items[classes[c].matching_labels@[first] as int].0 == items[classes[c].matching_labels@[
            second
        ] as int].0,
    ensures
        items[classes[c].matching_labels@[first] as int].1.target == items[classes[c].matching_labels@[
            second
        ] as int].1.target,
{
    let indexes = classes[c].matching_labels@;
    let i1 = indexes[first] as int;
    let i2 = indexes[second] as int;
    assert(indexes.contains(indexes[first]));
    assert(indexes.contains(indexes[second]));
    assert(labels[i1].spec_matches(symbol));
    assert(labels[i2].spec_matches(symbol));
    let (source, t1) = items[i1];
    let (_, t2) = items[i2];
    let k1 = choose|k: int| 0 <= k < groups[source@ as int].len() && groups[source@ as int][k] == t1;
    let k2 = choose|k: int| 0 <= k < groups[source@ as int].len() && groups[source@ as int][k] == t2;
    assert(groups[source@ as int][k1].label.spec_matches(symbol));
    assert(groups[source@ as int][k2].label.spec_matches(symbol));
    if k1 < k2 {
        assert(!groups[source@ as int][k2].label.spec_matches(symbol));
    } else if k2 < k1 {
        assert(!groups[source@ as int][k1].label.spec_matches(symbol));
    }
}

/// The target that the indexes of a class record for a state is the target of
/// that state with each symbol of the class.
proof fn lemma_class_target<L: Label>(
    groups: Seq<Seq<Transition<L>>>,
    count: nat,
    items: Seq<(StateId, Transition<L>)>,
    labels: Seq<L>,
    classes: Seq<super::label::LabelClass<L>>,
    c: int,
    target_by_source: Seq<Option<StateId>>,
    symbol: L::Symbol,
    state: int,
)
    requires
        deterministic(groups),
        count <= groups.len(),
        count <= STATE_IDENTIFIERS,
        0 <= state < count,
        labels == items.map_values(|item: (StateId, Transition<L>)| item.1.label),
        is_partition(labels, classes),
        0 <= c < classes.len(),
        classes[c].label.spec_matches(symbol),
        forall|i: int|
            0 <= i < items.len() ==> {
                let (source, transition) = #[trigger] items[i];
                &&& source@ < count
                &&& exists|k: int|
                    0 <= k < groups[source@ as int].len() && groups[source@ as int][k] == transition
            },
        items == tagged(groups, count),
        labels.len() <= usize::MAX,
        target_by_source.len() == count,
        forall|s: int|
            0 <= s < count && (#[trigger] target_by_source[s]) is Some ==> exists|n: int|
                0 <= n < classes[c].matching_labels@.len() && items[classes[c].matching_labels@[n] as int].0@
                    == s && target_by_source[s]->Some_0 == items[classes[c].matching_labels@[
                    n
                ] as int].1.target,
        forall|n: int|
            0 <= n < classes[c].matching_labels@.len() ==> target_by_source[items[classes[c].matching_labels@[
                n
            ] as int].0@ as int] == Some(#[trigger] items[classes[c].matching_labels@[n] as int].1.target),
    ensures
        target_by_source[state] == target_of(groups[state], symbol),
{
    let indexes = classes[c].matching_labels@;
    let transitions = groups[state];
    if exists|k: int| 0 <= k < transitions.len() && #[trigger] transitions[k].label.spec_matches(symbol) {
        let k = choose|k: int|
            0 <= k < transitions.len() && #[trigger] transitions[k].label.spec_matches(symbol);
        lemma_tagged_index(groups, count, state, k);
        let i = tagged(groups, state as nat).len() + k;
        assert(items[i] == (StateId(state as u32), groups[state][k]));
        assert(labels[i] == transitions[k].label);
        assert(indexes.contains(i as usize));
        let n = choose|n: int| 0 <= n < indexes.len() && indexes[n] == i as usize;
        assert(indexes[n] as int == i);
        assert(items[indexes[n] as int].1.target == transitions[k].target);
        assert(StateId(state as u32)@ == state);
    } else {
        if target_by_source[state] is Some {
            let n = choose|n: int|
                0 <= n < indexes.len() && items[indexes[n] as int].0@ == state
                    && target_by_source[state]->Some_0 == items[indexes[n] as int].1.target;
            let i = indexes[n] as int;
            assert(indexes.contains(indexes[n]));
            assert(labels[i].spec_matches(symbol));
            let (source, transition) = items[i];
            let k = choose|k: int|
                0 <= k < groups[source@ as int].len() && groups[source@ as int][k] == transition;
            assert(transitions[k].label.spec_matches(symbol));
        }
    }
}

/// One class of the labels of all the states of an automaton, and the state
/// that each state goes to with a symbol of that class.
#[derive(Debug, Clone)]
pub struct GlobalClass<L> {
    /// The label of the symbols of the class.
    pub label: L,
    /// The target of each state with a symbol of the class, `None` for the
    /// implicit dead state.
    pub target_by_source: Vec<Option<StateId>>,
}

/// Whether each class of `classes` holds a target, or none, for each of
/// `count` states, and each target is one of those states.
pub open spec fn tabulated<L>(classes: Seq<GlobalClass<L>>, count: nat) -> bool {
    &&& forall|c: int|
        0 <= c < classes.len() ==> (#[trigger] classes[c]).target_by_source@.len() == count
    &&& forall|c: int, state: int|
        0 <= c < classes.len() && 0 <= state < count && (#[trigger] classes[c].target_by_source@[state])
            is Some ==> classes[c].target_by_source@[state]->Some_0@ < count
}

/// Whether `classes` classify the symbols of `dfa`: each state goes with each
/// symbol of a class to the target of the class, and a symbol that a
/// transition reads is in a class.
pub open spec fn classifies<L: Label, A>(dfa: &Dfa<L, A>, classes: Seq<GlobalClass<L>>) -> bool {
    let count = dfa.spec_state_count();
    &&& tabulated(classes, count)
    &&& forall|c: int, symbol: L::Symbol, state: int|
        0 <= c < classes.len() && #[trigger] classes[c].label.spec_matches(symbol) && 0 <= state
            < count ==> #[trigger] classes[c].target_by_source@[state] == target_of(
            dfa.spec_transitions()[state],
            symbol,
        )
    &&& forall|state: int, symbol: L::Symbol|
        0 <= state < count && (#[trigger] target_of(dfa.spec_transitions()[state], symbol)) is Some
            ==> exists|c: int| 0 <= c < classes.len() && #[trigger] classes[c].label.spec_matches(symbol)
}

/// Returns the classes of the labels of all the states of `dfa`, and the
/// target of each state with a symbol of each class.
///
/// Two states answer the same for each symbol of one class. Thus a state
/// needs one answer for each class, and not one for each symbol.
pub fn global_classes<L: Partitionable, A>(dfa: &Dfa<L, A>) -> (classes: Vec<GlobalClass<L>>)
    requires
        dfa.well_formed(),
    ensures
        classifies(dfa, classes@),
        forall|c: int| 0 <= c < classes@.len() ==> #[trigger] inhabited(classes@[c].label),
{
    let count = dfa.state_count();
    let ghost groups = dfa.spec_transitions();
    let mut labels: Vec<L> = Vec::new();
    let mut edges: Vec<(StateId, StateId)> = Vec::new();
    let mut index: usize = 0;
    proof {
        assert(labels@ =~= tagged(groups, 0).map_values(
            |item: (StateId, Transition<L>)| item.1.label,
        ));
        assert(edges@ =~= tagged(groups, 0).map_values(
            |item: (StateId, Transition<L>)| (item.0, item.1.target),
        ));
    }
    while index < count
        invariant
            dfa.well_formed(),
            groups == dfa.spec_transitions(),
            count == dfa.spec_state_count(),
            index <= count,
            labels@ == tagged(groups, index as nat).map_values(
                |item: (StateId, Transition<L>)| item.1.label,
            ),
            edges@ == tagged(groups, index as nat).map_values(
                |item: (StateId, Transition<L>)| (item.0, item.1.target),
            ),
        decreases count - index,
    {
        let source = StateId::new(index);
        let transitions = dfa.transitions(source);
        let ghost labels_before = labels@;
        let ghost edges_before = edges@;
        let mut k: usize = 0;
        proof {
            assert(labels@ =~= labels_before + transitions@.take(0).map_values(
                |transition: Transition<L>| transition.label,
            ));
            assert(edges@ =~= edges_before + transitions@.take(0).map_values(
                |transition: Transition<L>| (source, transition.target),
            ));
        }
        while k < transitions.len()
            invariant
                k <= transitions@.len(),
                labels@ == labels_before + transitions@.take(k as int).map_values(
                    |transition: Transition<L>| transition.label,
                ),
                edges@ == edges_before + transitions@.take(k as int).map_values(
                    |transition: Transition<L>| (source, transition.target),
                ),
            decreases transitions@.len() - k,
        {
            labels.push(transitions[k].label);
            edges.push((source, transitions[k].target));
            k = k + 1;
            proof {
                assert(labels@ =~= labels_before + transitions@.take(k as int).map_values(
                    |transition: Transition<L>| transition.label,
                ));
                assert(edges@ =~= edges_before + transitions@.take(k as int).map_values(
                    |transition: Transition<L>| (source, transition.target),
                ));
            }
        }
        proof {
            assert(transitions@.take(transitions@.len() as int) =~= transitions@);
            let next = tagged(groups, (index + 1) as nat);
            assert(next == tagged(groups, index as nat) + groups[index as int].map_values(
                |transition: Transition<L>| (StateId(index as u32), transition),
            ));
            assert(labels@ =~= next.map_values(|item: (StateId, Transition<L>)| item.1.label));
            assert(edges@ =~= next.map_values(
                |item: (StateId, Transition<L>)| (item.0, item.1.target),
            ));
        }
        index = index + 1;
    }
    let ghost items = tagged(groups, count as nat);
    proof {
        lemma_tagged_sources(groups, count as nat);
    }
    let label_count = labels.len();
    let partition = L::partition(labels.as_slice());
    let mut classes: Vec<GlobalClass<L>> = Vec::new();
    let mut c: usize = 0;
    while c < partition.len()
        invariant
            dfa.well_formed(),
            groups == dfa.spec_transitions(),
            count == dfa.spec_state_count(),
            items == tagged(groups, count as nat),
            labels@ == items.map_values(|item: (StateId, Transition<L>)| item.1.label),
            edges@ == items.map_values(|item: (StateId, Transition<L>)| (item.0, item.1.target)),
            labels@.len() == label_count,
            is_partition(labels@, partition@),
            forall|i: int| 0 <= i < partition@.len() ==> #[trigger] inhabited(partition@[i].label),
            c <= partition@.len(),
            classes@.len() == c,
            forall|i: int|
                0 <= i < items.len() ==> {
                    let (source, transition) = #[trigger] items[i];
                    &&& source@ < count
                    &&& exists|k: int|
                        0 <= k < groups[source@ as int].len() && groups[source@ as int][k]
                            == transition
                },
            forall|d: int|
                0 <= d < c ==> (#[trigger] classes@[d]).label == partition@[d].label,
            forall|d: int|
                0 <= d < c ==> (#[trigger] classes@[d]).target_by_source@.len() == count,
            forall|d: int, state: int|
                0 <= d < c && 0 <= state < count && (
                #[trigger] classes@[d].target_by_source@[state]) is Some
                    ==> classes@[d].target_by_source@[state]->Some_0@ < count,
            forall|d: int, symbol: L::Symbol, state: int|
                0 <= d < c && #[trigger] classes@[d].label.spec_matches(symbol) && 0 <= state < count
                    ==> #[trigger] classes@[d].target_by_source@[state] == target_of(
                    groups[state],
                    symbol,
                ),
        decreases partition@.len() - c,
    {
        let class = &partition[c];
        let matching = class.get_matching_labels();
        let mut target_by_source: Vec<Option<StateId>> = Vec::new();
        let mut state: usize = 0;
        while state < count
            invariant
                state <= count,
                target_by_source@.len() == state,
                forall|s: int| 0 <= s < state ==> target_by_source@[s] is None,
            decreases count - state,
        {
            target_by_source.push(None);
            state = state + 1;
        }
        let mut m: usize = 0;
        while m < matching.len()
            invariant
                dfa.well_formed(),
                groups == dfa.spec_transitions(),
                count == dfa.spec_state_count(),
                items == tagged(groups, count as nat),
                edges@ == items.map_values(
                    |item: (StateId, Transition<L>)| (item.0, item.1.target),
                ),
                labels@ == items.map_values(|item: (StateId, Transition<L>)| item.1.label),
                labels@.len() == label_count,
                is_partition(labels@, partition@),
                c < partition@.len(),
                matching@ == partition@[c as int].matching_labels@,
                m <= matching@.len(),
                target_by_source@.len() == count,
                forall|i: int|
                    0 <= i < items.len() ==> {
                        let (source, transition) = #[trigger] items[i];
                        &&& source@ < count
                        &&& exists|k: int|
                            0 <= k < groups[source@ as int].len() && groups[source@ as int][k]
                                == transition
                    },
                forall|s: int|
                    0 <= s < count && (#[trigger] target_by_source@[s]) is Some ==> exists|n: int|
                        0 <= n < m && items[matching@[n] as int].0@ == s
                            && target_by_source@[s]->Some_0 == items[matching@[n] as int].1.target,
                forall|s: int| 0 <= s < count && (#[trigger] target_by_source@[s]) is Some ==> target_by_source@[s]->Some_0@ < count,
                forall|symbol: L::Symbol|
                    #[trigger] partition@[c as int].label.spec_matches(symbol) ==> forall|n: int|
                        0 <= n < m ==> target_by_source@[items[matching@[n] as int].0@ as int]
                            == Some(#[trigger] items[matching@[n] as int].1.target),
            decreases matching@.len() - m,
        {
            let position = matching[m];
            let (source, target) = edges[position];
            proof {
                assert(items[position as int].0 == source);
                assert(items[position as int].1.target == target);
                let (s, transition) = items[position as int];
                let k = choose|k: int|
                    0 <= k < groups[s@ as int].len() && groups[s@ as int][k] == transition;
                assert(groups[s@ as int][k].target@ < count);
            }
            target_by_source.set(source.index(), Some(target));
            proof {
                assert forall|symbol: L::Symbol|
                    #[trigger] partition@[c as int].label.spec_matches(symbol) implies forall|n: int|
                        0 <= n < m + 1 ==> target_by_source@[items[matching@[n] as int].0@ as int]
                            == Some(#[trigger] items[matching@[n] as int].1.target) by {
                    assert forall|n: int| 0 <= n < m + 1 implies target_by_source@[items[matching@[
                        n
                    ] as int].0@ as int] == Some(#[trigger] items[matching@[n] as int].1.target) by {
                        if n < m && items[matching@[n] as int].0 == source {
                            lemma_one_match(
                                groups,
                                count as nat,
                                items,
                                labels@,
                                partition@,
                                c as int,
                                n,
                                m as int,
                                symbol,
                            );
                        }
                    }
                }
            }
            m = m + 1;
        }
        proof {
            assert forall|symbol: L::Symbol, s: int|
                #[trigger] partition@[c as int].label.spec_matches(symbol) && 0 <= s < count
                    implies #[trigger] target_by_source@[s] == target_of(groups[s], symbol) by {
                lemma_class_target(
                    groups,
                    count as nat,
                    items,
                    labels@,
                    partition@,
                    c as int,
                    target_by_source@,
                    symbol,
                    s,
                );
            }
        }
        classes.push(GlobalClass { label: *class.get_label(), target_by_source });
        c = c + 1;
    }
    proof {
        assert forall|state: int, symbol: L::Symbol|
            0 <= state < count && (#[trigger] target_of(groups[state], symbol)) is Some implies exists|
            c: int,
        | 0 <= c < classes@.len() && #[trigger] classes@[c].label.spec_matches(symbol) by {
            let k = choose|k: int|
                0 <= k < groups[state].len() && #[trigger] groups[state][k].label.spec_matches(symbol);
            lemma_tagged_index(groups, count as nat, state, k);
            let i = tagged(groups, state as nat).len() + k;
            assert(items[i] == (StateId(state as u32), groups[state][k]));
            assert(labels@[i] == groups[state][k].label);
            let c = choose|c: int| 0 <= c < partition@.len() && #[trigger] partition@[c].label.spec_matches(symbol);
            assert(classes@[c].label == partition@[c].label);
        }
        assert forall|c: int| 0 <= c < classes@.len() implies #[trigger] inhabited(classes@[c].label) by {
            assert(classes@[c].label == partition@[c].label);
            assert(inhabited(partition@[c].label));
        }
    }
    classes
}

/// The signature of `state`: its block, then the block of its target with
/// each class, or `usize::MAX` for the dead state.
pub open spec fn signature<L>(classes: Seq<GlobalClass<L>>, blocks: Seq<usize>, state: int) -> Seq<
    usize,
> {
    seq![blocks[state]] + Seq::new(classes.len(), |c: int| entry(classes, blocks, state, c))
}

/// The block of the target of `state` with the symbols of class `c`, or
/// `usize::MAX` for the dead state.
pub open spec fn entry<L>(classes: Seq<GlobalClass<L>>, blocks: Seq<usize>, state: int, c: int) -> usize {
    match classes[c].target_by_source@[state] {
        Some(target) => blocks[target@ as int],
        None => usize::MAX,
    }
}

/// Whether a state of `blocks` is in `block`.
pub open spec fn occupied(blocks: Seq<usize>, block: int) -> bool {
    exists|state: int| 0 <= state < blocks.len() && blocks[state] == block
}

/// Whether `blocks` numbers each state with one of `number` blocks, and each
/// block holds a state.
pub open spec fn numbered(blocks: Seq<usize>, number: nat) -> bool {
    &&& forall|state: int| 0 <= state < blocks.len() ==> (#[trigger] blocks[state]) < number
    &&& forall|block: int| 0 <= block < number ==> #[trigger] occupied(blocks, block)
}

/// Whether two states of one block of `blocks` agree on acceptance.
pub open spec fn accept_respecting<L: Label, A>(dfa: &Dfa<L, A>, blocks: Seq<usize>) -> bool {
    forall|first: int, second: int|
        0 <= first < blocks.len() && 0 <= second < blocks.len() && #[trigger] blocks[first]
            == #[trigger] blocks[second] ==> (dfa.spec_accepts()[first] is Some
            <==> dfa.spec_accepts()[second] is Some)
}

/// Whether two states of one block of `blocks` have one signature.
pub open spec fn stable<L>(classes: Seq<GlobalClass<L>>, blocks: Seq<usize>) -> bool {
    forall|first: int, second: int|
        0 <= first < blocks.len() && 0 <= second < blocks.len() && #[trigger] blocks[first]
            == #[trigger] blocks[second] ==> signature(classes, blocks, first) == signature(
            classes,
            blocks,
            second,
        )
}

/// Whether `meanings` holds, for each of the first `count` states, a
/// meaning that `accept` gives for that state.
pub open spec fn meant<K, F: Fn(StateId) -> K>(accept: F, meanings: Seq<K>, count: nat) -> bool {
    &&& meanings.len() == count
    &&& forall|state: int|
        0 <= state < count ==> #[trigger] call_ensures(accept, (StateId(state as u32),), meanings[state])
}

/// The state that a scan of `dfa` from `state` is in after it reads `input`,
/// or `None` where the scan dies on the way.
pub open spec fn run_from<L: Label, A>(dfa: &Dfa<L, A>, state: int, input: Seq<L::Symbol>) -> Option<int>
    decreases input.len(),
{
    if input.len() == 0 {
        Some(state)
    } else {
        match target_of(dfa.spec_transitions()[state], input[0]) {
            Some(target) => run_from(dfa, target@ as int, input.drop_first()),
            None => None,
        }
    }
}

/// What a scan of `dfa` from `state` answers after `input`: `None` where it
/// dies, else whether the state that it reaches accepts, and the meaning of
/// that state in `meanings`.
pub open spec fn observe<L: Label, A, K>(
    dfa: &Dfa<L, A>,
    meanings: Seq<K>,
    state: int,
    input: Seq<L::Symbol>,
) -> Option<(bool, K)> {
    match run_from(dfa, state, input) {
        Some(reached) => Some((dfa.spec_accepts()[reached] is Some, meanings[reached])),
        None => None,
    }
}

/// Whether scans of `dfa` from `first` and from `second` answer each input
/// alike.
pub open spec fn indistinguishable<L: Label, A, K>(
    dfa: &Dfa<L, A>,
    meanings: Seq<K>,
    first: int,
    second: int,
) -> bool {
    forall|input: Seq<L::Symbol>|
        #[trigger] observe(dfa, meanings, first, input) == observe(dfa, meanings, second, input)
}

/// Two states that answer each input alike both die on a symbol, or both go
/// to two states that answer each input alike.
proof fn lemma_indistinguishable_step<L: Label, A, K>(
    dfa: &Dfa<L, A>,
    meanings: Seq<K>,
    first: int,
    second: int,
    symbol: L::Symbol,
)
    requires
        indistinguishable(dfa, meanings, first, second),
    ensures
        target_of(dfa.spec_transitions()[first], symbol) is None <==> target_of(
            dfa.spec_transitions()[second],
            symbol,
        ) is None,
        target_of(dfa.spec_transitions()[first], symbol) matches Some(one) ==> target_of(
            dfa.spec_transitions()[second],
            symbol,
        ) matches Some(other) && indistinguishable(dfa, meanings, one@ as int, other@ as int),
{
    let one = target_of(dfa.spec_transitions()[first], symbol);
    let other = target_of(dfa.spec_transitions()[second], symbol);
    let single = seq![symbol];
    let empty = Seq::<L::Symbol>::empty();
    assert(single[0] == symbol);
    assert(single.drop_first() =~= empty);
    assert(observe(dfa, meanings, first, single) == observe(dfa, meanings, second, single));
    if let Some(u) = one {
        assert(run_from(dfa, u@ as int, empty) == Some(u@ as int));
        assert(run_from(dfa, first, single) == Some(u@ as int));
    } else {
        assert(run_from(dfa, first, single) is None);
    }
    if let Some(v) = other {
        assert(run_from(dfa, v@ as int, empty) == Some(v@ as int));
        assert(run_from(dfa, second, single) == Some(v@ as int));
    } else {
        assert(run_from(dfa, second, single) is None);
    }
    if let (Some(u), Some(v)) = (one, other) {
        assert forall|input: Seq<L::Symbol>|
            #[trigger] observe(dfa, meanings, u@ as int, input) == observe(dfa, meanings, v@ as int, input) by {
            let longer = seq![symbol] + input;
            assert(longer[0] == symbol);
            assert(longer.drop_first() =~= input);
            assert(observe(dfa, meanings, first, longer) == observe(dfa, meanings, second, longer));
        }
    }
}

/// Two states of one block of a stable numbering, where the states of one
/// block agree on acceptance and meaning, answer each input alike.
proof fn lemma_block_alike<L: Label, A, K>(
    dfa: &Dfa<L, A>,
    classes: Seq<GlobalClass<L>>,
    blocks: Seq<usize>,
    count: nat,
    meanings: Seq<K>,
    first: int,
    second: int,
    input: Seq<L::Symbol>,
)
    requires
        classifies(dfa, classes),
        blocks.len() == dfa.spec_state_count(),
        blocks.len() <= usize::MAX,
        numbered(blocks, count),
        stable(classes, blocks),
        forall|a: int, b: int|
            0 <= a < blocks.len() && 0 <= b < blocks.len() && #[trigger] blocks[a] == #[trigger] blocks[b]
                ==> (dfa.spec_accepts()[a] is Some <==> dfa.spec_accepts()[b] is Some) && meanings[a]
                == meanings[b],
        0 <= first < blocks.len(),
        0 <= second < blocks.len(),
        blocks[first] == blocks[second],
    ensures
        observe(dfa, meanings, first, input) == observe(dfa, meanings, second, input),
    decreases input.len(),
{
    lemma_numbered_bound(blocks, count);
    if input.len() == 0 {
        assert(blocks[first] == blocks[second]);
    } else {
        let symbol = input[0];
        let one = target_of(dfa.spec_transitions()[first], symbol);
        let other = target_of(dfa.spec_transitions()[second], symbol);
        if exists|c: int| 0 <= c < classes.len() && #[trigger] classes[c].label.spec_matches(symbol) {
            let c = choose|c: int| 0 <= c < classes.len() && #[trigger] classes[c].label.spec_matches(symbol);
            assert(classes[c].target_by_source@[first] == one);
            assert(classes[c].target_by_source@[second] == other);
            assert(signature(classes, blocks, first) == signature(classes, blocks, second));
            assert(signature(classes, blocks, first)[c + 1] == entry(classes, blocks, first, c));
            assert(signature(classes, blocks, second)[c + 1] == entry(classes, blocks, second, c));
            if let Some(u) = one {
                assert(blocks[u@ as int] < count);
            }
            if let Some(v) = other {
                assert(blocks[v@ as int] < count);
            }
            assert(one is None <==> other is None);
            if let (Some(u), Some(v)) = (one, other) {
                assert(blocks[u@ as int] == blocks[v@ as int]);
                lemma_block_alike(dfa, classes, blocks, count, meanings, u@ as int, v@ as int, input.drop_first());
                assert(run_from(dfa, first, input) == run_from(dfa, u@ as int, input.drop_first()));
                assert(run_from(dfa, second, input) == run_from(dfa, v@ as int, input.drop_first()));
            }
        } else {
            if one is Some {
                assert(exists|c: int| 0 <= c < classes.len() && #[trigger] classes[c].label.spec_matches(symbol));
            }
            if other is Some {
                assert(exists|c: int| 0 <= c < classes.len() && #[trigger] classes[c].label.spec_matches(symbol));
            }
        }
    }
}

/// Whether two states of `dfa` share a group of `result` exactly where they
/// answer each input alike under `meanings`: thus no group can join more
/// states, and no two groups answer alike.
pub open spec fn groups_exactly<L: Label, A, K>(dfa: &Dfa<L, A>, result: &Minimization<L>, meanings: Seq<K>) -> bool {
    forall|first: int, second: int|
        0 <= first < meanings.len() && 0 <= second < meanings.len() ==> (
        #[trigger] result.states@[first] == #[trigger] result.states@[second]
            <==> indistinguishable(dfa, meanings, first, second))
}

/// Where states that answer each input alike share a block, they have one
/// signature.
proof fn lemma_signature_alike<L: Label, A, K>(
    dfa: &Dfa<L, A>,
    classes: Seq<GlobalClass<L>>,
    blocks: Seq<usize>,
    meanings: Seq<K>,
    first: int,
    second: int,
)
    requires
        classifies(dfa, classes),
        forall|c: int| 0 <= c < classes.len() ==> #[trigger] inhabited(classes[c].label),
        blocks.len() == dfa.spec_state_count(),
        forall|a: int, b: int|
            0 <= a < blocks.len() && 0 <= b < blocks.len() && #[trigger] indistinguishable(dfa, meanings, a, b)
                ==> blocks[a] == blocks[b],
        0 <= first < blocks.len(),
        0 <= second < blocks.len(),
        indistinguishable(dfa, meanings, first, second),
    ensures
        signature(classes, blocks, first) == signature(classes, blocks, second),
{
    assert forall|c: int| 0 <= c < classes.len() implies entry(classes, blocks, first, c) == entry(
        classes,
        blocks,
        second,
        c,
    ) by {
        assert(inhabited(classes[c].label));
        let symbol = choose|symbol: L::Symbol| #[trigger] classes[c].label.spec_matches(symbol);
        assert(classes[c].target_by_source@[first] == target_of(dfa.spec_transitions()[first], symbol));
        assert(classes[c].target_by_source@[second] == target_of(dfa.spec_transitions()[second], symbol));
        lemma_indistinguishable_step(dfa, meanings, first, second, symbol);
        if let (Some(u), Some(v)) = (
            target_of(dfa.spec_transitions()[first], symbol),
            target_of(dfa.spec_transitions()[second], symbol),
        ) {
            assert(indistinguishable(dfa, meanings, u@ as int, v@ as int));
            assert(blocks[u@ as int] == blocks[v@ as int]);
        }
    }
    assert(signature(classes, blocks, first) =~= signature(classes, blocks, second));
}

/// One more than the largest of the first `count` numbers of `numbers`, or 0
/// for none.
pub open spec fn bound_before(numbers: Seq<int>, count: int) -> int
    decreases count,
{
    if count <= 0 {
        0
    } else {
        let bound = bound_before(numbers, count - 1);
        if numbers[count - 1] + 1 > bound {
            numbers[count - 1] + 1
        } else {
            bound
        }
    }
}

/// Whether `numbers` numbers its groups from 0 in the sequence of their first
/// members: each number is one that came before, or the next one.
pub open spec fn first_seen_numbering(numbers: Seq<int>) -> bool {
    forall|s: int| 0 <= s < numbers.len() ==> #[trigger] numbers[s] <= bound_before(numbers, s)
}

/// The numbers of `blocks`.
pub open spec fn block_numbers(blocks: Seq<usize>) -> Seq<int> {
    blocks.map_values(|block: usize| block as int)
}

/// The number of each state of `states`.
pub open spec fn state_numbers(states: Seq<StateId>) -> Seq<int> {
    states.map_values(|state: StateId| state@ as int)
}

/// The bound of a prefix depends on that prefix alone.
proof fn lemma_bound_prefix(first: Seq<int>, second: Seq<int>, count: int)
    requires
        0 <= count <= first.len(),
        count <= second.len(),
        forall|i: int| 0 <= i < count ==> first[i] == second[i],
    ensures
        bound_before(first, count) == bound_before(second, count),
    decreases count,
{
    if count > 0 {
        lemma_bound_prefix(first, second, count - 1);
    }
}

/// Pushing a number that came before, or the next one, keeps a first-seen
/// numbering.
proof fn lemma_numbering_push(numbers: Seq<int>, number: int, bound: int)
    requires
        first_seen_numbering(numbers),
        bound_before(numbers, numbers.len() as int) == bound,
        number <= bound,
    ensures
        first_seen_numbering(numbers.push(number)),
        bound_before(numbers.push(number), (numbers.len() + 1) as int) == if number == bound {
            bound + 1
        } else {
            bound
        },
{
    let pushed = numbers.push(number);
    lemma_bound_prefix(numbers, pushed, numbers.len() as int);
    assert forall|s: int| 0 <= s < pushed.len() implies #[trigger] pushed[s] <= bound_before(pushed, s) by {
        if s < numbers.len() {
            lemma_bound_prefix(numbers, pushed, s);
            assert(pushed[s] == numbers[s]);
        }
    }
    assert(pushed[numbers.len() as int] == number);
}

/// Returns `true` if `first` and `second` hold the same numbers.
fn same_numbers(first: &[usize], second: &[usize]) -> (same: bool)
    ensures
        same == (first@ == second@),
{
    if first.len() != second.len() {
        return false;
    }
    let mut i: usize = 0;
    while i < first.len()
        invariant
            first@.len() == second@.len(),
            i <= first@.len(),
            forall|k: int| 0 <= k < i ==> first@[k] == second@[k],
        decreases first@.len() - i,
    {
        if first[i] != second[i] {
            return false;
        }
        i = i + 1;
    }
    proof {
        assert(first@ =~= second@);
    }
    true
}

/// Returns the first block of each state, and the number of the blocks.
///
/// Two states are in one block if they agree on acceptance, and if `accept`
/// gives two equal meanings for them. The blocks are numbered from 0, in the
/// sequence of their first states.
fn initial_blocks<L: Label, A, K: PartialEq, F: Fn(StateId) -> K>(dfa: &Dfa<L, A>, accept: &F) -> (result: (
    Vec<usize>,
    usize,
    Ghost<Seq<K>>,
))
    requires
        dfa.well_formed(),
        forall|state: StateId|
            state@ < dfa.spec_state_count() ==> #[trigger] call_requires(*accept, (state,)),
    ensures
        result.0@.len() == dfa.spec_state_count(),
        result.1 <= dfa.spec_state_count(),
        numbered(result.0@, result.1 as nat),
        accept_respecting(dfa, result.0@),
        meant(*accept, result.2@, dfa.spec_state_count()),
        obeys_concrete_eq::<K>() ==> forall|first: int, second: int|
            0 <= first < result.0@.len() && 0 <= second < result.0@.len() && #[trigger] result.0@[first]
                == #[trigger] result.0@[second] ==> result.2@[first] == result.2@[second],
        obeys_concrete_eq::<K>() ==> forall|first: int, second: int|
            0 <= first < result.0@.len() && 0 <= second < result.0@.len() && (dfa.spec_accepts()[first]
                is Some <==> dfa.spec_accepts()[second] is Some) && #[trigger] result.2@[first]
                == #[trigger] result.2@[second] ==> result.0@[first] == result.0@[second],
{
    let count = dfa.state_count();
    let mut keys: Vec<(bool, K)> = Vec::new();
    let mut blocks: Vec<usize> = Vec::new();
    let mut index: usize = 0;
    let ghost mut meanings: Seq<K> = Seq::empty();
    while index < count
        invariant
            dfa.well_formed(),
            count == dfa.spec_state_count(),
            forall|state: StateId|
            state@ < dfa.spec_state_count() ==> #[trigger] call_requires(*accept, (state,)),
            index <= count,
            blocks@.len() == index,
            keys@.len() <= index,
            numbered(blocks@, keys@.len()),
            forall|state: int|
                0 <= state < index ==> keys@[(#[trigger] blocks@[state]) as int].0 == dfa.spec_accepts()[
                    state
                ] is Some,
            meant(*accept, meanings, index as nat),
            obeys_concrete_eq::<K>() ==> forall|state: int|
                0 <= state < index ==> keys@[(#[trigger] blocks@[state]) as int].1 == meanings[state],
            obeys_concrete_eq::<K>() ==> forall|a: int, b: int|
                0 <= a < b < keys@.len() ==> #[trigger] keys@[a] != #[trigger] keys@[b],
        decreases count - index,
    {
        let id = StateId::new(index);
        let accepting = dfa.accepts(id);
        let meaning = accept(id);
        proof {
            assert(id == StateId(index as u32));
        }
        let mut found: Option<usize> = None;
        let mut j: usize = 0;
        while j < keys.len()
            invariant
                j <= keys@.len(),
                found matches Some(block) ==> block < keys@.len() && keys@[block as int].0 == accepting
                    && (obeys_concrete_eq::<K>() ==> keys@[block as int].1 == meaning),
                found is None && obeys_concrete_eq::<K>() ==> forall|d: int|
                    0 <= d < j ==> #[trigger] keys@[d] != (accepting, meaning),
            decreases keys@.len() - j,
        {
            if found.is_none() && keys[j].0 == accepting && keys[j].1 == meaning {
                proof {
                    reveal(obeys_concrete_eq);
                }
                found = Some(j);
            } else {
                proof {
                    if found is None && obeys_concrete_eq::<K>() {
                        reveal(obeys_concrete_eq);
                        assert(keys@[j as int] != (accepting, meaning));
                    }
                }
            }
            j = j + 1;
        }
        let ghost before = blocks@;
        let ghost key_count = keys@.len();
        let ghost keys_before = keys@;
        let ghost meanings_before = meanings;
        proof {
            meanings = meanings.push(meaning);
        }
        match found {
            Some(block) => {
                blocks.push(block);
            },
            None => {
                let block = keys.len();
                keys.push((accepting, meaning));
                blocks.push(block);
            },
        }
        proof {
            assert forall|state: int| 0 <= state < index + 1 implies #[trigger] call_ensures(
                *accept,
                (StateId(state as u32),),
                meanings[state],
            ) by {
                if state < index {
                    assert(meanings[state] == meanings_before[state]);
                }
            }
            if obeys_concrete_eq::<K>() {
                assert forall|a: int, b: int| 0 <= a < b < keys@.len() implies #[trigger] keys@[a]
                    != #[trigger] keys@[b] by {
                    if b >= key_count {
                        assert(keys@[b] == (accepting, meaning));
                        assert(keys@[a] == keys_before[a]);
                    } else {
                        assert(keys@[a] == keys_before[a]);
                        assert(keys@[b] == keys_before[b]);
                    }
                }
                assert forall|state: int| 0 <= state < index + 1 implies keys@[(
                #[trigger] blocks@[state]) as int].1 == meanings[state] by {
                    if state < index {
                        assert(blocks@[state] == before[state]);
                        assert(keys@[before[state] as int] == keys_before[before[state] as int]);
                    }
                }
            }
            assert forall|block: int| 0 <= block < keys@.len() implies #[trigger] occupied(
                blocks@,
                block,
            ) by {
                if block < key_count {
                    assert(occupied(before, block));
                    let state = choose|state: int| 0 <= state < before.len() && before[state] == block;
                    assert(blocks@[state] == before[state]);
                } else {
                    assert(blocks@[index as int] == block);
                }
            }
            assert forall|state: int| 0 <= state < index + 1 implies keys@[(
            #[trigger] blocks@[state]) as int].0 == dfa.spec_accepts()[state] is Some by {
                if state < index {
                    assert(blocks@[state] == before[state]);
                }
            }
        }
        index = index + 1;
    }
    proof {
        assert forall|first: int, second: int|
            0 <= first < blocks@.len() && 0 <= second < blocks@.len() && #[trigger] blocks@[first]
                == #[trigger] blocks@[second] implies (dfa.spec_accepts()[first] is Some
            <==> dfa.spec_accepts()[second] is Some) by {
            assert(keys@[blocks@[first] as int].0 == dfa.spec_accepts()[first] is Some);
            assert(keys@[blocks@[second] as int].0 == dfa.spec_accepts()[second] is Some);
        }
        if obeys_concrete_eq::<K>() {
            assert forall|first: int, second: int|
                0 <= first < blocks@.len() && 0 <= second < blocks@.len() && #[trigger] blocks@[first]
                    == #[trigger] blocks@[second] implies meanings[first] == meanings[second] by {
                assert(keys@[blocks@[first] as int].1 == meanings[first]);
                assert(keys@[blocks@[second] as int].1 == meanings[second]);
            }
            assert forall|first: int, second: int|
                0 <= first < blocks@.len() && 0 <= second < blocks@.len() && (dfa.spec_accepts()[first]
                    is Some <==> dfa.spec_accepts()[second] is Some) && #[trigger] meanings[first]
                    == #[trigger] meanings[second] implies blocks@[first] == blocks@[second] by {
                let a = blocks@[first] as int;
                let b = blocks@[second] as int;
                assert(keys@[a].0 == dfa.spec_accepts()[first] is Some);
                assert(keys@[b].0 == dfa.spec_accepts()[second] is Some);
                assert(keys@[a].1 == meanings[first]);
                assert(keys@[b].1 == meanings[second]);
                assert(keys@[a] == keys@[b]);
                if a < b {
                    assert(keys@[a] != keys@[b]);
                } else if b < a {
                    assert(keys@[b] != keys@[a]);
                }
            }
        }
    }
    let number = keys.len();
    (blocks, number, Ghost(meanings))
}

/// A numbering of `blocks.len()` states holds no more blocks than states.
proof fn lemma_numbered_bound(blocks: Seq<usize>, number: nat)
    requires
        numbered(blocks, number),
    ensures
        number <= blocks.len(),
{
    let states = set_int_range(0, blocks.len() as int);
    let numbers = set_int_range(0, number as int);
    let f = |state: int| blocks[state] as int;
    lemma_int_range(0, blocks.len() as int);
    lemma_int_range(0, number as int);
    assert forall|block: int| numbers.contains(block) implies states.map(f).contains(block) by {
        assert(occupied(blocks, block));
        let state = choose|state: int| 0 <= state < blocks.len() && blocks[state] == block;
        assert(states.contains(state));
    }
    assert(states.map(f) =~= numbers);
    lemma_map_size_bound(states, numbers, f);
}

/// A state of `blocks` in `block`, where there is one.
spec fn member(blocks: Seq<usize>, block: int) -> int {
    choose|state: int| 0 <= state < blocks.len() && blocks[state] == block
}

/// Where `fine` never separates two states of one block of `coarse`, and the
/// blocks of `domain` reach each block of `coarse`, `coarse` holds no more
/// blocks than `domain`.
proof fn lemma_reach_count(
    fine: Seq<usize>,
    coarse: Seq<usize>,
    coarse_count: nat,
    domain: Set<int>,
    pick: spec_fn(int) -> int,
)
    requires
        fine.len() == coarse.len(),
        numbered(coarse, coarse_count),
        domain.finite(),
        forall|s: int, t: int|
            0 <= s < fine.len() && 0 <= t < fine.len() && #[trigger] fine[s] == #[trigger] fine[t]
                ==> coarse[s] == coarse[t],
        forall|block: int| #[trigger] domain.contains(block) ==> occupied(fine, block),
        forall|state: int|
            0 <= state < coarse.len() ==> #[trigger] domain.contains(pick(state)) && coarse[member(
                fine,
                pick(state),
            )] == coarse[state],
    ensures
        coarse_count <= domain.len(),
{
    let f = |block: int| coarse[member(fine, block)] as int;
    let range = set_int_range(0, coarse_count as int);
    lemma_int_range(0, coarse_count as int);
    assert forall|block: int| #[trigger] domain.contains(block) implies range.contains(f(block)) by {
        assert(occupied(fine, block));
    }
    assert forall|block: int| range.contains(block) implies domain.map(f).contains(block) by {
        assert(occupied(coarse, block));
        let state = choose|state: int| 0 <= state < coarse.len() && coarse[state] == block;
        assert(domain.contains(pick(state)));
        assert(f(pick(state)) == block);
    }
    assert(domain.map(f) =~= range);
    lemma_map_size_bound(domain, range, f);
}

/// A numbering that never separates two states of one block of a coarser
/// numbering holds at least as many blocks; where it holds as many, the two
/// numberings separate the same states.
proof fn lemma_finer_count(fine: Seq<usize>, fine_count: nat, coarse: Seq<usize>, coarse_count: nat)
    requires
        fine.len() == coarse.len(),
        numbered(fine, fine_count),
        numbered(coarse, coarse_count),
        forall|s: int, t: int|
            0 <= s < fine.len() && 0 <= t < fine.len() && #[trigger] fine[s] == #[trigger] fine[t]
                ==> coarse[s] == coarse[t],
    ensures
        coarse_count <= fine_count,
        coarse_count == fine_count ==> forall|s: int, t: int|
            0 <= s < fine.len() && 0 <= t < fine.len() && #[trigger] coarse[s] == #[trigger] coarse[t]
                ==> fine[s] == fine[t],
{
    let domain = set_int_range(0, fine_count as int);
    lemma_int_range(0, fine_count as int);
    let same = |state: int| fine[state] as int;
    assert forall|state: int| 0 <= state < coarse.len() implies #[trigger] domain.contains(same(state))
        && coarse[member(fine, same(state))] == coarse[state] by {
        let b = fine[state] as int;
        assert(occupied(fine, b));
        let w = member(fine, b);
        assert(fine[w] == fine[state]);
    }
    lemma_reach_count(fine, coarse, coarse_count, domain, same);
    if coarse_count == fine_count {
        assert forall|s: int, t: int|
            0 <= s < fine.len() && 0 <= t < fine.len() && #[trigger] coarse[s] == #[trigger] coarse[t]
                implies fine[s] == fine[t] by {
            if fine[s] != fine[t] {
                let smaller = domain.remove(fine[t] as int);
                let other = fine[s] as int;
                let moved = |state: int|
                    if fine[state] == fine[t] {
                        other
                    } else {
                        fine[state] as int
                    };
                assert(occupied(fine, other));
                assert(fine[member(fine, other)] == fine[s]);
                assert forall|state: int| 0 <= state < coarse.len() implies #[trigger] smaller.contains(
                    moved(state),
                ) && coarse[member(fine, moved(state))] == coarse[state] by {
                    let b = fine[state] as int;
                    assert(occupied(fine, b));
                    assert(fine[member(fine, b)] == fine[state]);
                    if fine[state] == fine[t] {
                        assert(fine[member(fine, b)] == fine[t]);
                    }
                }
                lemma_reach_count(fine, coarse, coarse_count, smaller, moved);
            }
        }
    }
}

/// Returns the signature of `state` under `blocks`.
fn signature_of<L>(classes: &[GlobalClass<L>], blocks: &[usize], state: usize) -> (found: Vec<usize>)
    requires
        tabulated(classes@, blocks@.len()),
        state < blocks@.len(),
    ensures
        found@ == signature(classes@, blocks@, state as int),
{
    let mut found: Vec<usize> = Vec::new();
    found.push(blocks[state]);
    let mut c: usize = 0;
    while c < classes.len()
        invariant
            tabulated(classes@, blocks@.len()),
            state < blocks@.len(),
            c <= classes@.len(),
            found@ == seq![blocks@[state as int]] + Seq::new(
                c as nat,
                |d: int| entry(classes@, blocks@, state as int, d),
            ),
        decreases classes@.len() - c,
    {
        let value = match classes[c].target_by_source[state] {
            Some(target) => blocks[target.index()],
            None => usize::MAX,
        };
        found.push(value);
        c = c + 1;
        proof {
            assert(found@ =~= seq![blocks@[state as int]] + Seq::new(
                c as nat,
                |d: int| entry(classes@, blocks@, state as int, d),
            ));
        }
    }
    found
}

/// Returns the blocks that the signatures under `blocks` make, and their
/// number.
///
/// Two states share a block of the result exactly where they have one
/// signature. The blocks are numbered from 0, in the sequence of their first
/// states.
fn refine<L>(classes: &[GlobalClass<L>], blocks: &[usize]) -> (result: (Vec<usize>, usize))
    requires
        tabulated(classes@, blocks@.len()),
    ensures
        result.0@.len() == blocks@.len(),
        numbered(result.0@, result.1 as nat),
        forall|s: int, t: int|
            0 <= s < blocks@.len() && 0 <= t < blocks@.len() ==> (#[trigger] result.0@[s]
                == #[trigger] result.0@[t] <==> signature(classes@, blocks@, s) == signature(
                classes@,
                blocks@,
                t,
            )),
        first_seen_numbering(block_numbers(result.0@)),
{
    let count = blocks.len();
    let mut signatures: Vec<Vec<usize>> = Vec::new();
    let mut refined: Vec<usize> = Vec::new();
    let mut state: usize = 0;
    while state < count
        invariant
            tabulated(classes@, blocks@.len()),
            count == blocks@.len(),
            state <= count,
            refined@.len() == state,
            signatures@.len() <= state,
            numbered(refined@, signatures@.len()),
            forall|s: int|
                0 <= s < state ==> signatures@[(#[trigger] refined@[s]) as int]@ == signature(
                    classes@,
                    blocks@,
                    s,
                ),
            forall|j: int, k: int|
                0 <= j < signatures@.len() && 0 <= k < signatures@.len() && j != k
                    ==> (#[trigger] signatures@[j])@ != (#[trigger] signatures@[k])@,
            first_seen_numbering(block_numbers(refined@)),
            bound_before(block_numbers(refined@), state as int) == signatures@.len(),
        decreases count - state,
    {
        let current = signature_of(classes, blocks, state);
        let mut found: Option<usize> = None;
        let mut j: usize = 0;
        while found.is_none() && j < signatures.len()
            invariant
                j <= signatures@.len(),
                found is None ==> forall|k: int| 0 <= k < j ==> (#[trigger] signatures@[k])@ != current@,
                found matches Some(f) ==> f < signatures@.len() && signatures@[f as int]@ == current@,
            decreases signatures@.len() - j,
        {
            if same_numbers(signatures[j].as_slice(), current.as_slice()) {
                found = Some(j);
            }
            j = j + 1;
        }
        let ghost before = refined@;
        let ghost known = signatures@;
        match found {
            Some(block) => {
                refined.push(block);
            },
            None => {
                let block = signatures.len();
                signatures.push(current);
                refined.push(block);
            },
        }
        proof {
            assert(block_numbers(refined@) =~= block_numbers(before).push(refined@[state as int] as int));
            lemma_numbering_push(block_numbers(before), refined@[state as int] as int, known.len() as int);

            assert forall|s: int|
                0 <= s < state + 1 implies signatures@[(#[trigger] refined@[s]) as int]@ == signature(
                classes@,
                blocks@,
                s,
            ) by {
                if s < state {
                    assert(refined@[s] == before[s]);
                    assert(signatures@[before[s] as int] == known[before[s] as int]);
                }
            }
            assert forall|s: int| 0 <= s < refined@.len() implies (#[trigger] refined@[s])
                < signatures@.len() by {
                if s < state {
                    assert(refined@[s] == before[s]);
                }
            }
            assert forall|block: int| 0 <= block < signatures@.len() implies #[trigger] occupied(
                refined@,
                block,
            ) by {
                if block < known.len() {
                    assert(occupied(before, block));
                    let s = choose|s: int| 0 <= s < before.len() && before[s] == block;
                    assert(refined@[s] == before[s]);
                } else {
                    assert(refined@[state as int] == block);
                }
            }
        }
        state = state + 1;
    }
    proof {
        assert forall|s: int, t: int|
            0 <= s < blocks@.len() && 0 <= t < blocks@.len() implies (#[trigger] refined@[s]
                == #[trigger] refined@[t] <==> signature(classes@, blocks@, s) == signature(
                classes@,
                blocks@,
                t,
            )) by {
            if signature(classes@, blocks@, s) == signature(classes@, blocks@, t) {
                assert(signatures@[refined@[s] as int]@ == signatures@[refined@[t] as int]@);
            }
        }
    }
    let number = signatures.len();
    (refined, number)
}

/// Where a round of refinement keeps the number of the blocks, each block of
/// the refined numbering holds the states of one signature.
proof fn lemma_settled<L>(
    classes: Seq<GlobalClass<L>>,
    blocks: Seq<usize>,
    count: nat,
    refined: Seq<usize>,
    refined_count: nat,
)
    requires
        tabulated(classes, blocks.len()),
        blocks.len() <= usize::MAX,
        refined.len() == blocks.len(),
        numbered(blocks, count),
        numbered(refined, refined_count),
        forall|s: int, t: int|
            0 <= s < blocks.len() && 0 <= t < blocks.len() ==> (#[trigger] refined[s]
                == #[trigger] refined[t] <==> signature(classes, blocks, s) == signature(
                classes,
                blocks,
                t,
            )),
    ensures
        count <= refined_count,
        forall|s: int, t: int|
            0 <= s < blocks.len() && 0 <= t < blocks.len() && #[trigger] refined[s]
                == #[trigger] refined[t] ==> blocks[s] == blocks[t],
        refined_count == count ==> stable(classes, refined),
{
    assert forall|s: int, t: int|
        0 <= s < blocks.len() && 0 <= t < blocks.len() && #[trigger] refined[s]
            == #[trigger] refined[t] implies blocks[s] == blocks[t] by {
        assert(signature(classes, blocks, s)[0] == blocks[s]);
        assert(signature(classes, blocks, t)[0] == blocks[t]);
    }
    lemma_finer_count(refined, refined_count, blocks, count);
    if refined_count == count {
        lemma_numbered_bound(blocks, count);
        assert forall|s: int, t: int|
            0 <= s < refined.len() && 0 <= t < refined.len() && #[trigger] refined[s]
                == #[trigger] refined[t] implies signature(classes, refined, s) == signature(
            classes,
            refined,
            t,
        ) by {
            let before_s = signature(classes, blocks, s);
            let before_t = signature(classes, blocks, t);
            assert forall|c: int| 0 <= c < classes.len() implies entry(classes, refined, s, c)
                == entry(classes, refined, t, c) by {
                assert(before_s[c + 1] == before_t[c + 1]);
                assert(before_s[c + 1] == entry(classes, blocks, s, c));
                assert(before_t[c + 1] == entry(classes, blocks, t, c));
                match (classes[c].target_by_source@[s], classes[c].target_by_source@[t]) {
                    (Some(first), Some(second)) => {
                        assert(blocks[first@ as int] == blocks[second@ as int]);
                    },
                    (Some(first), None) => {
                        assert(blocks[first@ as int] < count);
                    },
                    (None, Some(second)) => {
                        assert(blocks[second@ as int] < count);
                    },
                    (None, None) => {},
                }
            }
            assert(signature(classes, refined, s) =~= signature(classes, refined, t));
        }
    }
}

/// The state that `target` stands for in the minimized automaton.
pub open spec fn moved(target: Option<StateId>, states: Seq<StateId>) -> Option<StateId> {
    match target {
        Some(state) => Some(states[state@ as int]),
        None => None,
    }
}

/// `transitions` with each target replaced by the state that `states` gives
/// for it.
pub open spec fn relabeled<L>(transitions: Seq<Transition<L>>, states: Seq<StateId>) -> Seq<
    Transition<L>,
> {
    transitions.map_values(
        |transition: Transition<L>|
            Transition { label: transition.label, target: states[transition.target@ as int] },
    )
}

/// Whether `state` is the first state that `states` sends to its state.
pub open spec fn leads(states: Seq<StateId>, state: int) -> bool {
    forall|earlier: int| 0 <= earlier < state ==> states[earlier] != states[state]
}

/// Whether a state of `states` goes to `block`.
pub open spec fn represented(states: Seq<StateId>, block: int) -> bool {
    exists|state: int| 0 <= state < states.len() && states[state]@ == block
}

/// The automaton that minimization made, and the state of each state before
/// it.
///
/// One state of `dfa` stands for one group of the states of the automaton
/// before. `states` holds the state of `dfa` that each of those states belongs
/// to, at the index of that state.
#[derive(Debug, PartialEq, Eq)]
pub struct Minimization<L> {
    /// The automaton of the groups.
    pub dfa: Dfa<L>,
    /// The state of `dfa` that each state of the automaton before belongs to.
    pub states: Vec<StateId>,
}

/// Whether `result` holds an automaton of groups of the states of `dfa`, in
/// which each group takes the transitions of its first state and reads each
/// symbol as each of its states does.
pub open spec fn minimizes<L: Label, A>(dfa: &Dfa<L, A>, result: &Minimization<L>) -> bool {
    let states = result.states@;
    let groups = result.dfa.spec_transitions();
    &&& result.dfa.well_formed()
    &&& states.len() == dfa.spec_state_count()
    &&& result.dfa.spec_state_count() <= dfa.spec_state_count()
    &&& forall|state: int|
        0 <= state < states.len() ==> (#[trigger] states[state])@ < result.dfa.spec_state_count()
    &&& forall|block: int|
        0 <= block < result.dfa.spec_state_count() ==> #[trigger] represented(states, block)
    &&& forall|state: int|
        0 <= state < states.len() && #[trigger] leads(states, state) ==> groups[states[state]@ as int]
            == relabeled(dfa.spec_transitions()[state], states)
    &&& forall|state: int|
        0 <= state < states.len() ==> (result.dfa.spec_accepts()[(#[trigger] states[state])@ as int] is Some
            <==> dfa.spec_accepts()[state] is Some)
    &&& forall|state: int, symbol: L::Symbol|
        0 <= state < states.len() ==> #[trigger] target_of(groups[states[state]@ as int], symbol)
            == moved(target_of(dfa.spec_transitions()[state], symbol), states)
    &&& result.dfa.spec_starts() == dfa.spec_starts().map_values(
        |start: StateId| states[start@ as int],
    )
}

/// The minimized automaton reads the same input as `dfa`: a scan of the
/// result from the group of a state dies where a scan of `dfa` from that
/// state dies, and else it reaches the group of the state that the scan of
/// `dfa` reaches, which accepts exactly where that state accepts.
pub proof fn lemma_minimized_reads_alike<L: Label, A>(
    dfa: &Dfa<L, A>,
    result: &Minimization<L>,
    state: int,
    input: Seq<L::Symbol>,
)
    requires
        dfa.well_formed(),
        minimizes(dfa, result),
        0 <= state < dfa.spec_state_count(),
    ensures
        run_from(&result.dfa, result.states@[state]@ as int, input) is Some <==> run_from(dfa, state, input) is Some,
        run_from(dfa, state, input) matches Some(reached) ==> 0 <= reached < dfa.spec_state_count()
            && run_from(&result.dfa, result.states@[state]@ as int, input) == Some(result.states@[reached]@ as int)
            && (result.dfa.spec_accepts()[result.states@[reached]@ as int] is Some
                <==> dfa.spec_accepts()[reached] is Some),
    decreases input.len(),
{
    let states = result.states@;
    if input.len() > 0 {
        let symbol = input[0];
        let rest = input.drop_first();
        assert(input =~= seq![symbol] + rest);
        lemma_run_first(dfa, state, symbol, rest);
        lemma_run_first(&result.dfa, states[state]@ as int, symbol, rest);
        assert(target_of(result.dfa.spec_transitions()[states[state]@ as int], symbol) == moved(
            target_of(dfa.spec_transitions()[state], symbol),
            states,
        ));
        if let Some(target) = target_of(dfa.spec_transitions()[state], symbol) {
            let group = dfa.spec_transitions()[state];
            let k = choose|k: int| 0 <= k < group.len() && #[trigger] group[k].label.spec_matches(symbol);
            assert(group[k].target@ < dfa.spec_state_count());
            lemma_minimized_reads_alike(dfa, result, target@ as int, rest);
        }
    }
}

/// Relabeling the targets of transitions of which no two match `symbol`
/// relabels the target of `symbol`.
proof fn lemma_relabeled_target<L: Label>(
    transitions: Seq<Transition<L>>,
    states: Seq<StateId>,
    symbol: L::Symbol,
)
    requires
        forall|first: int, second: int|
            0 <= first < second < transitions.len() && #[trigger] transitions[first].label.spec_matches(
                symbol,
            ) ==> !#[trigger] transitions[second].label.spec_matches(symbol),
    ensures
        target_of(relabeled(transitions, states), symbol) == moved(
            target_of(transitions, symbol),
            states,
        ),
{
    let changed = relabeled(transitions, states);
    assert forall|k: int| 0 <= k < transitions.len() implies #[trigger] changed[k].label
        == transitions[k].label by {}
    if exists|k: int| 0 <= k < transitions.len() && #[trigger] transitions[k].label.spec_matches(symbol) {
        let k = choose|k: int|
            0 <= k < transitions.len() && #[trigger] transitions[k].label.spec_matches(symbol);
        assert(changed[k].label.spec_matches(symbol));
        let j = choose|j: int| 0 <= j < changed.len() && #[trigger] changed[j].label.spec_matches(symbol);
        assert(transitions[j].label.spec_matches(symbol));
        if j < k {
            assert(!transitions[k].label.spec_matches(symbol));
        } else if k < j {
            assert(!transitions[j].label.spec_matches(symbol));
        }
    } else {
        assert forall|j: int| 0 <= j < changed.len() implies !#[trigger] changed[j].label.spec_matches(
            symbol,
        ) by {
            assert(!transitions[j].label.spec_matches(symbol));
        }
    }
}

/// Two states of one block of a stable numbering go with each symbol to
/// states of one block.
proof fn lemma_stable_target<L: Label, A>(
    dfa: &Dfa<L, A>,
    classes: Seq<GlobalClass<L>>,
    blocks: Seq<usize>,
    count: nat,
    first: int,
    second: int,
    symbol: L::Symbol,
)
    requires
        dfa.well_formed(),
        classifies(dfa, classes),
        blocks.len() == dfa.spec_state_count(),
        blocks.len() <= usize::MAX,
        numbered(blocks, count),
        stable(classes, blocks),
        0 <= first < blocks.len(),
        0 <= second < blocks.len(),
        blocks[first] == blocks[second],
    ensures
        moved(
            target_of(dfa.spec_transitions()[first], symbol),
            blocks.map_values(|block: usize| StateId(block as u32)),
        ) == moved(
            target_of(dfa.spec_transitions()[second], symbol),
            blocks.map_values(|block: usize| StateId(block as u32)),
        ),
{
    let groups = dfa.spec_transitions();
    let states = blocks.map_values(|block: usize| StateId(block as u32));
    lemma_numbered_bound(blocks, count);
    if exists|c: int| 0 <= c < classes.len() && #[trigger] classes[c].label.spec_matches(symbol) {
        let c = choose|c: int| 0 <= c < classes.len() && #[trigger] classes[c].label.spec_matches(symbol);
        assert(classes[c].target_by_source@[first] == target_of(groups[first], symbol));
        assert(classes[c].target_by_source@[second] == target_of(groups[second], symbol));
        let before_first = signature(classes, blocks, first);
        let before_second = signature(classes, blocks, second);
        assert(before_first == before_second);
        assert(before_first[c + 1] == entry(classes, blocks, first, c));
        assert(before_second[c + 1] == entry(classes, blocks, second, c));
        match (classes[c].target_by_source@[first], classes[c].target_by_source@[second]) {
            (Some(one), Some(other)) => {
                assert(blocks[one@ as int] == blocks[other@ as int]);
                assert(states[one@ as int] == states[other@ as int]);
            },
            (Some(one), None) => {
                assert(blocks[one@ as int] < count);
            },
            (None, Some(other)) => {
                assert(blocks[other@ as int] < count);
            },
            (None, None) => {},
        }
    } else {
        assert(target_of(groups[first], symbol) is None);
        assert(target_of(groups[second], symbol) is None);
    }
}

/// Whether `block` holds a state that is the first of its block.
pub open spec fn has_leader(blocks: Seq<usize>, block: int) -> bool {
    exists|state: int|
        0 <= state < blocks.len() && blocks[state] == block && #[trigger] leads(block_states(blocks), state)
}

/// The automaton that takes, for each block, the transitions and the accept of
/// its first state minimizes `dfa`.
proof fn lemma_build_result<L: Label, A>(
    dfa: &Dfa<L, A>,
    classes: Seq<GlobalClass<L>>,
    blocks: Seq<usize>,
    count: nat,
    result: &Minimization<L>,
    table: StateTableBuilder<L, ()>,
)
    requires
        dfa.well_formed(),
        classifies(dfa, classes),
        blocks.len() == dfa.spec_state_count(),
        blocks.len() <= usize::MAX,
        numbered(blocks, count),
        stable(classes, blocks),
        accept_respecting(dfa, blocks),
        result.states@ == block_states(blocks),
        result.dfa.well_formed(),
        result.dfa.spec_transitions() == table.spec_groups(),
        result.dfa.spec_accepts() == table.spec_accepts(),
        result.dfa.spec_starts() == dfa.spec_starts().map_values(
            |start: StateId| block_states(blocks)[start@ as int],
        ),
        table.spec_state_count() == count,
        forall|b: int| 0 <= b < count ==> #[trigger] has_leader(blocks, b),
        forall|r: int|
            0 <= r < blocks.len() && #[trigger] leads(block_states(blocks), r) ==> group_of(
                table.spec_edges(),
                blocks[r] as int,
            ) == relabeled(dfa.spec_transitions()[r], block_states(blocks)) && (
            table.spec_accepts()[blocks[r] as int] is Some <==> dfa.spec_accepts()[r] is Some),
    ensures
        minimizes(dfa, result),
{
    let states = block_states(blocks);
    let groups = dfa.spec_transitions();
    let built = result.dfa.spec_transitions();
    lemma_numbered_bound(blocks, count);
    assert forall|block: int| 0 <= block < count implies #[trigger] represented(
        result.states@,
        block,
    ) by {
        assert(has_leader(blocks, block));
        let r = choose|r: int| 0 <= r < blocks.len() && blocks[r] == block && #[trigger] leads(states, r);
        assert(result.states@[r]@ == block);
    }
    assert forall|state: int|
        0 <= state < blocks.len() && #[trigger] leads(result.states@, state) implies built[result.states@[state]@ as int]
        == relabeled(groups[state], result.states@) by {
        assert(result.states@[state]@ == blocks[state]);
    }
    assert forall|state: int|
        0 <= state < blocks.len() implies (result.dfa.spec_accepts()[(
        #[trigger] result.states@[state])@ as int] is Some <==> dfa.spec_accepts()[state] is Some) by {
        let b = blocks[state] as int;
        assert(has_leader(blocks, b));
        let r = choose|r: int| 0 <= r < blocks.len() && blocks[r] == b && #[trigger] leads(states, r);
        assert(result.states@[state]@ == b);
    }
    assert forall|state: int, symbol: L::Symbol|
        0 <= state < blocks.len() implies #[trigger] target_of(
        built[result.states@[state]@ as int],
        symbol,
    ) == moved(target_of(groups[state], symbol), result.states@) by {
        let b = blocks[state] as int;
        assert(has_leader(blocks, b));
        let r = choose|r: int| 0 <= r < blocks.len() && blocks[r] == b && #[trigger] leads(states, r);
        assert(result.states@[state]@ == b);
        assert(built[b] == relabeled(groups[r], states));
        assert forall|first: int, second: int|
            0 <= first < second < groups[r].len() && #[trigger] groups[r][first].label.spec_matches(
                symbol,
            ) implies !#[trigger] groups[r][second].label.spec_matches(symbol) by {}
        lemma_relabeled_target(groups[r], states, symbol);
        lemma_stable_target(dfa, classes, blocks, count, r, state, symbol);
    }
}

/// The identifier of each block of `blocks`.
pub open spec fn block_states(blocks: Seq<usize>) -> Seq<StateId> {
    blocks.map_values(|block: usize| StateId(block as u32))
}

/// Builds the automaton of `count` blocks, in which `blocks` gives the block of
/// each state.
///
/// A block takes the transitions and the accept of its first state, and each
/// transition goes to the block of its target. Each state of one block answers
/// the same for each symbol, thus the result reads the same input.
fn build<L: Label, A>(
    dfa: &Dfa<L, A>,
    classes: &[GlobalClass<L>],
    blocks: &[usize],
    count: usize,
) -> (result: Minimization<L>)
    requires
        dfa.well_formed(),
        classifies(dfa, classes@),
        blocks@.len() == dfa.spec_state_count(),
        numbered(blocks@, count as nat),
        stable(classes@, blocks@),
        accept_respecting(dfa, blocks@),
    ensures
        minimizes(dfa, &result),
        result.states@ == block_states(blocks@),
{
    let n = dfa.state_count();
    let ghost groups = dfa.spec_transitions();
    let ghost states = block_states(blocks@);
    proof {
        lemma_numbered_bound(blocks@, count as nat);
    }
    let mut builder: Builder<L> = Builder::with_capacity(count);
    let mut added: usize = 0;
    while added < count
        invariant
            count <= STATE_IDENTIFIERS,
            added <= count,
            builder.well_formed(),
            builder.spec_state_count() == added,
            builder.spec_table().spec_capacity() == count,
            builder.spec_table().spec_error() is None,
            builder.spec_table().spec_edges().len() == 0,
            forall|b: int| 0 <= b < added ==> (#[trigger] builder.spec_table().spec_accepts()[b]) is None,
        decreases count - added,
    {
        builder.add_state();
        added = added + 1;
    }
    let mut seen: Vec<bool> = Vec::new();
    while seen.len() < count
        invariant
            seen@.len() <= count,
            forall|b: int| 0 <= b < seen@.len() ==> !(#[trigger] seen@[b]),
        decreases count - seen@.len(),
    {
        seen.push(false);
    }
    proof {
        assert(groups.take(0) =~= Seq::<Seq<Transition<L>>>::empty());
        assert forall|b: int| 0 <= b < count implies group_of(
            builder.spec_table().spec_edges(),
            b,
        ).len() == 0 by {
            lemma_group_empty(builder.spec_table().spec_edges(), b);
        }
    }
    let mut state: usize = 0;
    while state < n
        invariant
            dfa.well_formed(),
            groups == dfa.spec_transitions(),
            states == block_states(blocks@),
            n == dfa.spec_state_count(),
            blocks@.len() == n,
            numbered(blocks@, count as nat),
            count <= n,
            state <= n,
            builder.well_formed(),
            builder.spec_state_count() == count,
            builder.spec_table().spec_capacity() == count,
            builder.spec_table().spec_error() is None,
            builder.spec_table().spec_edges().len() <= flatten(groups.take(state as int)).len(),
            seen@.len() == count,
            forall|b: int|
                0 <= b < count && #[trigger] seen@[b] ==> exists|r: int|
                    0 <= r < state && blocks@[r] == b && leads(states, r),
            forall|r: int| 0 <= r < state ==> seen@[(#[trigger] blocks@[r]) as int],
            forall|b: int|
                0 <= b < count && !(#[trigger] seen@[b]) ==> group_of(
                    builder.spec_table().spec_edges(),
                    b,
                ).len() == 0 && builder.spec_table().spec_accepts()[b] is None,
            forall|r: int|
                0 <= r < state && #[trigger] leads(states, r) ==> group_of(
                    builder.spec_table().spec_edges(),
                    blocks@[r] as int,
                ) == relabeled(groups[r], states) && (builder.spec_table().spec_accepts()[blocks@[r] as int] is Some
                    <==> dfa.spec_accepts()[r] is Some),
        decreases n - state,
    {
        let block = blocks[state];
        let ghost before_edges = builder.spec_table().spec_edges();
        let ghost before_accepts = builder.spec_table().spec_accepts();
        let ghost before_seen = seen@;
        if !seen[block] {
            let id = StateId::new(state);
            let transitions = dfa.transitions(id);
            let source = StateId::new(block);
            let mut k: usize = 0;
            proof {
                assert(relabeled(groups[state as int], states).take(0) =~= group_of(
                    before_edges,
                    block as int,
                ));
            }
            while k < transitions.len()
                invariant
                    dfa.well_formed(),
                    groups == dfa.spec_transitions(),
                    states == block_states(blocks@),
                    n == dfa.spec_state_count(),
                    blocks@.len() == n,
                    numbered(blocks@, count as nat),
                    count <= n,
                    state < n,
                    block == blocks@[state as int],
                    source@ == block,
                    transitions@ == groups[state as int],
                    k <= transitions@.len(),
                    builder.well_formed(),
                    builder.spec_state_count() == count,
                    builder.spec_table().spec_capacity() == count,
                    builder.spec_table().spec_error() is None,
                    builder.spec_table().spec_accepts() == before_accepts,
                    builder.spec_table().spec_edges().len() == before_edges.len() + k,
                    group_of(builder.spec_table().spec_edges(), block as int) == relabeled(
                        groups[state as int],
                        states,
                    ).take(k as int),
                    forall|other: int|
                        other != block ==> #[trigger] group_of(builder.spec_table().spec_edges(), other)
                            == group_of(before_edges, other),
                decreases transitions@.len() - k,
            {
                let transition = transitions[k];
                proof {
                    assert(groups[state as int][k as int] == transition);
                }
                let target = StateId::new(blocks[transition.target.index()]);
                let ghost prior = builder.spec_table().spec_edges();
                builder.add_transition(source, transition.label, target);
                proof {
                    let entry = (source, Transition { label: transition.label, target });
                    assert(builder.spec_table().spec_edges() == prior.push(entry));
                    assert forall|other: int| other != block implies #[trigger] group_of(
                        builder.spec_table().spec_edges(),
                        other,
                    ) == group_of(before_edges, other) by {
                        lemma_group_push(prior, entry, other);
                    }
                    lemma_group_push(prior, entry, block as int);
                    assert(target == states[transition.target@ as int]);
                    assert(relabeled(groups[state as int], states).take(k + 1) =~= relabeled(
                        groups[state as int],
                        states,
                    ).take(k as int).push(entry.1));
                }
                k = k + 1;
            }
            if dfa.accepts(id) {
                builder.mark_accept(source);
            }
            seen.set(block, true);
            proof {
                assert(relabeled(groups[state as int], states).take(transitions@.len() as int)
                    =~= relabeled(groups[state as int], states));
                assert forall|earlier: int| 0 <= earlier < state implies states[earlier]
                    != states[state as int] by {
                    assert(before_seen[blocks@[earlier] as int]);
                    assert(blocks@[earlier] < count);
                }
                assert(leads(states, state as int));
            }
        }
        proof {
            let after = groups.take(state + 1);
            assert(after.drop_last() =~= groups.take(state as int));
            assert(after.last() == groups[state as int]);
            let edges = builder.spec_table().spec_edges();
            let accepts = builder.spec_table().spec_accepts();
            assert forall|b: int|
                0 <= b < count && #[trigger] seen@[b] implies exists|r: int|
                    0 <= r < state + 1 && blocks@[r] == b && leads(states, r) by {
                if b != block || before_seen[b] {
                    assert(before_seen[b]);
                    let r = choose|r: int| 0 <= r < state && blocks@[r] == b && leads(states, r);
                    assert(0 <= r < state + 1 && blocks@[r] == b && leads(states, r));
                } else {
                    assert(blocks@[state as int] == b && leads(states, state as int));
                }
            }
            assert forall|r: int| 0 <= r < state + 1 implies seen@[(#[trigger] blocks@[r]) as int] by {
                if r < state {
                    assert(before_seen[blocks@[r] as int]);
                }
            }
            assert forall|r: int|
                0 <= r < state + 1 && #[trigger] leads(states, r) implies group_of(
                    edges,
                    blocks@[r] as int,
                ) == relabeled(groups[r], states) && (accepts[blocks@[r] as int] is Some
                    <==> dfa.spec_accepts()[r] is Some) by {
                if r < state {
                    assert(before_seen[blocks@[r] as int]);
                    if blocks@[r] == block {
                        assert(states[r] == states[state as int]);
                        assert(!leads(states, state as int));
                    }
                } else if before_seen[block as int] {
                    let first = choose|first: int|
                        0 <= first < state && blocks@[first] == block && leads(states, first);
                    assert(states[first] == states[r]);
                }
            }
        }
        state = state + 1;
    }
    let old_starts = dfa.start_states();
    let mut starts: Vec<StateId> = Vec::new();
    let mut i: usize = 0;
    while i < old_starts.len()
        invariant
            dfa.well_formed(),
            n == dfa.spec_state_count(),
            blocks@.len() == n,
            numbered(blocks@, count as nat),
            count <= n,
            states == block_states(blocks@),
            old_starts@ == dfa.spec_starts(),
            i <= old_starts@.len(),
            starts@ == old_starts@.take(i as int).map_values(|start: StateId| states[start@ as int]),
        decreases old_starts@.len() - i,
    {
        let start = StateId::new(blocks[old_starts[i].index()]);
        starts.push(start);
        i = i + 1;
        proof {
            assert(starts@ =~= old_starts@.take(i as int).map_values(
                |start: StateId| states[start@ as int],
            ));
        }
    }
    let mut mapped: Vec<StateId> = Vec::new();
    let mut j: usize = 0;
    while j < n
        invariant
            n == blocks@.len(),
            numbered(blocks@, count as nat),
            count <= STATE_IDENTIFIERS,
            states == block_states(blocks@),
            j <= n,
            mapped@ == states.take(j as int),
        decreases n - j,
    {
        mapped.push(StateId::new(blocks[j]));
        j = j + 1;
        proof {
            assert(mapped@ =~= states.take(j as int));
        }
    }
    proof {
        assert(old_starts@.take(old_starts@.len() as int) =~= old_starts@);
        assert(states.take(n as int) =~= states);
        assert(groups.take(n as int) =~= groups);
        assert forall|b: int| 0 <= b < count implies #[trigger] has_leader(blocks@, b) by {
            assert(occupied(blocks@, b));
            let r = choose|r: int| 0 <= r < n && blocks@[r] == b;
            assert(seen@[blocks@[r] as int]);
        }
    }
    let ghost table = builder.spec_table();
    proof {
        let edges = table.spec_edges();
        let built = table.spec_groups();
        assert forall|b: int, k: int|
            0 <= b < built.len() && 0 <= k < built[b].len() implies (#[trigger] built[b][k]).target@
            < count by {
            assert(has_leader(blocks@, b));
            let r = choose|r: int| 0 <= r < n && blocks@[r] == b && #[trigger] leads(states, r);
            assert(built[b] == relabeled(groups[r], states));
            let target = groups[r][k].target@ as int;
            assert(0 <= target < n);
            assert(blocks@[target] < count);
        }
        assert forall|b: int, first: int, second: int, symbol: L::Symbol|
            #![trigger built[b][first].label.spec_matches(symbol), built[b][second].label.spec_matches(symbol)]
            0 <= b < built.len() && 0 <= first < second < built[b].len()
                && built[b][first].label.spec_matches(symbol) implies !built[b][second].label.spec_matches(
            symbol,
        ) by {
            assert(has_leader(blocks@, b));
            let r = choose|r: int| 0 <= r < n && blocks@[r] == b && #[trigger] leads(states, r);
            assert(built[b] == relabeled(groups[r], states));
            assert(built[b][first].label == groups[r][first].label);
            assert(built[b][second].label == groups[r][second].label);
            assert(groups[r][first].label.spec_matches(symbol));
        }
    }
    let minimal = builder.build(starts.as_slice()).unwrap();
    let result = Minimization { dfa: minimal, states: mapped };
    proof {
        lemma_build_result(dfa, classes@, blocks@, count as nat, &result, table);
    }
    result
}

impl<L: Partitionable, A> Dfa<L, A> {
    /// Minimizes the automaton, then returns the automaton that accepts the
    /// same input.
    ///
    /// Two states join if they accept the same, and if each symbol takes them
    /// to two states that join. The result holds one state for each group of
    /// such states. Thus the result reads the same input as this automaton,
    /// and it holds fewer states or the same number of states.
    ///
    /// `accept` gives the meaning of the accept of a state. Two states of a
    /// different meaning stay apart, thus a lexer that accepts one rule at a
    /// state keeps that rule. Give the same meaning for each state that does
    /// not accept, for example `None`.
    ///
    /// The result has one start state for each start state of this automaton,
    /// at the same start index. Two start states that join give one state, and
    /// the result keeps both start identifiers.
    ///
    /// The transitions of one state of the result are those of the first state
    /// of its group. The groups are numbered from 0, in the sequence of their
    /// first states.
    ///
    /// Where `==` on `K` is equality, two states join exactly where scans from
    /// them answer each input alike: both die, or both reach states of one
    /// acceptance and one meaning.
    pub fn minimize<K: PartialEq, F: Fn(StateId) -> K>(&self, accept: F) -> (minimization:
        Minimization<L>)
        requires
            self.well_formed(),
            forall|state: StateId|
                state@ < self.spec_state_count() ==> #[trigger] call_requires(accept, (state,)),
        ensures
            minimizes(self, &minimization),
            first_seen_numbering(state_numbers(minimization.states@)),
            obeys_concrete_eq::<K>() ==> exists|meanings: Seq<K>|
                #[trigger] meant(accept, meanings, self.spec_state_count()) && groups_exactly(
                    self,
                    &minimization,
                    meanings,
                ),
    {
        let classes = global_classes(self);
        let (mut blocks, mut count, meanings) = initial_blocks(self, &accept);
        let ghost initial = blocks@;
        proof {
            if obeys_concrete_eq::<K>() {
                assert forall|first: int, second: int|
                    0 <= first < blocks@.len() && 0 <= second < blocks@.len()
                        && #[trigger] indistinguishable(self, meanings@, first, second)
                        implies blocks@[first] == blocks@[second] by {
                    let empty = Seq::<L::Symbol>::empty();
                    assert(observe(self, meanings@, first, empty) == observe(self, meanings@, second, empty));
                    assert(meanings@[first] == meanings@[second]);
                }
            }
        }
        let states = self.state_count();
        loop
            invariant
                self.well_formed(),
                states == self.spec_state_count(),
                classifies(self, classes@),
                blocks@.len() == self.spec_state_count(),
                count <= self.spec_state_count(),
                numbered(blocks@, count as nat),
                accept_respecting(self, blocks@),
                initial.len() == blocks@.len(),
                forall|first: int, second: int|
                    0 <= first < blocks@.len() && 0 <= second < blocks@.len() && #[trigger] blocks@[first]
                        == #[trigger] blocks@[second] ==> initial[first] == initial[second],
                forall|c: int| 0 <= c < classes@.len() ==> #[trigger] inhabited(classes@[c].label),
                obeys_concrete_eq::<K>() ==> forall|first: int, second: int|
                    0 <= first < blocks@.len() && 0 <= second < blocks@.len()
                        && #[trigger] indistinguishable(self, meanings@, first, second)
                        ==> blocks@[first] == blocks@[second],
            ensures
                stable(classes@, blocks@),
                first_seen_numbering(block_numbers(blocks@)),
            decreases self.spec_state_count() - count,
        {
            let (refined, refined_count) = refine(classes.as_slice(), blocks.as_slice());
            proof {
                lemma_settled(classes@, blocks@, count as nat, refined@, refined_count as nat);
                lemma_numbered_bound(refined@, refined_count as nat);
                assert forall|first: int, second: int|
                    0 <= first < refined@.len() && 0 <= second < refined@.len() && #[trigger] refined@[first]
                        == #[trigger] refined@[second] implies (self.spec_accepts()[first] is Some
                    <==> self.spec_accepts()[second] is Some) by {
                    assert(blocks@[first] == blocks@[second]);
                }
                assert forall|first: int, second: int|
                    0 <= first < refined@.len() && 0 <= second < refined@.len() && #[trigger] refined@[first]
                        == #[trigger] refined@[second] implies initial[first] == initial[second] by {
                    assert(blocks@[first] == blocks@[second]);
                }
                if obeys_concrete_eq::<K>() {
                    assert forall|first: int, second: int|
                        0 <= first < refined@.len() && 0 <= second < refined@.len()
                            && #[trigger] indistinguishable(self, meanings@, first, second)
                            implies refined@[first] == refined@[second] by {
                        lemma_signature_alike(self, classes@, blocks@, meanings@, first, second);
                    }
                }
            }
            blocks = refined;
            if refined_count == count {
                break;
            }
            count = refined_count;
        }
        let minimization = build(self, classes.as_slice(), blocks.as_slice(), count);
        proof {
            lemma_numbered_bound(blocks@, count as nat);
            assert forall|s: int| 0 <= s < blocks@.len() implies (#[trigger] block_states(blocks@)[s])@ == blocks@[s] by {
                assert(blocks@[s] < count);
            }
            assert(state_numbers(minimization.states@) =~= block_numbers(blocks@));
            if obeys_concrete_eq::<K>() {
                lemma_numbered_bound(blocks@, count as nat);
                assert forall|first: int, second: int|
                    0 <= first < blocks@.len() && 0 <= second < blocks@.len() && #[trigger] blocks@[first]
                        == #[trigger] blocks@[second] implies (self.spec_accepts()[first] is Some
                    <==> self.spec_accepts()[second] is Some) && meanings@[first] == meanings@[second] by {
                    assert(initial[first] == initial[second]);
                }
                assert forall|first: int, second: int|
                    0 <= first < meanings@.len() && 0 <= second < meanings@.len() implies (
                    #[trigger] minimization.states@[first] == #[trigger] minimization.states@[second]
                    <==> indistinguishable(self, meanings@, first, second)) by {
                    assert(blocks@[first] < count);
                    assert(blocks@[second] < count);
                    if minimization.states@[first] == minimization.states@[second] {
                        assert(blocks@[first] == blocks@[second]);
                        assert forall|input: Seq<L::Symbol>| #[trigger] observe(self, meanings@, first, input)
                            == observe(self, meanings@, second, input) by {
                            lemma_block_alike(self, classes@, blocks@, count as nat, meanings@, first, second, input);
                        }
                    }
                    if indistinguishable(self, meanings@, first, second) {
                        assert(blocks@[first] == blocks@[second]);
                    }
                }
                assert(meant(accept, meanings@, self.spec_state_count()));
                assert(groups_exactly(self, &minimization, meanings@));
            }
        }
        minimization
    }
}

/// A scan of `dfa` is in at most one state, and that state is a state of
/// `dfa`.
pub(crate) proof fn lemma_scan_below<L: Label, A>(dfa: &Dfa<L, A>, start: int, input: Seq<L::Symbol>)
    requires
        dfa.well_formed(),
        0 <= start < dfa.spec_starts().len(),
    ensures
        scan(dfa, start, input).len() <= 1,
        forall|k: int|
            0 <= k < scan(dfa, start, input).len() ==> (#[trigger] scan(dfa, start, input)[k])@
                < dfa.spec_state_count(),
    decreases input.len(),
{
    if input.len() > 0 {
        lemma_scan_below(dfa, start, input.drop_last());
        let before = scan(dfa, start, input.drop_last());
        if before.len() == 1 {
            let groups = dfa.spec_transitions();
            let state = before[0]@ as int;
            let symbol = input.last();
            if exists|k: int| 0 <= k < groups[state].len() && #[trigger] groups[state][k].label.spec_matches(symbol) {
                let k = choose|k: int|
                    0 <= k < groups[state].len() && #[trigger] groups[state][k].label.spec_matches(symbol);
                assert(groups[state][k].target@ < dfa.spec_state_count());
            }
        }
    }
}

/// A scan of a minimization of `dfa` goes through the states that stand for
/// the states of the same scan of `dfa`, and accepts exactly where that scan
/// accepts. Thus the minimized automaton gives the same match for each input.
pub proof fn lemma_minimization_scans_like<L: Label, A>(
    dfa: &Dfa<L, A>,
    result: &Minimization<L>,
    start: int,
    input: Seq<L::Symbol>,
)
    requires
        dfa.well_formed(),
        minimizes(dfa, result),
        0 <= start < dfa.spec_starts().len(),
    ensures
        scan(&result.dfa, start, input) == scan(dfa, start, input).map_values(
            |state: StateId| result.states@[state@ as int],
        ),
        accepting(&result.dfa, scan(&result.dfa, start, input)) == accepting(
            dfa,
            scan(dfa, start, input),
        ),
    decreases input.len(),
{
    let states = result.states@;
    lemma_scan_below(dfa, start, input);
    let after = scan(dfa, start, input);
    if input.len() == 0 {
        assert(result.dfa.spec_starts()[start] == states[dfa.spec_starts()[start]@ as int]);
        assert(scan(&result.dfa, start, input) =~= after.map_values(
            |state: StateId| states[state@ as int],
        ));
    } else {
        let prefix = input.drop_last();
        let symbol = input.last();
        lemma_minimization_scans_like(dfa, result, start, prefix);
        lemma_scan_below(dfa, start, prefix);
        let before = scan(dfa, start, prefix);
        if before.len() == 1 {
            let state = before[0]@ as int;
            assert(scan(&result.dfa, start, prefix) =~= seq![states[state]]);
            assert(target_of(result.dfa.spec_transitions()[states[state]@ as int], symbol) == moved(
                target_of(dfa.spec_transitions()[state], symbol),
                states,
            ));
        } else {
            assert(scan(&result.dfa, start, prefix).len() == 0);
        }
        assert(scan(&result.dfa, start, input) =~= after.map_values(
            |state: StateId| states[state@ as int],
        ));
    }
    if after.len() == 1 {
        let state = after[0]@ as int;
        let minimal = scan(&result.dfa, start, input);
        assert(minimal =~= seq![states[state]]);
        assert(result.dfa.spec_accepts()[states[state]@ as int] is Some <==> dfa.spec_accepts()[state] is Some);
        if dfa.spec_accepts()[state] is Some {
            assert(dfa.spec_accepts()[after[0]@ as int] is Some);
            assert(result.dfa.spec_accepts()[minimal[0]@ as int] is Some);
        } else {
            if accepting(dfa, after) {
                let k = choose|k: int| 0 <= k < after.len() && (#[trigger] dfa.spec_accepts()[after[k]@ as int]) is Some;
                assert(k == 0);
            }
            if accepting(&result.dfa, minimal) {
                let k = choose|k: int|
                    0 <= k < minimal.len() && (#[trigger] result.dfa.spec_accepts()[minimal[k]@ as int]) is Some;
                assert(k == 0);
            }
        }
    } else {
        assert(scan(&result.dfa, start, input).len() == 0);
    }
}

impl<L: Label> Minimization<L> {
    /// Returns the automaton of the groups, in which each group holds the
    /// accept value of its first state.
    ///
    /// `accepts` holds the accept value of each state of the automaton
    /// before, in the sequence of those states.
    pub fn with_accepts<A>(self, accepts: Vec<Option<A>>) -> (minimal: Dfa<L, A>)
        requires
            self.dfa.well_formed(),
            accepts@.len() == self.states@.len(),
            forall|state: int|
                0 <= state < self.states@.len() ==> (#[trigger] self.states@[state])@
                    < self.dfa.spec_state_count(),
        ensures
            minimal.well_formed(),
            minimal.spec_transitions() == self.dfa.spec_transitions(),
            minimal.spec_starts() == self.dfa.spec_starts(),
            minimal.spec_accepts().len() == self.dfa.spec_state_count(),
            forall|state: int|
                0 <= state < self.states@.len() && #[trigger] leads(self.states@, state)
                    ==> minimal.spec_accepts()[self.states@[state]@ as int] == accepts@[state],
            forall|block: int|
                0 <= block < self.dfa.spec_state_count() && !represented(self.states@, block)
                    ==> (#[trigger] minimal.spec_accepts()[block]) is None,
    {
        let Minimization { dfa: shape, states } = self;
        let count = shape.state_count();
        let ghost groups = shape.spec_transitions();
        let mut builder: Builder<L, A> = Builder::with_capacity(count);
        let mut added: usize = 0;
        while added < count
            invariant
                shape.well_formed(),
                count == shape.spec_state_count(),
                added <= count,
                builder.well_formed(),
                builder.spec_state_count() == added,
                builder.spec_table().spec_capacity() == count,
                builder.spec_table().spec_error() is None,
                builder.spec_table().spec_edges().len() == 0,
                forall|b: int| 0 <= b < added ==> (#[trigger] builder.spec_table().spec_accepts()[b]) is None,
            decreases count - added,
        {
            builder.add_state();
            added = added + 1;
        }
        proof {
            assert(groups.take(0) =~= Seq::<Seq<Transition<L>>>::empty());
            assert forall|b: int| 0 <= b < count implies group_of(
                builder.spec_table().spec_edges(),
                b,
            ).len() == 0 by {
                lemma_group_empty(builder.spec_table().spec_edges(), b);
            }
        }
        let mut block: usize = 0;
        while block < count
            invariant
                shape.well_formed(),
                groups == shape.spec_transitions(),
                count == shape.spec_state_count(),
                block <= count,
                builder.well_formed(),
                builder.spec_state_count() == count,
                builder.spec_table().spec_capacity() == count,
                builder.spec_table().spec_error() is None,
                builder.spec_table().spec_edges().len() == flatten(groups.take(block as int)).len(),
                forall|b: int| 0 <= b < count ==> (#[trigger] builder.spec_table().spec_accepts()[b]) is None,
                forall|b: int|
                    0 <= b < count ==> #[trigger] group_of(builder.spec_table().spec_edges(), b) == if b
                        < block {
                        groups[b]
                    } else {
                        Seq::empty()
                    },
            decreases count - block,
        {
            let transitions = shape.transitions(StateId::new(block));
            let source = StateId::new(block);
            let ghost before = builder.spec_table().spec_edges();
            let mut k: usize = 0;
            proof {
                assert(groups[block as int].take(0) =~= group_of(before, block as int));
            }
            while k < transitions.len()
                invariant
                    shape.well_formed(),
                    groups == shape.spec_transitions(),
                    count == shape.spec_state_count(),
                    block < count,
                    source@ == block,
                    transitions@ == groups[block as int],
                    k <= transitions@.len(),
                    builder.well_formed(),
                    builder.spec_state_count() == count,
                    builder.spec_table().spec_capacity() == count,
                    builder.spec_table().spec_error() is None,
                    forall|b: int| 0 <= b < count ==> (#[trigger] builder.spec_table().spec_accepts()[b]) is None,
                    builder.spec_table().spec_edges().len() == before.len() + k,
                    group_of(builder.spec_table().spec_edges(), block as int) == groups[block as int].take(
                        k as int,
                    ),
                    forall|other: int|
                        other != block ==> #[trigger] group_of(builder.spec_table().spec_edges(), other)
                            == group_of(before, other),
                decreases transitions@.len() - k,
            {
                let transition = transitions[k];
                let ghost prior = builder.spec_table().spec_edges();
                builder.add_transition(source, transition.label, transition.target);
                proof {
                    let entry = (source, Transition { label: transition.label, target: transition.target });
                    assert(entry.1 == transition);
                    assert forall|other: int| other != block implies #[trigger] group_of(
                        builder.spec_table().spec_edges(),
                        other,
                    ) == group_of(before, other) by {
                        lemma_group_push(prior, entry, other);
                    }
                    lemma_group_push(prior, entry, block as int);
                    assert(groups[block as int].take(k + 1) =~= groups[block as int].take(k as int).push(
                        transition,
                    ));
                }
                k = k + 1;
            }
            proof {
                assert(groups[block as int].take(transitions@.len() as int) =~= groups[block as int]);
                let after = groups.take(block + 1);
                assert(after.drop_last() =~= groups.take(block as int));
                assert(after.last() == groups[block as int]);
            }
            block = block + 1;
        }
        let ghost edges = builder.spec_table().spec_edges();
        proof {
            assert(groups.take(count as int) =~= groups);
        }
        let mut values = accepts;
        let mut seen: Vec<bool> = Vec::new();
        while seen.len() < count
            invariant
                seen@.len() <= count,
                forall|b: int| 0 <= b < seen@.len() ==> !(#[trigger] seen@[b]),
            decreases count - seen@.len(),
        {
            seen.push(false);
        }
        let ghost given_values = values@;
        let mut state: usize = 0;
        while state < states.len()
            invariant
                shape.well_formed(),
                groups == shape.spec_transitions(),
                count == shape.spec_state_count(),
                values@.len() == states@.len(),
                given_values.len() == states@.len(),
                forall|s: int| 0 <= s < states@.len() ==> (#[trigger] states@[s])@ < count,
                state <= states@.len(),
                seen@.len() == count,
                builder.well_formed(),
                builder.spec_state_count() == count,
                builder.spec_table().spec_capacity() == count,
                builder.spec_table().spec_error() is None,
                builder.spec_table().spec_edges() == edges,
                edges.len() == flatten(groups).len(),
                forall|b: int| 0 <= b < count ==> #[trigger] group_of(edges, b) == groups[b],
                forall|b: int|
                    0 <= b < count ==> (#[trigger] seen@[b] <==> exists|s: int|
                        0 <= s < state && states@[s]@ == b),
                forall|s: int| state <= s < states@.len() ==> #[trigger] values@[s] == given_values[s],
                forall|s: int|
                    0 <= s < state && #[trigger] leads(states@, s)
                        ==> builder.spec_table().spec_accepts()[states@[s]@ as int] == given_values[s],
                forall|b: int|
                    0 <= b < count && !(#[trigger] seen@[b]) ==> builder.spec_table().spec_accepts()[b]
                        is None,
            decreases states@.len() - state,
        {
            let block = states[state].index();
            let ghost before_seen = seen@;
            let ghost before_accepts = builder.spec_table().spec_accepts();
            if !seen[block] {
                seen.set(block, true);
                let mut value: Option<A> = None;
                std::mem::swap(&mut value, &mut values[state]);
                match value {
                    Some(accept) => {
                        let _ = builder.set_accept(StateId::new(block), accept);
                    },
                    None => {},
                }
                proof {
                    assert forall|earlier: int| 0 <= earlier < state implies states@[earlier]
                        != states@[state as int] by {
                        if states@[earlier]@ == block {
                            assert(before_seen[block as int]);
                        }
                    }
                    assert(leads(states@, state as int));
                }
            }
            proof {
                assert forall|b: int|
                    0 <= b < count implies (#[trigger] seen@[b] <==> exists|s: int|
                    0 <= s < state + 1 && states@[s]@ == b) by {
                    if b == block {
                        assert(states@[state as int]@ == b);
                    } else if seen@[b] {
                        assert(before_seen[b]);
                    }
                }
                assert forall|s: int|
                    0 <= s < state + 1 && #[trigger] leads(states@, s) implies builder.spec_table().spec_accepts()[states@[s]@ as int]
                    == given_values[s] by {
                    if s < state {
                        if states@[s]@ == block {
                            assert(states@[s] == states@[state as int]);
                            assert(!leads(states@, state as int));
                            assert(before_seen[block as int]);
                        }
                    } else if before_seen[block as int] {
                        let t = choose|t: int| 0 <= t < state && states@[t]@ == block;
                        assert(states@[t] == states@[s]);
                    }
                }
            }
            state = state + 1;
        }
        proof {
            assert(builder.spec_table().spec_groups() =~= groups);
            assert forall|b: int|
                0 <= b < count && !represented(states@, b) implies (
                #[trigger] builder.spec_table().spec_accepts()[b]) is None by {
                if seen@[b] {
                    let s = choose|s: int| 0 <= s < states@.len() && states@[s]@ == b;
                    assert(represented(states@, b));
                }
            }
        }
        builder.build(shape.start_states()).unwrap()
    }
}

/// Whether each group of `result` holds states of one accept value in `dfa`.
pub open spec fn separates<L: Label, A>(dfa: &Dfa<L, A>, result: &Minimization<L>) -> bool {
    forall|first: int, second: int|
        0 <= first < dfa.spec_state_count() && 0 <= second < dfa.spec_state_count()
            && #[trigger] result.states@[first] == #[trigger] result.states@[second]
            ==> dfa.spec_accepts()[first] == dfa.spec_accepts()[second]
}

/// Where `==` on `A` is equality, `==` on an optional reference to an `A` is
/// equality too.
proof fn lemma_concrete_option<A: PartialEq>()
    requires
        obeys_concrete_eq::<A>(),
    ensures
        obeys_concrete_eq::<Option<&A>>(),
{
    reveal(obeys_concrete_eq);
    assert forall|x: Option<&A>, y: Option<&A>| x.eq_spec(&y) <==> (x == y) by {
        match (x, y) {
            (Some(a), Some(b)) => {
                assert(a.eq_spec(&b) <==> (*a == *b));
            },
            _ => {},
        }
    }
}

/// What a scan of `dfa` from `state` gives after `input`: `None` where it
/// dies, else the accept value of the state that it reaches.
pub open spec fn outcome<L: Label, A>(dfa: &Dfa<L, A>, state: int, input: Seq<L::Symbol>) -> Option<Option<A>> {
    match run_from(dfa, state, input) {
        Some(reached) => Some(dfa.spec_accepts()[reached]),
        None => None,
    }
}

/// Whether scans of `dfa` from `first` and from `second` give the same for
/// each input.
pub open spec fn same_outcomes<L: Label, A>(dfa: &Dfa<L, A>, first: int, second: int) -> bool {
    forall|input: Seq<L::Symbol>| #[trigger] outcome(dfa, first, input) == outcome(dfa, second, input)
}

/// Whether two states of `dfa` share a group of `result` exactly where scans
/// from them give the same for each input: no smaller automaton reads the
/// input as `dfa` does.
pub open spec fn coarsest<L: Label, A>(dfa: &Dfa<L, A>, result: &Minimization<L>) -> bool {
    forall|first: int, second: int|
        0 <= first < dfa.spec_state_count() && 0 <= second < dfa.spec_state_count() ==> (
        #[trigger] result.states@[first] == #[trigger] result.states@[second]
            <==> same_outcomes(dfa, first, second))
}

/// A scan from a state of `dfa` stays among the states of `dfa`.
proof fn lemma_run_below<L: Label, A>(dfa: &Dfa<L, A>, state: int, input: Seq<L::Symbol>)
    requires
        dfa.well_formed(),
        0 <= state < dfa.spec_state_count(),
    ensures
        run_from(dfa, state, input) matches Some(reached) ==> 0 <= reached < dfa.spec_state_count(),
    decreases input.len(),
{
    if input.len() > 0 {
        let groups = dfa.spec_transitions();
        let symbol = input[0];
        if let Some(target) = target_of(groups[state], symbol) {
            let k = choose|k: int|
                0 <= k < groups[state].len() && #[trigger] groups[state][k].label.spec_matches(symbol);
            assert(groups[state][k].target@ < dfa.spec_state_count());
            lemma_run_below(dfa, target@ as int, input.drop_first());
        }
    }
}

/// Whether `minimal` is the automaton of the groups of `result`, in which each
/// group holds the accept value of its first state in `dfa`.
pub open spec fn keeps_accepts<L: Label, A>(
    dfa: &Dfa<L, A>,
    result: &Minimization<L>,
    minimal: &Dfa<L, A>,
) -> bool {
    &&& minimal.well_formed()
    &&& minimal.spec_transitions() == result.dfa.spec_transitions()
    &&& minimal.spec_starts() == result.dfa.spec_starts()
    &&& minimal.spec_accepts().len() == result.dfa.spec_state_count()
    &&& forall|state: int|
        0 <= state < result.states@.len() && #[trigger] leads(result.states@, state)
            ==> minimal.spec_accepts()[result.states@[state]@ as int] == dfa.spec_accepts()[state]
}

impl<L: Partitionable, A: PartialEq> Dfa<L, A> {
    /// Joins the states that answer each input alike, and keeps the accept
    /// value of each state.
    ///
    /// Two states of a different accept value stay apart, thus each group of
    /// the result takes the accept value of its first state, and a scan of the
    /// result accepts what a scan of this automaton accepts.
    ///
    /// Where `==` on `A` is equality, two states join exactly where scans
    /// from them give the same for each input: both die, or both reach states
    /// of one accept value.
    fn merge_alike(self) -> (minimal: Dfa<L, A>)
        requires
            self.well_formed(),
        ensures
            exists|result: Minimization<L>|
                {
                    &&& minimizes(&self, &result)
                    &&& first_seen_numbering(state_numbers(result.states@))
                    &&& #[trigger] keeps_accepts(&self, &result, &minimal)
                    &&& obeys_concrete_eq::<A>() ==> separates(&self, &result) && coarsest(&self, &result)
                },
    {
        let ghost before = self;
        let select = |id: StateId| -> (meaning: Option<&A>)
            ensures
                meaning == (if id@ < self.spec_state_count() {
                    match self.spec_accepts()[id@ as int] {
                        Some(value) => Some(&value),
                        None => None::<&A>,
                    }
                } else {
                    None::<&A>
                }),
            {
                if id.index() < self.state_count() {
                    self.accept(id)
                } else {
                    None
                }
            };
        let ghost chosen = select;
        let minimization = self.minimize(select);
        let ghost result = minimization;
        proof {
            if obeys_concrete_eq::<A>() {
                lemma_concrete_option::<A>();
                let meanings = choose|meanings: Seq<Option<&A>>|
                    #[trigger] meant(chosen, meanings, before.spec_state_count()) && groups_exactly(
                        &before,
                        &result,
                        meanings,
                    );
                assert forall|state: int| 0 <= state < before.spec_state_count() implies #[trigger] meanings[state]
                    == match before.spec_accepts()[state] {
                    Some(value) => Some(&value),
                    None => None::<&A>,
                } by {
                    assert(call_ensures(chosen, (StateId(state as u32),), meanings[state]));
                }
                assert forall|first: int, second: int|
                    0 <= first < before.spec_state_count() && 0 <= second < before.spec_state_count() implies (
                    #[trigger] result.states@[first] == #[trigger] result.states@[second]
                        <==> same_outcomes(&before, first, second)) by {
                    assert forall|input: Seq<L::Symbol>|
                        #[trigger] observe(&before, meanings, first, input) == observe(
                            &before,
                            meanings,
                            second,
                            input,
                        ) <==> outcome(&before, first, input) == outcome(&before, second, input) by {
                        lemma_run_below(&before, first, input);
                        lemma_run_below(&before, second, input);
                    }
                    if same_outcomes(&before, first, second) {
                        assert forall|input: Seq<L::Symbol>|
                            #[trigger] observe(&before, meanings, first, input) == observe(
                                &before,
                                meanings,
                                second,
                                input,
                            ) by {
                            assert(outcome(&before, first, input) == outcome(&before, second, input));
                        }
                        assert(indistinguishable(&before, meanings, first, second));
                    }
                    if indistinguishable(&before, meanings, first, second) {
                        assert forall|input: Seq<L::Symbol>|
                            #[trigger] outcome(&before, first, input) == outcome(&before, second, input) by {
                            assert(observe(&before, meanings, first, input) == observe(
                                &before,
                                meanings,
                                second,
                                input,
                            ));
                        }
                    }
                }
                assert(coarsest(&before, &result));
                assert forall|first: int, second: int|
                    0 <= first < before.spec_state_count() && 0 <= second < before.spec_state_count()
                        && #[trigger] result.states@[first] == #[trigger] result.states@[second]
                        implies before.spec_accepts()[first] == before.spec_accepts()[second] by {
                    let empty = Seq::<L::Symbol>::empty();
                    assert(outcome(&before, first, empty) == outcome(&before, second, empty));
                }
                assert(separates(&before, &result));
            }
        }
        let accepts = self.into_accepts();
        let minimal = minimization.with_accepts(accepts);
        proof {
            assert(minimizes(&before, &result));
            assert(keeps_accepts(&before, &result, &minimal));
        }
        minimal
    }
}

/// The first state of the group of `state` leads its group.
proof fn lemma_group_leader(states: Seq<StateId>, state: int)
    requires
        0 <= state < states.len(),
    ensures
        exists|first: int| 0 <= first <= state && #[trigger] leads(states, first) && states[first] == states[state],
    decreases state,
{
    if !leads(states, state) {
        let earlier = choose|earlier: int| 0 <= earlier < state && states[earlier] == states[state];
        lemma_group_leader(states, earlier);
        let first = choose|first: int| 0 <= first <= earlier && #[trigger] leads(states, first) && states[first] == states[earlier];
        assert(leads(states, first));
    } else {
        assert(leads(states, state));
    }
}

/// A scan of the merged automaton from the group of a state gives the accept
/// value that a scan of `dfa` from that state gives after each input.
proof fn lemma_merged_scans_like<L: Label, A>(
    dfa: &Dfa<L, A>,
    result: &Minimization<L>,
    minimal: &Dfa<L, A>,
    state: int,
    input: Seq<L::Symbol>,
)
    requires
        dfa.well_formed(),
        minimizes(dfa, result),
        keeps_accepts(dfa, result, minimal),
        separates(dfa, result),
        0 <= state < dfa.spec_state_count(),
    ensures
        accept_after(minimal, result.states@[state]@ as int, input) == accept_after(dfa, state, input),
    decreases input.len(),
{
    let states = result.states@;
    if input.len() == 0 {
        lemma_group_leader(states, state);
        let first = choose|first: int| 0 <= first <= state && #[trigger] leads(states, first) && states[first] == states[state];
        assert(minimal.spec_accepts()[states[first]@ as int] == dfa.spec_accepts()[first]);
    } else {
        let symbol = input[0];
        let rest = input.drop_first();
        assert(input =~= seq![symbol] + rest);
        lemma_run_first(dfa, state, symbol, rest);
        lemma_run_first(minimal, states[state]@ as int, symbol, rest);
        assert(target_of(minimal.spec_transitions()[states[state]@ as int], symbol) == moved(
            target_of(dfa.spec_transitions()[state], symbol),
            states,
        ));
        if let Some(target) = target_of(dfa.spec_transitions()[state], symbol) {
            let group = dfa.spec_transitions()[state];
            let k = choose|k: int| 0 <= k < group.len() && #[trigger] group[k].label.spec_matches(symbol);
            assert(group[k].target@ < dfa.spec_state_count());
            lemma_merged_scans_like(dfa, result, minimal, target@ as int, rest);
        }
    }
}

/// A state that has no transition and no accept gives no accept value.
proof fn lemma_silent<L: Label, A>(dfa: &Dfa<L, A>, state: int, input: Seq<L::Symbol>)
    requires
        0 <= state < dfa.spec_transitions().len(),
        dfa.spec_transitions()[state].len() == 0,
        dfa.spec_accepts()[state] is None,
    ensures
        accept_after(dfa, state, input) is None,
{
    if input.len() > 0 {
        let symbol = input[0];
        let rest = input.drop_first();
        assert(input =~= seq![symbol] + rest);
        lemma_run_first(dfa, state, symbol, rest);
    }
}

/// Whether some input gives different accept values in scans of `dfa` from
/// `first` and from `second`.
pub open spec fn distinguishable<L: Label, A>(dfa: &Dfa<L, A>, first: int, second: int) -> bool {
    exists|input: Seq<L::Symbol>| #[trigger] accept_after(dfa, first, input) != accept_after(dfa, second, input)
}

/// Whether `minimal` is `dfa` trimmed to the states from which some input
/// leads to an accept, with one state with no transition and no accept where
/// a start is not one of them, and then with the states of the trimmed
/// automaton joined into groups: each group takes the transitions of its
/// first state and the accept value of its states, the groups are numbered
/// from 0 in the sequence of their first states, and, where `==` on `A` is
/// equality, two states share a group exactly where they answer each input
/// alike.
pub open spec fn minimized_from<L: Label, A: PartialEq>(dfa: &Dfa<L, A>, minimal: &Dfa<L, A>) -> bool {
    exists|marks: Seq<bool>, numbers: Seq<usize>, kept: nat, trimmed: Dfa<L, A>, result: Minimization<L>|
        #![trigger trims(dfa, marks, numbers, kept, &trimmed), keeps_accepts(&trimmed, &result, minimal)]
        {
            &&& trims(dfa, marks, numbers, kept, &trimmed)
            &&& forall|s: int| 0 <= s < dfa.spec_state_count() ==> (#[trigger] marks[s] <==> live(dfa, s))
            &&& minimizes(&trimmed, &result)
            &&& first_seen_numbering(state_numbers(result.states@))
            &&& keeps_accepts(&trimmed, &result, minimal)
            &&& obeys_concrete_eq::<A>() ==> separates(&trimmed, &result) && coarsest(&trimmed, &result)
        }
}

impl<L: Partitionable, A: PartialEq> Dfa<L, A> {
    /// Minimizes the automaton, and keeps the accept value of each state.
    ///
    /// A state from which no input leads to an accept answers as a scan that
    /// dies: such states join the dead state, and leave the result, but for
    /// one state that stands for them where a start state is one of them.
    /// Two states of a different accept value stay apart, thus each state of
    /// the result takes the accept value of the states that it stands for.
    ///
    /// Where `==` on `A` is equality, a scan of the result from each start
    /// gives the accept value that a scan of this automaton gives from that
    /// start after each input, `None` where the scan dies or reaches a state
    /// without accept. No two states of the result give the same accept value
    /// after each input: the result holds the fewest states.
    ///
    /// Each state of the result is one group of the states that lead to an
    /// accept, or the one state for the starts that lead to none, as
    /// [`minimized_from`] says; the result holds no other state.
    pub fn minimized(self) -> (minimal: Dfa<L, A>)
        requires
            self.well_formed(),
        ensures
            minimal.well_formed(),
            minimal.spec_starts().len() == self.spec_starts().len(),
            minimal.spec_state_count() <= self.spec_state_count(),
            obeys_concrete_eq::<A>() ==> forall|k: int, input: Seq<L::Symbol>|
                0 <= k < self.spec_starts().len() ==> #[trigger] accept_after(
                    &minimal,
                    minimal.spec_starts()[k]@ as int,
                    input,
                ) == accept_after(&self, self.spec_starts()[k]@ as int, input),
            obeys_concrete_eq::<A>() ==> forall|x: int, y: int|
                0 <= x < y < minimal.spec_state_count() ==> #[trigger] distinguishable(&minimal, x, y),
            minimized_from(&self, &minimal),
    {
        let ghost before = self;
        let classes = global_classes(&self);
        let marks = live_states(&self, classes.as_slice());
        let (trimmed, numbers, kept) = trim(self, marks.as_slice());
        let ghost middle = trimmed;
        let minimal = trimmed.merge_alike();
        proof {
            let result = choose|result: Minimization<L>|
                {
                    &&& minimizes(&middle, &result)
                    &&& first_seen_numbering(state_numbers(result.states@))
                    &&& #[trigger] keeps_accepts(&middle, &result, &minimal)
                    &&& obeys_concrete_eq::<A>() ==> separates(&middle, &result) && coarsest(&middle, &result)
                };
            let states = result.states@;
            assert(minimal.spec_state_count() == result.dfa.spec_state_count());
            assert(trims(&before, marks@, numbers@, kept@, &middle));
            assert(minimized_from(&before, &minimal));
            if obeys_concrete_eq::<A>() {
                assert forall|k: int, input: Seq<L::Symbol>|
                    0 <= k < before.spec_starts().len() implies #[trigger] accept_after(
                    &minimal,
                    minimal.spec_starts()[k]@ as int,
                    input,
                ) == accept_after(&before, before.spec_starts()[k]@ as int, input) by {
                    let start = before.spec_starts()[k]@ as int;
                    let inner = middle.spec_starts()[k]@ as int;
                    assert(minimal.spec_starts()[k] == states[inner]);
                    lemma_merged_scans_like(&middle, &result, &minimal, inner, input);
                    if marks@[start] {
                        lemma_trim_scans_like(&before, marks@, numbers@, kept@, &middle, start, input);
                    } else {
                        lemma_silent(&middle, inner, input);
                        assert(!live(&before, start));
                    }
                }
                assert forall|x: int, y: int|
                    0 <= x < y < minimal.spec_state_count() implies #[trigger] distinguishable(&minimal, x, y) by {
                    assert(represented(states, x));
                    assert(represented(states, y));
                    let r = choose|r: int| 0 <= r < states.len() && states[r]@ == x;
                    let s = choose|s: int| 0 <= s < states.len() && states[s]@ == y;
                    assert(!same_outcomes(&middle, r, s));
                    let input = choose|input: Seq<L::Symbol>| #[trigger] outcome(&middle, r, input) != outcome(&middle, s, input);
                    let apart = distinguishing(&before, marks@, numbers@, kept@, &middle, r, s, input);
                    lemma_merged_scans_like(&middle, &result, &minimal, r, apart);
                    lemma_merged_scans_like(&middle, &result, &minimal, s, apart);
                    assert(accept_after(&minimal, x, apart) != accept_after(&minimal, y, apart));
                }
            }
        }
        minimal
    }
}

/// Two states of the trimmed automaton whose scans differ after `input`
/// give different accept values after some input.
proof fn distinguishing<L: Label, A>(
    dfa: &Dfa<L, A>,
    marks: Seq<bool>,
    numbers: Seq<usize>,
    kept: nat,
    trimmed: &Dfa<L, A>,
    first: int,
    second: int,
    input: Seq<L::Symbol>,
) -> (apart: Seq<L::Symbol>)
    requires
        dfa.well_formed(),
        trims(dfa, marks, numbers, kept, trimmed),
        forall|s: int| 0 <= s < dfa.spec_state_count() ==> (#[trigger] marks[s] <==> live(dfa, s)),
        0 <= first < trimmed.spec_state_count(),
        0 <= second < trimmed.spec_state_count(),
        outcome(trimmed, first, input) != outcome(trimmed, second, input),
    ensures
        accept_after(trimmed, first, apart) != accept_after(trimmed, second, apart),
{
    let one = run_from(trimmed, first, input);
    let two = run_from(trimmed, second, input);
    if one is Some && two is Some {
        input
    } else if one is Some {
        let reached = one->Some_0;
        if trimmed.spec_accepts()[reached] is Some {
            input
        } else {
            assert(input.len() > 0);
            lemma_trim_below(dfa, marks, numbers, kept, trimmed, first, input);
            lemma_trim_live(dfa, marks, numbers, kept, trimmed, reached);
            let more = choose|more: Seq<L::Symbol>| (#[trigger] accept_after(trimmed, reached, more)) is Some;
            lemma_run_concat(trimmed, first, input, more);
            lemma_run_concat(trimmed, second, input, more);
            input + more
        }
    } else {
        let reached = two->Some_0;
        if trimmed.spec_accepts()[reached] is Some {
            input
        } else {
            assert(input.len() > 0);
            lemma_trim_below(dfa, marks, numbers, kept, trimmed, second, input);
            lemma_trim_live(dfa, marks, numbers, kept, trimmed, reached);
            let more = choose|more: Seq<L::Symbol>| (#[trigger] accept_after(trimmed, reached, more)) is Some;
            lemma_run_concat(trimmed, first, input, more);
            lemma_run_concat(trimmed, second, input, more);
            input + more
        }
    }
}

} // verus!
