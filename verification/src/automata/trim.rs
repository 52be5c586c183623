//! Finds the states of a deterministic automaton from which a scan can still
//! accept, and removes the others.
//!
//! A scan that reaches a state from which no input leads to an accept gives
//! no match from then on, exactly as a scan that dies. The removal makes the
//! two the same.
use vstd::prelude::*;

use super::adjacency::{flatten, group_of, lemma_group_empty, lemma_group_push};
use super::automaton::Transition;
use super::dfa::automaton::{Dfa, deterministic, target_of};
use super::dfa::builder::Builder;
use super::table::{TRANSITION_CAPACITY, STATE_IDENTIFIERS, spec_state_capacity};
use super::id::StateId;
use super::label::{Label, inhabited};
use super::minimize::{GlobalClass, classifies, run_from};

verus! {

/// The accept value of the state that a scan of `dfa` from `state` reaches
/// after `input`, or `None` where the scan dies or the state does not accept.
pub open spec fn accept_after<L: Label, A>(dfa: &Dfa<L, A>, state: int, input: Seq<L::Symbol>) -> Option<A> {
    match run_from(dfa, state, input) {
        Some(reached) => dfa.spec_accepts()[reached],
        None => None,
    }
}

/// Whether some input takes a scan of `dfa` from `state` to an accept.
pub open spec fn live<L: Label, A>(dfa: &Dfa<L, A>, state: int) -> bool {
    exists|input: Seq<L::Symbol>| (#[trigger] accept_after(dfa, state, input)) is Some
}

/// The number of the marks that `marks` sets among its first `count`.
pub open spec fn set_count(marks: Seq<bool>, count: int) -> int
    decreases count,
{
    if count <= 0 {
        0
    } else {
        set_count(marks, count - 1) + if marks[count - 1] {
            1int
        } else {
            0int
        }
    }
}

/// Setting one unset mark counts one more, and the count stays below the
/// number of the marks.
proof fn lemma_set_count(marks: Seq<bool>, index: int, count: int)
    requires
        0 <= index < marks.len(),
        0 <= count <= marks.len(),
        !marks[index],
    ensures
        set_count(marks.update(index, true), count) == set_count(marks, count) + if index < count {
            1int
        } else {
            0int
        },
        set_count(marks, count) <= count,
    decreases count,
{
    if count > 0 {
        lemma_set_count(marks, index, count - 1);
    }
}

/// Whether class `c` takes `state` to a state that `marks` sets.
pub open spec fn goes_marked<L>(classes: Seq<GlobalClass<L>>, marks: Seq<bool>, c: int, state: int) -> bool {
    match classes[c].target_by_source@[state] {
        Some(target) => marks[target@ as int],
        None => false,
    }
}

/// Reading one symbol, then the rest, reads the input.
pub proof fn lemma_run_first<L: Label, A>(dfa: &Dfa<L, A>, state: int, symbol: L::Symbol, input: Seq<L::Symbol>)
    ensures
        run_from(dfa, state, seq![symbol] + input) == match target_of(dfa.spec_transitions()[state], symbol) {
            Some(target) => run_from(dfa, target@ as int, input),
            None => None,
        },
{
    let longer = seq![symbol] + input;
    assert(longer[0] == symbol);
    assert(longer.drop_first() =~= input);
}

/// A state that goes with a symbol to a live state is live.
proof fn lemma_live_back<L: Label, A>(dfa: &Dfa<L, A>, state: int, symbol: L::Symbol, target: StateId)
    requires
        target_of(dfa.spec_transitions()[state], symbol) == Some(target),
        live(dfa, target@ as int),
    ensures
        live(dfa, state),
{
    let input = choose|input: Seq<L::Symbol>| (#[trigger] accept_after(dfa, target@ as int, input)) is Some;
    lemma_run_first(dfa, state, symbol, input);
    assert(accept_after(dfa, state, seq![symbol] + input) is Some);
}

/// Where each accepting state is marked, and each state that goes with a
/// class to a marked state is marked, each live state is marked.
proof fn lemma_closed_marks<L: Label, A>(
    dfa: &Dfa<L, A>,
    classes: Seq<GlobalClass<L>>,
    marks: Seq<bool>,
    state: int,
    input: Seq<L::Symbol>,
)
    requires
        dfa.well_formed(),
        classifies(dfa, classes),
        marks.len() == dfa.spec_state_count(),
        0 <= state < dfa.spec_state_count(),
        forall|s: int| 0 <= s < marks.len() && dfa.spec_accepts()[s] is Some ==> #[trigger] marks[s],
        forall|c: int, s: int|
            0 <= c < classes.len() && 0 <= s < marks.len() && #[trigger] goes_marked(classes, marks, c, s) ==> marks[s],
        accept_after(dfa, state, input) is Some,
    ensures
        marks[state],
    decreases input.len(),
{
    if input.len() > 0 {
        let symbol = input[0];
        let rest = input.drop_first();
        assert(input =~= seq![symbol] + rest);
        lemma_run_first(dfa, state, symbol, rest);
        let target = target_of(dfa.spec_transitions()[state], symbol)->Some_0;
        let groups = dfa.spec_transitions();
        let k = choose|k: int| 0 <= k < groups[state].len() && #[trigger] groups[state][k].label.spec_matches(symbol);
        assert(groups[state][k].target@ < dfa.spec_state_count());
        lemma_closed_marks(dfa, classes, marks, target@ as int, rest);
        let c = choose|c: int| 0 <= c < classes.len() && #[trigger] classes[c].label.spec_matches(symbol);
        assert(classes[c].target_by_source@[state] == target_of(groups[state], symbol));
        assert(goes_marked(classes, marks, c, state));
    }
}

/// Returns, for each state of `dfa`, whether it is live: whether some input
/// takes a scan from it to an accept.
pub fn live_states<L: Label, A>(dfa: &Dfa<L, A>, classes: &[GlobalClass<L>]) -> (marks: Vec<bool>)
    requires
        dfa.well_formed(),
        classifies(dfa, classes@),
        forall|c: int| 0 <= c < classes@.len() ==> #[trigger] inhabited(classes@[c].label),
    ensures
        marks@.len() == dfa.spec_state_count(),
        forall|state: int| 0 <= state < marks@.len() ==> (#[trigger] marks@[state] <==> live(dfa, state)),
{
    let n = dfa.state_count();
    let mut marks: Vec<bool> = Vec::new();
    let mut marked: usize = 0;
    let mut s: usize = 0;
    while s < n
        invariant
            dfa.well_formed(),
            n == dfa.spec_state_count(),
            s <= n,
            marks@.len() == s,
            marked == set_count(marks@, s as int),
            forall|t: int| 0 <= t < s ==> (#[trigger] marks@[t] <==> dfa.spec_accepts()[t] is Some),
        decreases n - s,
    {
        let accepting = dfa.accepts(StateId::new(s));
        let ghost before = marks@;
        marks.push(accepting);
        proof {
            assert(marks@.drop_last() =~= before);
            assert forall|i: int| 0 <= i < s implies marks@[i] == before[i] by {}
            lemma_count_prefix(before, marks@, s as int);
            lemma_set_count_bound(before, s as int);
        }
        if accepting {
            marked = marked + 1;
        }
        s = s + 1;
    }
    proof {
        assert forall|t: int| 0 <= t < n && #[trigger] marks@[t] implies live(dfa, t) by {
            assert(accept_after(dfa, t, Seq::<L::Symbol>::empty()) is Some);
        }
        lemma_set_count_bound(marks@, n as int);
    }
    let mut changed = true;
    while changed
        invariant
            dfa.well_formed(),
            classifies(dfa, classes@),
            forall|c: int| 0 <= c < classes@.len() ==> #[trigger] inhabited(classes@[c].label),
            n == dfa.spec_state_count(),
            marks@.len() == n,
            marked == set_count(marks@, n as int),
            marked <= n,
            forall|t: int| 0 <= t < n && dfa.spec_accepts()[t] is Some ==> #[trigger] marks@[t],
            forall|t: int| 0 <= t < n && #[trigger] marks@[t] ==> live(dfa, t),
            !changed ==> forall|c: int, t: int|
                0 <= c < classes@.len() && 0 <= t < n && #[trigger] goes_marked(classes@, marks@, c, t) ==> marks@[t],
        decreases n - marked, if changed { 1int } else { 0int },
    {
        changed = false;
        let ghost start_marked = marked;
        let mut t: usize = 0;
        while t < n
            invariant
                dfa.well_formed(),
                classifies(dfa, classes@),
                forall|c: int| 0 <= c < classes@.len() ==> #[trigger] inhabited(classes@[c].label),
                n == dfa.spec_state_count(),
                marks@.len() == n,
                t <= n,
                marked == set_count(marks@, n as int),
                marked <= n,
                start_marked <= marked,
                changed ==> start_marked < marked,
                forall|u: int| 0 <= u < n && dfa.spec_accepts()[u] is Some ==> #[trigger] marks@[u],
                forall|u: int| 0 <= u < n && #[trigger] marks@[u] ==> live(dfa, u),
                !changed ==> forall|c: int, u: int|
                    0 <= c < classes@.len() && 0 <= u < t && #[trigger] goes_marked(classes@, marks@, c, u) ==> marks@[u],
            decreases n - t,
        {
            if !marks[t] {
                let mut c: usize = 0;
                let mut found = false;
                while c < classes.len() && !found
                    invariant
                        dfa.well_formed(),
                        classifies(dfa, classes@),
                        forall|d: int| 0 <= d < classes@.len() ==> #[trigger] inhabited(classes@[d].label),
                        n == dfa.spec_state_count(),
                        marks@.len() == n,
                        t < n,
                        c <= classes@.len(),
                        found ==> live(dfa, t as int),
                        !found ==> forall|d: int| 0 <= d < c ==> !#[trigger] goes_marked(classes@, marks@, d, t as int),
                        forall|u: int| 0 <= u < n && #[trigger] marks@[u] ==> live(dfa, u),
                    decreases classes@.len() - c, if found { 0int } else { 1int },
                {
                    match classes[c].target_by_source[t] {
                        Some(target) => {
                            if marks[target.index()] {
                                proof {
                                    assert(inhabited(classes@[c as int].label));
                                    let symbol = choose|symbol: L::Symbol| #[trigger] classes@[c as int].label.spec_matches(symbol);
                                    assert(classes@[c as int].target_by_source@[t as int] == target_of(
                                        dfa.spec_transitions()[t as int],
                                        symbol,
                                    ));
                                    lemma_live_back(dfa, t as int, symbol, target);
                                }
                                found = true;
                            }
                        },
                        None => {},
                    }
                    if !found {
                        c = c + 1;
                    }
                }
                if found {
                    let ghost before = marks@;
                    marks.set(t, true);
                    proof {
                        lemma_set_count(before, t as int, n as int);
                        lemma_set_count_bound(marks@, n as int);
                    }
                    marked = marked + 1;
                    changed = true;
                }
            }
            t = t + 1;
        }
    }
    proof {
        assert forall|state: int| 0 <= state < marks@.len() implies (#[trigger] marks@[state] <==> live(dfa, state)) by {
            if live(dfa, state) {
                let input = choose|input: Seq<L::Symbol>| (#[trigger] accept_after(dfa, state, input)) is Some;
                lemma_closed_marks(dfa, classes@, marks@, state, input);
            }
        }
    }
    marks
}

/// The count of a prefix depends on that prefix alone.
proof fn lemma_count_prefix(short: Seq<bool>, long: Seq<bool>, count: int)
    requires
        0 <= count <= short.len(),
        count <= long.len(),
        forall|i: int| 0 <= i < count ==> short[i] == long[i],
    ensures
        set_count(short, count) == set_count(long, count),
    decreases count,
{
    if count > 0 {
        lemma_count_prefix(short, long, count - 1);
    }
}

/// No more marks are set than there are marks.
proof fn lemma_set_count_bound(marks: Seq<bool>, count: int)
    requires
        0 <= count <= marks.len(),
    ensures
        0 <= set_count(marks, count) <= count,
    decreases count,
{
    if count > 0 {
        lemma_set_count_bound(marks, count - 1);
    }
}

/// The transitions of `group` whose targets `marks` sets, each going to the
/// number that `numbers` gives its target, in their sequence.
pub open spec fn kept_transitions<L>(group: Seq<Transition<L>>, marks: Seq<bool>, numbers: Seq<usize>) -> Seq<
    Transition<L>,
>
    decreases group.len(),
{
    if group.len() == 0 {
        Seq::empty()
    } else {
        let prior = kept_transitions(group.drop_last(), marks, numbers);
        let last = group.last();
        if marks[last.target@ as int] {
            prior.push(Transition { label: last.label, target: StateId(numbers[last.target@ as int] as u32) })
        } else {
            prior
        }
    }
}

/// Whether no two transitions of `group` match one symbol.
pub open spec fn disjoint_labels<L: Label>(group: Seq<Transition<L>>) -> bool {
    forall|first: int, second: int, symbol: L::Symbol|
        #![trigger group[first].label.spec_matches(symbol), group[second].label.spec_matches(symbol)]
        0 <= first < second < group.len() && group[first].label.spec_matches(symbol)
            ==> !group[second].label.spec_matches(symbol)
}

/// A kept transition matches a symbol exactly where a transition of `group`
/// to a marked state matches it, and then goes to the number of that state.
proof fn lemma_kept_match<L: Label>(group: Seq<Transition<L>>, marks: Seq<bool>, numbers: Seq<usize>, symbol: L::Symbol)
    ensures
        (exists|k: int|
            0 <= k < kept_transitions(group, marks, numbers).len() && #[trigger] kept_transitions(
                group,
                marks,
                numbers,
            )[k].label.spec_matches(symbol)) <==> (exists|j: int|
            0 <= j < group.len() && #[trigger] group[j].label.spec_matches(symbol) && marks[group[j].target@ as int]),
        forall|k: int|
            0 <= k < kept_transitions(group, marks, numbers).len() && #[trigger] kept_transitions(
                group,
                marks,
                numbers,
            )[k].label.spec_matches(symbol) ==> exists|j: int|
                0 <= j < group.len() && #[trigger] group[j].label.spec_matches(symbol) && marks[group[j].target@ as int]
                    && kept_transitions(group, marks, numbers)[k].target == StateId(
                    numbers[group[j].target@ as int] as u32,
                ),
        kept_transitions(group, marks, numbers).len() <= group.len(),
    decreases group.len(),
{
    if group.len() > 0 {
        let prior = group.drop_last();
        lemma_kept_match(prior, marks, numbers, symbol);
        let kept = kept_transitions(group, marks, numbers);
        let old_kept = kept_transitions(prior, marks, numbers);
        let last = group.len() - 1;
        assert forall|j: int| 0 <= j < prior.len() implies prior[j] == group[j] by {}
        assert forall|k: int| 0 <= k < old_kept.len() implies kept[k] == old_kept[k] by {}
        if exists|j: int| 0 <= j < group.len() && #[trigger] group[j].label.spec_matches(symbol) && marks[group[j].target@ as int] {
            let j = choose|j: int| 0 <= j < group.len() && #[trigger] group[j].label.spec_matches(symbol) && marks[group[j].target@ as int];
            if j < last {
                assert(prior[j].label.spec_matches(symbol));
                let k = choose|k: int| 0 <= k < old_kept.len() && #[trigger] old_kept[k].label.spec_matches(symbol);
                assert(kept[k].label.spec_matches(symbol));
            } else {
                assert(kept[old_kept.len() as int].label.spec_matches(symbol));
            }
        }
        assert forall|k: int|
            0 <= k < kept.len() && #[trigger] kept[k].label.spec_matches(symbol) implies exists|j: int|
            0 <= j < group.len() && #[trigger] group[j].label.spec_matches(symbol) && marks[group[j].target@ as int]
                && kept[k].target == StateId(numbers[group[j].target@ as int] as u32) by {
            if k < old_kept.len() {
                assert(old_kept[k].label.spec_matches(symbol));
                let j = choose|j: int|
                    0 <= j < prior.len() && #[trigger] prior[j].label.spec_matches(symbol) && marks[prior[j].target@ as int]
                        && old_kept[k].target == StateId(numbers[prior[j].target@ as int] as u32);
                assert(group[j] == prior[j]);
            } else {
                assert(group[last].label.spec_matches(symbol));
            }
        }
    }
}

/// Keeping some transitions of a group whose labels are disjoint keeps them
/// disjoint.
proof fn lemma_kept_disjoint<L: Label>(group: Seq<Transition<L>>, marks: Seq<bool>, numbers: Seq<usize>)
    requires
        disjoint_labels(group),
    ensures
        disjoint_labels(kept_transitions(group, marks, numbers)),
    decreases group.len(),
{
    if group.len() > 0 {
        let prior = group.drop_last();
        assert(disjoint_labels(prior)) by {
            assert forall|first: int, second: int, symbol: L::Symbol|
                0 <= first < second < prior.len() && #[trigger] prior[first].label.spec_matches(symbol) implies !#[trigger] prior[second].label.spec_matches(symbol) by {
                assert(prior[first] == group[first]);
                assert(prior[second] == group[second]);
            }
        }
        lemma_kept_disjoint(prior, marks, numbers);
        let kept = kept_transitions(group, marks, numbers);
        let old_kept = kept_transitions(prior, marks, numbers);
        let last = group.len() - 1;
        assert forall|first: int, second: int, symbol: L::Symbol|
            0 <= first < second < kept.len() && #[trigger] kept[first].label.spec_matches(symbol) implies !#[trigger] kept[second].label.spec_matches(symbol) by {
            assert(kept[first] == old_kept[first]);
            if second < old_kept.len() {
                assert(kept[second] == old_kept[second]);
            } else if kept[second].label.spec_matches(symbol) {
                lemma_kept_match(prior, marks, numbers, symbol);
                assert(old_kept[first].label.spec_matches(symbol));
                let j = choose|j: int|
                    0 <= j < prior.len() && #[trigger] prior[j].label.spec_matches(symbol) && marks[prior[j].target@ as int]
                        && old_kept[first].target == StateId(numbers[prior[j].target@ as int] as u32);
                assert(group[j] == prior[j]);
                assert(group[last].label.spec_matches(symbol));
            }
        }
    }
}

/// Each kept transition goes to a number below `bound` where each marked
/// state has such a number.
proof fn lemma_kept_targets<L>(group: Seq<Transition<L>>, marks: Seq<bool>, numbers: Seq<usize>, count: int, bound: int)
    requires
        forall|j: int| 0 <= j < group.len() ==> 0 <= (#[trigger] group[j]).target@ < count,
        marks.len() == count,
        numbers.len() == count,
        forall|t: int| 0 <= t < count && #[trigger] marks[t] ==> numbers[t] < bound,
        bound <= u32::MAX + 1,
    ensures
        forall|k: int|
            0 <= k < kept_transitions(group, marks, numbers).len() ==> (#[trigger] kept_transitions(
                group,
                marks,
                numbers,
            )[k]).target@ < bound,
    decreases group.len(),
{
    if group.len() > 0 {
        let prior = group.drop_last();
        assert forall|j: int| 0 <= j < prior.len() implies 0 <= (#[trigger] prior[j]).target@ < count by {
            assert(prior[j] == group[j]);
        }
        lemma_kept_targets(prior, marks, numbers, count, bound);
        let last = group[group.len() - 1];
        assert(group.last() == last);
        let kept = kept_transitions(group, marks, numbers);
        let old_kept = kept_transitions(prior, marks, numbers);
        assert forall|k: int| 0 <= k < kept.len() implies (#[trigger] kept[k]).target@ < bound by {
            if k < old_kept.len() {
                assert(kept[k] == old_kept[k]);
            } else {
                let t = last.target@ as int;
                assert(marks[t]);
                assert(numbers[t] < bound);
                assert(kept[k].target == StateId(numbers[t] as u32));
            }
        }
    }
}

/// The transitions of the first `count` groups, and of one more group.
proof fn lemma_flatten_take<T>(groups: Seq<Seq<T>>, count: int)
    requires
        0 <= count < groups.len(),
    ensures
        flatten(groups.take(count + 1)).len() == flatten(groups.take(count)).len() + groups[count].len(),
{
    assert(groups.take(count + 1).drop_last() =~= groups.take(count));
}

/// A prefix of groups holds no more transitions than the groups.
proof fn lemma_flatten_prefix<T>(groups: Seq<Seq<T>>, count: int)
    requires
        0 <= count <= groups.len(),
    ensures
        flatten(groups.take(count)).len() <= flatten(groups).len(),
    decreases groups.len() - count,
{
    if count < groups.len() {
        lemma_flatten_take(groups, count);
        lemma_flatten_prefix(groups, count + 1);
    } else {
        assert(groups.take(count) =~= groups);
    }
}

/// Whether a state below `count` that `marks` sets has the number `x`.
pub open spec fn numbered(marks: Seq<bool>, numbers: Seq<usize>, count: int, x: int) -> bool {
    exists|s: int| 0 <= s < count && marks[s] && #[trigger] numbers[s] == x
}

/// Whether `numbers` numbers the states below `count` that `marks` sets
/// from 0 up to `kept`, in their sequence, and gives each other state the
/// number of the next set state.
pub open spec fn numbering(marks: Seq<bool>, numbers: Seq<usize>, count: int, kept: int) -> bool {
    &&& numbers.len() == count
    &&& marks.len() == count
    &&& 0 <= kept <= count
    &&& forall|t: int| 0 <= t < count ==> #[trigger] numbers[t] <= kept
    &&& forall|t: int| 0 <= t < count && #[trigger] marks[t] ==> numbers[t] < kept
    &&& forall|t1: int, t2: int| 0 <= t1 < t2 < count && #[trigger] marks[t1] ==> numbers[t1] < #[trigger] numbers[t2]
    &&& forall|t1: int, t2: int| 0 <= t1 < t2 < count ==> #[trigger] numbers[t1] <= #[trigger] numbers[t2]
    &&& forall|x: int| 0 <= x < kept ==> #[trigger] numbered(marks, numbers, count, x)
    &&& count > 0 ==> numbers[0] == 0
}

/// Whether `trimmed` is `dfa` without its states that `marks` does not set:
/// the state `numbers[s]` of `trimmed` stands for each set state `s`, with
/// its transitions to set states and its accept, and the states from `kept`
/// on, one at most, have no transition and no accept. A start that is not
/// set goes to that last state.
pub open spec fn trims<L: Label, A>(
    dfa: &Dfa<L, A>,
    marks: Seq<bool>,
    numbers: Seq<usize>,
    kept: nat,
    trimmed: &Dfa<L, A>,
) -> bool {
    let n = dfa.spec_state_count();
    &&& trimmed.well_formed()
    &&& numbers.len() == n
    &&& marks.len() == n
    &&& kept <= trimmed.spec_state_count() <= kept + 1
    &&& trimmed.spec_state_count() <= n
    &&& numbering(marks, numbers, n as int, kept as int)
    &&& (trimmed.spec_state_count() == kept + 1 <==> exists|k: int|
        0 <= k < dfa.spec_starts().len() && !marks[(#[trigger] dfa.spec_starts()[k])@ as int])
    &&& forall|s: int|
        0 <= s < n && #[trigger] marks[s] ==> {
            &&& numbers[s] < kept
            &&& trimmed.spec_transitions()[numbers[s] as int] == kept_transitions(
                dfa.spec_transitions()[s],
                marks,
                numbers,
            )
            &&& trimmed.spec_accepts()[numbers[s] as int] == dfa.spec_accepts()[s]
        }
    &&& forall|s: int, t: int|
        0 <= s < n && 0 <= t < n && marks[s] && marks[t] && #[trigger] numbers[s] == #[trigger] numbers[t]
            ==> s == t
    &&& forall|x: int| 0 <= x < kept ==> #[trigger] numbered(marks, numbers, n as int, x)
    &&& forall|x: int|
        kept <= x < trimmed.spec_state_count() ==> (#[trigger] trimmed.spec_transitions()[x]).len() == 0
            && trimmed.spec_accepts()[x] is None
    &&& trimmed.spec_starts().len() == dfa.spec_starts().len()
    &&& forall|k: int|
        0 <= k < dfa.spec_starts().len() ==> (#[trigger] trimmed.spec_starts()[k])@ == if marks[dfa.spec_starts()[k]@ as int] {
            numbers[dfa.spec_starts()[k]@ as int] as int
        } else {
            kept as int
        }
}

/// Returns `dfa` without its states that `marks` does not set, with one
/// state that has no transition for the starts that it does not set.
pub fn trim<L: Label, A>(dfa: Dfa<L, A>, marks: &[bool]) -> (result: (Dfa<L, A>, Ghost<Seq<usize>>, Ghost<nat>))
    requires
        dfa.well_formed(),
        marks@.len() == dfa.spec_state_count(),
    ensures
        trims(&dfa, marks@, result.1@, result.2@, &result.0),
{
    let ghost input = dfa;
    let ghost groups = dfa.spec_transitions();
    let n = dfa.state_count();
    let mut numbers: Vec<usize> = Vec::new();
    let mut kept: usize = 0;
    let mut s: usize = 0;
    while s < n
        invariant
            n == dfa.spec_state_count(),
            n <= STATE_IDENTIFIERS,
            marks@.len() == n,
            s <= n,
            numbers@.len() == s,
            kept <= s,
            forall|t: int| 0 <= t < s ==> #[trigger] numbers@[t] <= kept,
            forall|t: int| 0 <= t < s && #[trigger] marks@[t] ==> numbers@[t] < kept,
            forall|t1: int, t2: int| 0 <= t1 < t2 < s && #[trigger] marks@[t1] ==> numbers@[t1] < #[trigger] numbers@[t2],
            forall|t1: int, t2: int| 0 <= t1 < t2 < s ==> #[trigger] numbers@[t1] <= #[trigger] numbers@[t2],
            forall|x: int| 0 <= x < kept ==> #[trigger] numbered(marks@, numbers@, s as int, x),
            s > 0 ==> numbers@[0] == 0,
            (exists|t: int| 0 <= t < s && !#[trigger] marks@[t]) ==> kept < s,
        decreases n - s,
    {
        let ghost old_numbers = numbers@;
        let ghost old_kept = kept;
        numbers.push(kept);
        if marks[s] {
            kept = kept + 1;
        }
        proof {
            assert forall|x: int| 0 <= x < kept implies #[trigger] numbered(marks@, numbers@, s + 1, x) by {
                if x == kept - 1 && marks@[s as int] {
                    assert(numbers@[s as int] == x);
                } else {
                    assert(numbered(marks@, old_numbers, s as int, x));
                    let t = choose|t: int| 0 <= t < s && marks@[t] && #[trigger] old_numbers[t] == x;
                    assert(numbers@[t] == old_numbers[t]);
                    assert(numbers@[t] == x);
                }
            }
        }
        s = s + 1;
    }
    proof {
        assert(numbering(marks@, numbers@, n as int, kept as int));
    }
    let starts = dfa.start_states();
    let mut dead: usize = 0;
    let mut k: usize = 0;
    while k < starts.len()
        invariant
            starts@ == dfa.spec_starts(),
            dfa.well_formed(),
            n == dfa.spec_state_count(),
            marks@.len() == n,
            k <= starts@.len(),
            dead <= 1,
            dead == 0 ==> forall|j: int| 0 <= j < k ==> marks@[(#[trigger] starts@[j])@ as int],
            dead == 1 ==> exists|j: int| 0 <= j < k && !marks@[(#[trigger] starts@[j])@ as int],
        decreases starts@.len() - k,
    {
        if !marks[starts[k].index()] {
            proof {
                assert(!marks@[starts@[k as int]@ as int]);
            }
            dead = 1;
        }
        k = k + 1;
    }
    proof {
        if dead == 1 {
            let j = choose|j: int| 0 <= j < k && !marks@[(#[trigger] starts@[j])@ as int];
            assert(starts@[j]@ < n);
            assert(kept < n);
        }
    }
    let total = kept + dead;
    let mut new_starts: Vec<StateId> = Vec::new();
    let mut k: usize = 0;
    while k < starts.len()
        invariant
            starts@ == dfa.spec_starts(),
            dfa.well_formed(),
            n == dfa.spec_state_count(),
            n <= STATE_IDENTIFIERS,
            marks@.len() == n,
            numbers@.len() == n,
            kept <= n,
            total == kept + dead,
            dead <= 1,
            dead == 0 ==> forall|j: int| 0 <= j < starts@.len() ==> marks@[(#[trigger] starts@[j])@ as int],
            dead == 1 ==> kept < n,
            forall|t: int| 0 <= t < n && #[trigger] marks@[t] ==> numbers@[t] < kept,
            k <= starts@.len(),
            new_starts@.len() == k,
            forall|j: int|
                0 <= j < k ==> (#[trigger] new_starts@[j])@ == if marks@[starts@[j]@ as int] {
                    numbers@[starts@[j]@ as int] as int
                } else {
                    kept as int
                },
        decreases starts@.len() - k,
    {
        let start = starts[k].index();
        if marks[start] {
            new_starts.push(StateId::new(numbers[start]));
        } else {
            proof {
                assert(starts@[k as int]@ == start);
                assert(!marks@[starts@[k as int]@ as int]);
                assert(dead == 1);
            }
            new_starts.push(StateId::new(kept));
        }
        k = k + 1;
    }
    let mut builder: Builder<L, A> = Builder::new();
    let mut added: usize = 0;
    while added < total
        invariant
            total <= n,
            n <= STATE_IDENTIFIERS,
            kept <= n,
            total == kept + dead,
            dead <= 1,
            total <= spec_state_capacity(),
            added <= total,
            builder.well_formed(),
            builder.spec_state_count() == added,
            builder.spec_table().spec_capacity() == spec_state_capacity(),
            builder.spec_table().spec_error() is None,
            builder.spec_table().spec_edges().len() == 0,
            forall|x: int| 0 <= x < added ==> (#[trigger] builder.spec_table().spec_accepts()[x]) is None,
        decreases total - added,
    {
        builder.add_state();
        added = added + 1;
    }
    proof {
        assert(groups.take(0) =~= Seq::<Seq<Transition<L>>>::empty());
        assert forall|x: int| 0 <= x < total implies group_of(builder.spec_table().spec_edges(), x).len() == 0 by {
            lemma_group_empty(builder.spec_table().spec_edges(), x);
        }
    }
    let mut s: usize = 0;
    while s < n
        invariant
            dfa.well_formed(),
            groups == dfa.spec_transitions(),
            n == dfa.spec_state_count(),
            n <= STATE_IDENTIFIERS,
            numbering(marks@, numbers@, n as int, kept as int),
            total == kept + dead,
            total <= n,
            s <= n,
            builder.well_formed(),
            builder.spec_state_count() == total,
            builder.spec_table().spec_capacity() == spec_state_capacity(),
            builder.spec_table().spec_error() is None,
            builder.spec_table().spec_edges().len() <= flatten(groups.take(s as int)).len(),
            forall|x: int| 0 <= x < total ==> (#[trigger] builder.spec_table().spec_accepts()[x]) is None,
            forall|t: int|
                0 <= t < s && #[trigger] marks@[t] ==> group_of(builder.spec_table().spec_edges(), numbers@[t] as int)
                    == kept_transitions(groups[t], marks@, numbers@),
            forall|x: int|
                (if s < n { numbers@[s as int] as int } else { kept as int }) <= x < total ==> (#[trigger] group_of(
                    builder.spec_table().spec_edges(),
                    x,
                )).len() == 0,
        decreases n - s,
    {
        let ghost edges_before = builder.spec_table().spec_edges();
        if marks[s] {
            let transitions = dfa.transitions(StateId::new(s));
            let from = numbers[s];
            let mut k: usize = 0;
            proof {
                assert(transitions@.take(0) =~= Seq::<Transition<L>>::empty());
            }
            while k < transitions.len()
                invariant
                    dfa.well_formed(),
                    groups == dfa.spec_transitions(),
                    n == dfa.spec_state_count(),
                    n <= STATE_IDENTIFIERS,
                    numbering(marks@, numbers@, n as int, kept as int),
                    s < n,
                    marks@[s as int],
                    from == numbers@[s as int],
                    transitions@ == groups[s as int],
                    total == kept + dead,
                    total <= n,
                    k <= transitions@.len(),
                    builder.well_formed(),
                    builder.spec_state_count() == total,
                    builder.spec_table().spec_capacity() == spec_state_capacity(),
                    builder.spec_table().spec_error() is None,
                    builder.spec_table().spec_edges().len() <= flatten(groups.take(s as int)).len() + k,
                    forall|x: int| 0 <= x < total ==> (#[trigger] builder.spec_table().spec_accepts()[x]) is None,
                    forall|t: int|
                        0 <= t < s && #[trigger] marks@[t] ==> group_of(builder.spec_table().spec_edges(), numbers@[t] as int)
                            == kept_transitions(groups[t], marks@, numbers@),
                    group_of(builder.spec_table().spec_edges(), from as int) == kept_transitions(
                        transitions@.take(k as int),
                        marks@,
                        numbers@,
                    ),
                    forall|x: int|
                        from < x < total ==> (#[trigger] group_of(builder.spec_table().spec_edges(), x)).len() == 0,
                decreases transitions@.len() - k,
            {
                let transition = transitions[k];
                let target = transition.target.index();
                let ghost edges = builder.spec_table().spec_edges();
                proof {
                    assert(transition.target@ < n);
                }
                if marks[target] {
                    builder.add_transition(StateId::new(from), transition.label, StateId::new(numbers[target]));
                    proof {
                        assert forall|x: int| #![auto] 0 <= x < total implies group_of(builder.spec_table().spec_edges(), x)
                            == group_of(edges, x) + if x == from {
                            seq![Transition { label: transition.label, target: StateId(numbers@[target as int] as u32) }]
                        } else {
                            Seq::empty()
                        } by {
                            lemma_group_push(edges, (StateId(from as u32), Transition { label: transition.label, target: StateId(numbers@[target as int] as u32) }), x);
                        }
                        assert forall|t: int| 0 <= t < s && #[trigger] marks@[t] implies group_of(builder.spec_table().spec_edges(), numbers@[t] as int)
                            == kept_transitions(groups[t], marks@, numbers@) by {
                            assert(numbers@[t] < numbers@[s as int]);
                        }
                    }
                }
                proof {
                    let taken = transitions@.take(k + 1);
                    assert(taken.drop_last() =~= transitions@.take(k as int));
                    assert(taken.last() == transition);
                }
                k = k + 1;
            }
            proof {
                assert(transitions@.take(transitions@.len() as int) =~= transitions@);
            }
        }
        proof {
            lemma_flatten_take(groups, s as int);
            if s + 1 < n {
                if marks@[s as int] {
                    assert(numbers@[s as int] < numbers@[s + 1]);
                } else {
                    assert(numbers@[s as int] <= numbers@[s + 1]);
                }
            }
        }
        s = s + 1;
    }
    let ghost edges = builder.spec_table().spec_edges();
    let ghost accepts_spec = dfa.spec_accepts();
    let ghost starts_spec = dfa.spec_starts();
    proof {
        assert(groups.take(n as int) =~= groups);
    }
    let mut accepts = dfa.into_accepts();
    let mut j: usize = n;
    proof {
        assert(accepts@.take(n as int) =~= accepts@);
    }
    while j > 0
        invariant
            n == accepts_spec.len(),
            j <= n,
            accepts@ == accepts_spec.take(j as int),
            numbering(marks@, numbers@, n as int, kept as int),
            total == kept + dead,
            total <= n,
            builder.well_formed(),
            builder.spec_state_count() == total,
            builder.spec_table().spec_capacity() == spec_state_capacity(),
            builder.spec_table().spec_error() is None,
            builder.spec_table().spec_edges() == edges,
            forall|t: int|
                j <= t < n && #[trigger] marks@[t] ==> builder.spec_table().spec_accepts()[numbers@[t] as int]
                    == accepts_spec[t],
            forall|x: int|
                0 <= x < total && (forall|t: int| j <= t < n && marks@[t] ==> #[trigger] numbers@[t] != x)
                    ==> (#[trigger] builder.spec_table().spec_accepts()[x]) is None,
        decreases j,
    {
        j = j - 1;
        let ghost before = builder.spec_table().spec_accepts();
        proof {
            assert(accepts@.len() == j + 1);
        }
        let value = accepts.pop();
        proof {
            assert(accepts@ =~= accepts_spec.take(j as int));
            assert(value == Some(accepts_spec[j as int]));
        }
        match value {
            Some(Some(accept)) => {
                if marks[j] {
                    builder.set_accept(StateId::new(numbers[j]), accept);
                }
            },
            _ => {},
        }
        proof {
            let after = builder.spec_table().spec_accepts();
            assert forall|t: int|
                j <= t < n && #[trigger] marks@[t] implies after[numbers@[t] as int] == accepts_spec[t] by {
                if t > j && marks@[j as int] {
                    assert(numbers@[j as int] < numbers@[t]);
                }
                if t == j {
                    assert(forall|u: int| j < u < n && marks@[u] ==> #[trigger] numbers@[u] != numbers@[t]);
                    assert(before[numbers@[t] as int] is None);
                }
            }
            assert forall|x: int|
                0 <= x < total && (forall|t: int| j <= t < n && marks@[t] ==> #[trigger] numbers@[t] != x)
                    implies (#[trigger] after[x]) is None by {
                assert(forall|t: int| j + 1 <= t < n && marks@[t] ==> #[trigger] numbers@[t] != x);
            }
        }
    }
    proof {
        let table = builder.spec_table();
        let table_groups = table.spec_groups();
        lemma_flatten_prefix(groups, n as int);
        assert(table.builds());
        assert forall|x: int, e: int|
            0 <= x < table_groups.len() && 0 <= e < table_groups[x].len() implies (#[trigger] table_groups[x][e]).target@
            < total by {
            if x < kept {
                assert(numbered(marks@, numbers@, n as int, x));
                let t = choose|t: int| 0 <= t < n && marks@[t] && #[trigger] numbers@[t] == x;
                assert(forall|j: int| 0 <= j < groups[t].len() ==> 0 <= (#[trigger] groups[t][j]).target@ < n);
                lemma_kept_targets(groups[t], marks@, numbers@, n as int, kept as int);
            }
        }
        assert(deterministic(table_groups)) by {
            assert forall|x: int, first: int, second: int, symbol: L::Symbol|
                0 <= x < table_groups.len() && 0 <= first < second < table_groups[x].len()
                    && #[trigger] table_groups[x][first].label.spec_matches(symbol)
                    implies !#[trigger] table_groups[x][second].label.spec_matches(symbol) by {
                if x < kept {
                    assert(numbered(marks@, numbers@, n as int, x));
                    let t = choose|t: int| 0 <= t < n && marks@[t] && #[trigger] numbers@[t] == x;
                    assert(disjoint_labels(groups[t])) by {
                        assert forall|a: int, b: int, sym: L::Symbol|
                            0 <= a < b < groups[t].len() && #[trigger] groups[t][a].label.spec_matches(sym)
                                implies !#[trigger] groups[t][b].label.spec_matches(sym) by {}
                    }
                    lemma_kept_disjoint(groups[t], marks@, numbers@);
                }
            }
        }
        assert(starts_spec.len() > 0);
    }
    let trimmed = builder.build(new_starts.as_slice()).unwrap();
    proof {
        assert forall|x: int| 0 <= x < kept implies #[trigger] numbered(marks@, numbers@, n as int, x) by {}
        assert(trimmed.spec_state_count() == total);
        if dead == 1 {
            let j = choose|j: int| 0 <= j < starts@.len() && !marks@[(#[trigger] starts@[j])@ as int];
            assert(starts_spec[j] == starts@[j]);
        }
    }
    (trimmed, Ghost(numbers@), Ghost(kept as nat))
}

/// Reading one input, then another, reads the two one after the other.
pub proof fn lemma_run_concat<L: Label, A>(dfa: &Dfa<L, A>, state: int, first: Seq<L::Symbol>, second: Seq<L::Symbol>)
    ensures
        run_from(dfa, state, first + second) == match run_from(dfa, state, first) {
            Some(reached) => run_from(dfa, reached, second),
            None => None,
        },
    decreases first.len(),
{
    if first.len() == 0 {
        assert(first + second =~= second);
    } else {
        let symbol = first[0];
        let rest = first.drop_first();
        assert(first =~= seq![symbol] + rest);
        assert(first + second =~= seq![symbol] + (rest + second));
        lemma_run_first(dfa, state, symbol, rest + second);
        lemma_run_first(dfa, state, symbol, rest);
        if let Some(target) = target_of(dfa.spec_transitions()[state], symbol) {
            lemma_run_concat(dfa, target@ as int, rest, second);
        }
    }
}

/// A scan of the trimmed automaton from the state of a live state gives the
/// same accept value after each input as a scan of `dfa` from that state.
pub proof fn lemma_trim_scans_like<L: Label, A>(
    dfa: &Dfa<L, A>,
    marks: Seq<bool>,
    numbers: Seq<usize>,
    kept: nat,
    trimmed: &Dfa<L, A>,
    state: int,
    input: Seq<L::Symbol>,
)
    requires
        dfa.well_formed(),
        trims(dfa, marks, numbers, kept, trimmed),
        forall|s: int| 0 <= s < dfa.spec_state_count() ==> (#[trigger] marks[s] <==> live(dfa, s)),
        0 <= state < dfa.spec_state_count(),
        marks[state],
    ensures
        accept_after(trimmed, numbers[state] as int, input) == accept_after(dfa, state, input),
    decreases input.len(),
{
    if input.len() > 0 {
        let symbol = input[0];
        let rest = input.drop_first();
        assert(input =~= seq![symbol] + rest);
        lemma_run_first(dfa, state, symbol, rest);
        lemma_run_first(trimmed, numbers[state] as int, symbol, rest);
        let group = dfa.spec_transitions()[state];
        let kept_group = kept_transitions(group, marks, numbers);
        assert(trimmed.spec_transitions()[numbers[state] as int] == kept_group);
        lemma_kept_match(group, marks, numbers, symbol);
        match target_of(group, symbol) {
            Some(target) => {
                let j = choose|j: int| 0 <= j < group.len() && #[trigger] group[j].label.spec_matches(symbol);
                assert(group[j].target == target);
                assert(target@ < dfa.spec_state_count());
                if marks[target@ as int] {
                    let k = choose|k: int| 0 <= k < kept_group.len() && #[trigger] kept_group[k].label.spec_matches(symbol);
                    let j2 = choose|j2: int|
                        0 <= j2 < group.len() && #[trigger] group[j2].label.spec_matches(symbol) && marks[group[j2].target@ as int]
                            && kept_group[k].target == StateId(numbers[group[j2].target@ as int] as u32);
                    if j < j2 {
                        assert(!group[j2].label.spec_matches(symbol));
                    } else if j2 < j {
                        assert(!group[j].label.spec_matches(symbol));
                    }
                    let found = target_of(kept_group, symbol);
                    let k2 = choose|k2: int| 0 <= k2 < kept_group.len() && #[trigger] kept_group[k2].label.spec_matches(symbol);
                    let j3 = choose|j3: int|
                        0 <= j3 < group.len() && #[trigger] group[j3].label.spec_matches(symbol) && marks[group[j3].target@ as int]
                            && kept_group[k2].target == StateId(numbers[group[j3].target@ as int] as u32);
                    if j < j3 {
                        assert(!group[j3].label.spec_matches(symbol));
                    } else if j3 < j {
                        assert(!group[j].label.spec_matches(symbol));
                    }
                    assert(numbers[target@ as int] < kept);
                    assert(found == Some(StateId(numbers[target@ as int] as u32)));
                    lemma_trim_scans_like(dfa, marks, numbers, kept, trimmed, target@ as int, rest);
                } else {
                    if exists|k: int| 0 <= k < kept_group.len() && #[trigger] kept_group[k].label.spec_matches(symbol) {
                        let j2 = choose|j2: int| 0 <= j2 < group.len() && #[trigger] group[j2].label.spec_matches(symbol) && marks[group[j2].target@ as int];
                        if j < j2 {
                            assert(!group[j2].label.spec_matches(symbol));
                        } else if j2 < j {
                            assert(!group[j].label.spec_matches(symbol));
                        }
                    }
                    assert(target_of(kept_group, symbol) is None);
                    assert(!live(dfa, target@ as int));
                    assert(accept_after(dfa, target@ as int, rest) is None);
                }
            },
            None => {
                assert(target_of(kept_group, symbol) is None);
            },
        }
    }
}

/// The states of the trimmed automaton below `kept` are live, and a scan
/// that reads a symbol reaches a state below `kept`.
pub proof fn lemma_trim_live<L: Label, A>(
    dfa: &Dfa<L, A>,
    marks: Seq<bool>,
    numbers: Seq<usize>,
    kept: nat,
    trimmed: &Dfa<L, A>,
    x: int,
)
    requires
        dfa.well_formed(),
        trims(dfa, marks, numbers, kept, trimmed),
        forall|s: int| 0 <= s < dfa.spec_state_count() ==> (#[trigger] marks[s] <==> live(dfa, s)),
        0 <= x < kept,
    ensures
        live(trimmed, x),
{
    assert(numbered(marks, numbers, dfa.spec_state_count() as int, x));
    let s = choose|s: int| 0 <= s < dfa.spec_state_count() && marks[s] && #[trigger] numbers[s] == x;
    assert(live(dfa, s));
    let input = choose|input: Seq<L::Symbol>| (#[trigger] accept_after(dfa, s, input)) is Some;
    lemma_trim_scans_like(dfa, marks, numbers, kept, trimmed, s, input);
    assert(accept_after(trimmed, x, input) is Some);
}

/// A scan of the trimmed automaton that reads a symbol goes to a state below
/// `kept`.
pub proof fn lemma_trim_below<L: Label, A>(
    dfa: &Dfa<L, A>,
    marks: Seq<bool>,
    numbers: Seq<usize>,
    kept: nat,
    trimmed: &Dfa<L, A>,
    x: int,
    input: Seq<L::Symbol>,
)
    requires
        dfa.well_formed(),
        trims(dfa, marks, numbers, kept, trimmed),
        0 <= x < trimmed.spec_state_count(),
        input.len() > 0,
    ensures
        run_from(trimmed, x, input) matches Some(reached) ==> 0 <= reached < kept,
    decreases input.len(),
{
    let symbol = input[0];
    let rest = input.drop_first();
    assert(input =~= seq![symbol] + rest);
    lemma_run_first(trimmed, x, symbol, rest);
    if let Some(target) = target_of(trimmed.spec_transitions()[x], symbol) {
        let group = trimmed.spec_transitions()[x];
        let k = choose|k: int| 0 <= k < group.len() && #[trigger] group[k].label.spec_matches(symbol);
        assert(group[k].target == target);
        if x < kept {
            assert(numbered(marks, numbers, dfa.spec_state_count() as int, x));
            let s = choose|s: int| 0 <= s < dfa.spec_state_count() && marks[s] && #[trigger] numbers[s] == x;
            lemma_kept_targets(dfa.spec_transitions()[s], marks, numbers, dfa.spec_state_count() as int, kept as int);
        }
        if rest.len() > 0 {
            lemma_trim_below(dfa, marks, numbers, kept, trimmed, target@ as int, rest);
        }
    }
}

} // verus!
