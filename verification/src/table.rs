//! The tables of a lexer, in the form that the emitted source holds.
//!
//! A [`Dfa`] holds the transitions of one state as a list of labels, and a
//! scan finds the transition of a symbol by its labels. An emitted lexer
//! cannot pay for that search. [`Tables`] holds the same automaton as a table,
//! thus a step reads two indexes and no label.
//!
//! The table divides the bytes into classes. Two bytes that each label treats
//! in the same manner belong to one class, thus one column of the table serves
//! them both. A lexer of 200 rules holds a few tens of classes, and not 256.
use vstd::prelude::*;

use crate::automata::automaton::Transition;
use crate::automata::dfa::automaton::{Dfa, target_of};
use crate::automata::encoding::ByteRange;
use crate::automata::label::{Label, LabelClass, Partitionable, is_partition};
use crate::automata::dfa::execution::scan;
use crate::automata::minimize::{lemma_scan_below, lemma_tagged_index, lemma_tagged_sources, tagged};
use crate::automata::{Overflow, Part};
use crate::compiler::Accepts;
use crate::automata::StateId;

verus! {

/// Whether a label of a transition of `groups` matches `byte`.
pub open spec fn labelled(groups: Seq<Seq<Transition<ByteRange>>>, byte: u8) -> bool {
    exists|state: int, k: int|
        0 <= state < groups.len() && 0 <= k < groups[state].len()
            && #[trigger] groups[state][k].label.spec_matches(byte)
}

/// Whether each label of a transition of `groups` matches `byte` exactly
/// where it matches `other`.
pub open spec fn same_labels(groups: Seq<Seq<Transition<ByteRange>>>, byte: u8, other: u8) -> bool {
    forall|state: int, k: int|
        0 <= state < groups.len() && 0 <= k < groups[state].len() ==> (
        #[trigger] groups[state][k].label.spec_matches(byte) <==> groups[state][k].label.spec_matches(
            other,
        ))
}

/// Whether `classes` gives the class of each byte, and `representatives` one
/// byte of each class, for the labels of `groups`.
///
/// Class 0 holds each byte that no label matches. Class `c + 1` holds the
/// bytes that each label treats as `representatives[c]`.
pub open spec fn divides(
    groups: Seq<Seq<Transition<ByteRange>>>,
    classes: Seq<u16>,
    representatives: Seq<u8>,
) -> bool {
    &&& classes.len() == 256
    &&& representatives.len() <= 256
    &&& forall|byte: int| 0 <= byte < 256 ==> (#[trigger] classes[byte]) <= representatives.len()
    &&& forall|c: int|
        0 <= c < representatives.len() ==> classes[(#[trigger] representatives[c]) as int] == c + 1
    &&& forall|byte: u8| (#[trigger] classes[byte as int] == 0) == !labelled(groups, byte)
    &&& forall|byte: u8|
        #[trigger] classes[byte as int] > 0 ==> same_labels(
            groups,
            byte,
            representatives[classes[byte as int] - 1],
        )
}

/// Returns the label of each transition of `dfa`, the labels of the first
/// state first.
fn labels_of(dfa: &Dfa<ByteRange>) -> (labels: Vec<ByteRange>)
    requires
        dfa.well_formed(),
    ensures
        labels@ == tagged(dfa.spec_transitions(), dfa.spec_state_count()).map_values(
            |item: (StateId, Transition<ByteRange>)| item.1.label,
        ),
{
    let count = dfa.state_count();
    let ghost groups = dfa.spec_transitions();
    let mut labels: Vec<ByteRange> = Vec::new();
    let mut index: usize = 0;
    proof {
        assert(labels@ =~= tagged(groups, 0).map_values(
            |item: (StateId, Transition<ByteRange>)| item.1.label,
        ));
    }
    while index < count
        invariant
            dfa.well_formed(),
            groups == dfa.spec_transitions(),
            count == dfa.spec_state_count(),
            index <= count,
            labels@ == tagged(groups, index as nat).map_values(
                |item: (StateId, Transition<ByteRange>)| item.1.label,
            ),
        decreases count - index,
    {
        let transitions = dfa.transitions(StateId::new(index));
        let ghost before = labels@;
        let mut k: usize = 0;
        proof {
            assert(labels@ =~= before + transitions@.take(0).map_values(
                |transition: Transition<ByteRange>| transition.label,
            ));
        }
        while k < transitions.len()
            invariant
                k <= transitions@.len(),
                labels@ == before + transitions@.take(k as int).map_values(
                    |transition: Transition<ByteRange>| transition.label,
                ),
            decreases transitions@.len() - k,
        {
            labels.push(transitions[k].label);
            k = k + 1;
            proof {
                assert(labels@ =~= before + transitions@.take(k as int).map_values(
                    |transition: Transition<ByteRange>| transition.label,
                ));
            }
        }
        proof {
            assert(transitions@.take(transitions@.len() as int) =~= transitions@);
            let next = tagged(groups, (index + 1) as nat);
            assert(next == tagged(groups, index as nat) + groups[index as int].map_values(
                |transition: Transition<ByteRange>| (StateId(index as u32), transition),
            ));
            assert(labels@ =~= next.map_values(
                |item: (StateId, Transition<ByteRange>)| item.1.label,
            ));
        }
        index = index + 1;
    }
    labels
}

/// The facts about the classes of the labels of `groups` that a division
/// reads: `labels` holds the label of each transition, and `partition` divides
/// them into ranges of consecutive bytes.
pub open spec fn classes_of(
    groups: Seq<Seq<Transition<ByteRange>>>,
    labels: Seq<ByteRange>,
    partition: Seq<LabelClass<ByteRange>>,
) -> bool {
    &&& labels == tagged(groups, groups.len()).map_values(
        |item: (StateId, Transition<ByteRange>)| item.1.label,
    )
    &&& is_partition(labels, partition)
    &&& partition.len() <= 256
    &&& forall|c: int| 0 <= c < partition.len() ==> (#[trigger] partition[c]).label.low <= partition[c].label.high
    &&& forall|c: int, d: int|
        0 <= c < d < partition.len() ==> (#[trigger] partition[c]).label.high < (
        #[trigger] partition[d]).label.low
}

/// A class of the labels of `groups` matches `byte` exactly where a label of
/// a transition matches it, and two bytes of one class meet the same labels.
proof fn lemma_class_labels(
    groups: Seq<Seq<Transition<ByteRange>>>,
    labels: Seq<ByteRange>,
    partition: Seq<LabelClass<ByteRange>>,
    byte: u8,
)
    requires
        groups.len() <= crate::automata::table::STATE_IDENTIFIERS,
        classes_of(groups, labels, partition),
    ensures
        labelled(groups, byte) <==> exists|c: int|
            0 <= c < partition.len() && #[trigger] partition[c].label.spec_matches(byte),
        forall|c: int|
            0 <= c < partition.len() && #[trigger] partition[c].label.spec_matches(byte)
                ==> same_labels(groups, byte, partition[c].label.low),
{
    let count = groups.len();
    let items = tagged(groups, count);
    lemma_tagged_sources(groups, count);
    if labelled(groups, byte) {
        let (state, k) = choose|state: int, k: int|
            0 <= state < groups.len() && 0 <= k < groups[state].len()
                && #[trigger] groups[state][k].label.spec_matches(byte);
        lemma_tagged_index(groups, count, state, k);
        let i = tagged(groups, state as nat).len() + k;
        assert(labels[i] == groups[state][k].label);
        assert(labels[i].spec_matches(byte));
    }
    if exists|c: int| 0 <= c < partition.len() && #[trigger] partition[c].label.spec_matches(byte) {
        let c = choose|c: int| 0 <= c < partition.len() && #[trigger] partition[c].label.spec_matches(byte);
        let indexes = partition[c].matching_labels@;
        let i = indexes[0] as int;
        assert(indexes.contains(indexes[0]));
        assert(labels[i].spec_matches(byte));
        let (source, transition) = items[i];
        let k = choose|k: int| 0 <= k < groups[source@ as int].len() && groups[source@ as int][k] == transition;
        assert(groups[source@ as int][k].label.spec_matches(byte));
    }
    assert forall|c: int|
        0 <= c < partition.len() && #[trigger] partition[c].label.spec_matches(byte) implies same_labels(
        groups,
        byte,
        partition[c].label.low,
    ) by {
        let low = partition[c].label.low;
        assert(partition[c].label.spec_matches(low));
        assert forall|state: int, k: int|
            0 <= state < groups.len() && 0 <= k < groups[state].len() implies (
            #[trigger] groups[state][k].label.spec_matches(byte) <==> groups[state][k].label.spec_matches(
                low,
            )) by {
            lemma_tagged_index(groups, count, state, k);
            let i = tagged(groups, state as nat).len() + k;
            assert(labels[i] == groups[state][k].label);
            assert(partition[c].matching_labels@.contains(i as usize) <==> labels[i].spec_matches(byte));
            assert(partition[c].matching_labels@.contains(i as usize) <==> labels[i].spec_matches(low));
        }
    }
}

/// Returns the class of each byte, and one byte of each class.
///
/// The division reads each label of each state, thus one class serves each
/// state and the table needs one column for it.
fn divide(dfa: &Dfa<ByteRange>) -> (result: ([u16; 256], Vec<u8>))
    requires
        dfa.well_formed(),
    ensures
        divides(dfa.spec_transitions(), result.0@, result.1@),
{
    let ghost groups = dfa.spec_transitions();
    let labels = labels_of(dfa);
    let partition = ByteRange::partition(labels.as_slice());
    let ghost classes_seq = partition@;
    proof {
        assert(classes_of(groups, labels@, partition@));
    }
    let mut classes: [u16; 256] = [0u16; 256];
    let mut representatives: Vec<u8> = Vec::new();
    let mut c: usize = 0;
    while c < partition.len()
        invariant
            dfa.well_formed(),
            groups == dfa.spec_transitions(),
            classes_of(groups, labels@, partition@),
            c <= partition@.len(),
            representatives@.len() == c,
            forall|d: int| 0 <= d < c ==> #[trigger] representatives@[d] == partition@[d].label.low,
            forall|byte: u8|
                (#[trigger] classes@[byte as int] == 0) == (forall|d: int|
                    0 <= d < c ==> !#[trigger] partition@[d].label.spec_matches(byte)),
            forall|byte: u8|
                #[trigger] classes@[byte as int] != 0 ==> classes@[byte as int] <= c
                    && partition@[classes@[byte as int] - 1].label.spec_matches(byte),
        decreases partition@.len() - c,
    {
        let label = partition[c].label;
        let number = (c + 1) as u16;
        let ghost before = classes@;
        let mut byte: usize = label.low as usize;
        while byte <= label.high as usize
            invariant
                label == partition@[c as int].label,
                number == c + 1,
                c < partition@.len(),
                classes_of(groups, labels@, partition@),
                label.low <= byte <= label.high + 1,
                forall|b: u8| label.low <= b < byte ==> #[trigger] classes@[b as int] == number,
                forall|b: u8| !(label.low <= b < byte) ==> #[trigger] classes@[b as int] == before[b as int],
            decreases label.high + 1 - byte,
        {
            classes.set(byte, number);
            proof {
                assert forall|b: u8| label.low <= b < byte + 1 implies #[trigger] classes@[b as int] == number by {
                    if b < byte {
                    } else {
                        assert(b as int == byte);
                    }
                }
            }
            byte = byte + 1;
        }
        representatives.push(label.low);
        proof {
            assert forall|b: u8| (#[trigger] classes@[b as int] == 0) == (forall|d: int|
                0 <= d < c + 1 ==> !#[trigger] partition@[d].label.spec_matches(b)) by {
                if label.spec_matches(b) {
                    assert(classes@[b as int] == number);
                } else {
                    assert(classes@[b as int] == before[b as int]);
                }
            }
            assert forall|b: u8|
                #[trigger] classes@[b as int] != 0 implies classes@[b as int] <= c + 1
                && partition@[classes@[b as int] - 1].label.spec_matches(b) by {
                if label.spec_matches(b) {
                    assert(classes@[b as int] == number);
                } else {
                    assert(classes@[b as int] == before[b as int]);
                }
            }
        }
        c = c + 1;
    }
    proof {
        let reps = representatives@;
        let table = classes@;
        assert forall|byte: int| 0 <= byte < 256 implies (#[trigger] table[byte]) <= reps.len() by {
            let b = byte as u8;
            assert(b as int == byte);
            if table[b as int] != 0 {
            }
        }
        assert forall|d: int| 0 <= d < reps.len() implies table[(#[trigger] reps[d]) as int] == d + 1 by {
            let low = partition@[d].label.low;
            assert(partition@[d].label.spec_matches(low));
            assert(table[low as int] != 0);
            let e = table[low as int] - 1;
            assert(partition@[e].label.spec_matches(low));
            if e < d {
                assert(partition@[e].label.high < partition@[d].label.low);
            } else if d < e {
                assert(partition@[d].label.high < partition@[e].label.low);
            }
        }
        assert forall|byte: u8| (#[trigger] table[byte as int] == 0) == !labelled(groups, byte) by {
            lemma_class_labels(groups, labels@, partition@, byte);
            if table[byte as int] != 0 {
                assert(partition@[table[byte as int] - 1].label.spec_matches(byte));
            }
        }
        assert forall|byte: u8| #[trigger] table[byte as int] > 0 implies same_labels(
            groups,
            byte,
            reps[table[byte as int] - 1],
        ) by {
            lemma_class_labels(groups, labels@, partition@, byte);
            assert(partition@[table[byte as int] - 1].label.spec_matches(byte));
        }
    }
    (classes, representatives)
}

/// The maximum number of the states of an automaton that a table holds.
///
/// A table numbers its states in a `u16`, and it keeps the value 0 for the
/// dead state. Thus the highest state of the automaton is `u16::MAX`.
pub const MAX_STATES: usize = 0xFFFF;

/// The maximum number of the rules of a lexer that a table holds.
///
/// A table numbers its rules in a `u16`, and it keeps the value 0 for a state
/// that does not accept.
pub const MAX_RULES: usize = 0xFFFF;

/// The index of the cell of `state` and `class` in a table of rows of `width`
/// cells.
pub open spec fn cell(width: int, state: int, class: int) -> int {
    state * width + class
}

/// The number that a table holds for `target`: the state plus one, or 0 for
/// the dead state.
pub open spec fn encoded(target: Option<StateId>) -> int {
    match target {
        Some(state) => state@ as int + 1,
        None => 0,
    }
}

/// The cell of table state `state` and class `class`: the dead state and the
/// dead class give the dead state, and state `s + 1` reads class `c + 1` as
/// state `s` of the automaton reads `representatives[c]`.
pub open spec fn entry(
    groups: Seq<Seq<Transition<ByteRange>>>,
    representatives: Seq<u8>,
    state: int,
    class: int,
) -> int {
    if state == 0 || class == 0 {
        0
    } else {
        encoded(target_of(groups[state - 1], representatives[class - 1]))
    }
}

/// The number that a table holds for the accept of a state: the rule plus
/// one, or 0 for a state that does not accept.
pub open spec fn marked(accept: Option<u16>) -> int {
    match accept {
        Some(rule) => rule as int + 1,
        None => 0,
    }
}

/// The transitions of a lexer, the accepts, and the start states, as tables.
///
/// State 0 is the dead state, and state `n + 1` is the state `n` of the
/// automaton. Class 0 is the dead class, and no byte of a label belongs to it.
/// Thus a step needs no branch for a byte that no label matches, and it reads
/// the dead row and gives the dead state again.
///
/// A step reads [`classes`](Self::classes) with the byte, then it reads
/// [`next`](Self::next) at the state and that class:
///
/// ```text
/// state = next[state * width + classes[byte]]
/// ```
///
/// The scan stops when `state` is 0.
#[derive(Debug, Clone, PartialEq, Eq)]
pub struct Tables {
    classes: [u16; 256],
    representatives: Vec<u8>,
    width: usize,
    next: Vec<u16>,
    accept: Vec<u16>,
    start: Vec<u16>,
}

impl Tables {
    /// The class of each byte.
    pub closed spec fn spec_classes(&self) -> Seq<u16> {
        self.classes@
    }

    /// One byte of each class, the byte of the first class first.
    pub closed spec fn spec_representatives(&self) -> Seq<u8> {
        self.representatives@
    }

    /// The number of the cells of one row.
    pub closed spec fn spec_width(&self) -> nat {
        self.width as nat
    }

    /// The rows of the states, the dead row first.
    pub closed spec fn spec_next(&self) -> Seq<u16> {
        self.next@
    }

    /// The rule that each state accepts, plus one, the dead state first.
    pub closed spec fn spec_accept(&self) -> Seq<u16> {
        self.accept@
    }

    /// The state at which each start condition begins a scan.
    pub closed spec fn spec_start(&self) -> Seq<u16> {
        self.start@
    }
}

/// Whether `tables` holds `dfa` with the accepts of `accepts`.
pub open spec fn tabulates(tables: &Tables, dfa: &Dfa<ByteRange>, accepts: &Accepts<u16>) -> bool {
    let groups = dfa.spec_transitions();
    let count = dfa.spec_state_count();
    let width = tables.spec_width();
    let representatives = tables.spec_representatives();
    &&& count <= MAX_STATES
    &&& divides(groups, tables.spec_classes(), representatives)
    &&& width == representatives.len() + 1
    &&& tables.spec_next().len() == (count + 1) * width
    &&& forall|state: int, class: int|
        0 <= state <= count && 0 <= class < width ==> tables.spec_next()[#[trigger] cell(
            width as int,
            state,
            class,
        )] == entry(groups, representatives, state, class)
    &&& tables.spec_accept().len() == count + 1
    &&& tables.spec_accept()[0] == 0
    &&& forall|state: int|
        0 <= state < count ==> tables.spec_accept()[state + 1] == marked(
            #[trigger] accepts.spec_accepts()[state],
        )
    &&& tables.spec_start() == dfa.spec_starts().map_values(|start: StateId| (start@ + 1) as u16)
}

/// A cell of a row of `width` cells is inside a table of `rows` rows.
proof fn lemma_cell_inside(width: int, rows: int, state: int, class: int)
    by (nonlinear_arith)
    requires
        0 <= state < rows,
        0 <= class < width,
    ensures
        0 <= cell(width, state, class) < rows * width,
        cell(width, state, class) + 1 <= (state + 1) * width,
{
}

/// The next row of a table starts where the rows before it end.
proof fn lemma_row_start(width: int, state: int)
    by (nonlinear_arith)
    requires
        0 <= state,
    ensures
        cell(width, state + 1, 0) == (state + 1) * width,
        (state + 1) * width + width == (state + 2) * width,
{
}

/// Returns the row of each state of `dfa`, the dead row first.
///
/// A label matches each byte of a class or no byte of it, thus one byte of the
/// class gives the answer for the whole class.
fn transitions(dfa: &Dfa<ByteRange>, representatives: &[u8], width: usize) -> (next: Vec<u16>)
    requires
        dfa.well_formed(),
        dfa.spec_state_count() <= MAX_STATES,
        width == representatives@.len() + 1,
        representatives@.len() <= 256,
    ensures
        next@.len() == (dfa.spec_state_count() + 1) * width,
        forall|state: int, class: int|
            0 <= state <= dfa.spec_state_count() && 0 <= class < width ==> next@[#[trigger] cell(
                width as int,
                state,
                class,
            )] == entry(dfa.spec_transitions(), representatives@, state, class),
{
    let count = dfa.state_count();
    let ghost groups = dfa.spec_transitions();
    let ghost reps = representatives@;
    let mut next: Vec<u16> = Vec::new();
    while next.len() < width
        invariant
            next@.len() <= width,
            forall|i: int| 0 <= i < next@.len() ==> #[trigger] next@[i] == 0,
        decreases width - next@.len(),
    {
        next.push(0);
    }
    proof {
        assert forall|state: int, class: int|
            0 <= state <= 0 && 0 <= class < width implies next@[#[trigger] cell(
            width as int,
            state,
            class,
        )] == entry(groups, reps, state, class) by {
            assert(cell(width as int, state, class) == class);
        }
        lemma_row_start(width as int, 0);
    }
    let mut index: usize = 0;
    while index < count
        invariant
            dfa.well_formed(),
            groups == dfa.spec_transitions(),
            reps == representatives@,
            count == dfa.spec_state_count(),
            count <= MAX_STATES,
            width == reps.len() + 1,
            reps.len() <= 256,
            index <= count,
            next@.len() == (index + 1) * width,
            forall|state: int, class: int|
                0 <= state <= index && 0 <= class < width ==> next@[#[trigger] cell(
                    width as int,
                    state,
                    class,
                )] == entry(groups, reps, state, class),
        decreases count - index,
    {
        let ghost row = (index + 1) * width;
        let ghost before = next@;
        proof {
            lemma_row_start(width as int, index as int);
        }
        next.push(0);
        let mut class: usize = 0;
        while class < representatives.len()
            invariant
                dfa.well_formed(),
                groups == dfa.spec_transitions(),
                reps == representatives@,
                count == dfa.spec_state_count(),
                count <= MAX_STATES,
                index < count,
                width == reps.len() + 1,
                class <= reps.len(),
                row == (index + 1) * width,
                next@.len() == row + class + 1,
                before.len() == row,
                forall|i: int| 0 <= i < row ==> #[trigger] next@[i] == before[i],
                forall|c: int| 0 <= c <= class ==> #[trigger] next@[row + c] == entry(
                    groups,
                    reps,
                    index + 1,
                    c,
                ),
            decreases reps.len() - class,
        {
            let target = dfa.step(StateId::new(index), representatives[class]);
            let value: u16 = match target {
                Some(state) => (state.index() + 1) as u16,
                None => 0,
            };
            next.push(value);
            proof {
                assert forall|c: int| 0 <= c <= class + 1 implies #[trigger] next@[row + c] == entry(
                    groups,
                    reps,
                    index + 1,
                    c,
                ) by {
                    if c <= class {
                        assert(next@[row + c] == next@[row + c]);
                    }
                }
            }
            class = class + 1;
        }
        proof {
            lemma_row_start(width as int, index as int);
            assert forall|state: int, class: int|
                0 <= state <= index + 1 && 0 <= class < width implies next@[#[trigger] cell(
                width as int,
                state,
                class,
            )] == entry(groups, reps, state, class) by {
                if state <= index {
                    lemma_cell_inside(width as int, index + 1, state, class);
                    assert(next@[cell(width as int, state, class)] == before[cell(
                        width as int,
                        state,
                        class,
                    )]);
                } else {
                    assert(cell(width as int, state, class) == row + class);
                }
            }
        }
        index = index + 1;
    }
    next
}

/// Returns the accept of each state of `dfa`, plus one, the dead state first.
fn marks(dfa: &Dfa<ByteRange>, accepts: &Accepts<u16>) -> (marks: Vec<u16>)
    requires
        dfa.well_formed(),
        accepts.spec_accepts().len() == dfa.spec_state_count(),
        forall|state: int|
            0 <= state < accepts.spec_accepts().len() && (#[trigger] accepts.spec_accepts()[state]) is Some
                ==> accepts.spec_accepts()[state]->Some_0 < MAX_RULES,
    ensures
        marks@.len() == dfa.spec_state_count() + 1,
        marks@[0] == 0,
        forall|state: int|
            0 <= state < dfa.spec_state_count() ==> marks@[state + 1] == marked(
                #[trigger] accepts.spec_accepts()[state],
            ),
{
    let count = dfa.state_count();
    let mut marks: Vec<u16> = Vec::new();
    marks.push(0);
    let mut index: usize = 0;
    while index < count
        invariant
            dfa.well_formed(),
            count == dfa.spec_state_count(),
            accepts.spec_accepts().len() == count,
            forall|state: int|
                0 <= state < accepts.spec_accepts().len() && (#[trigger] accepts.spec_accepts()[state]) is Some
                    ==> accepts.spec_accepts()[state]->Some_0 < MAX_RULES,
            index <= count,
            marks@.len() == index + 1,
            marks@[0] == 0,
            forall|state: int|
                0 <= state < index ==> marks@[state + 1] == marked(
                    #[trigger] accepts.spec_accepts()[state],
                ),
        decreases count - index,
    {
        let mark: u16 = match accepts.get(StateId::new(index)) {
            Some(rule) => *rule + 1,
            None => 0,
        };
        marks.push(mark);
        index = index + 1;
    }
    marks
}

/// Returns the state of each start condition of `dfa`.
fn starts(dfa: &Dfa<ByteRange>) -> (starts: Vec<u16>)
    requires
        dfa.well_formed(),
        dfa.spec_state_count() <= MAX_STATES,
    ensures
        starts@ == dfa.spec_starts().map_values(|start: StateId| (start@ + 1) as u16),
{
    let from = dfa.start_states();
    let mut starts: Vec<u16> = Vec::new();
    let mut i: usize = 0;
    while i < from.len()
        invariant
            dfa.well_formed(),
            dfa.spec_state_count() <= MAX_STATES,
            from@ == dfa.spec_starts(),
            i <= from@.len(),
            starts@ == from@.take(i as int).map_values(|start: StateId| (start@ + 1) as u16),
        decreases from@.len() - i,
    {
        starts.push((from[i].index() + 1) as u16);
        i = i + 1;
        proof {
            assert(starts@ =~= from@.take(i as int).map_values(|start: StateId| (start@ + 1) as u16));
        }
    }
    proof {
        assert(from@.take(from@.len() as int) =~= from@);
    }
    starts
}

impl Tables {
    /// Builds the tables of `dfa`, in which each state accepts the rule that
    /// `accepts` gives.
    ///
    /// The accept of a state is the index of the rule, and the table holds
    /// that index plus one. Thus the value 0 means that the state does not
    /// accept. `accepts` holds one accept for each state of `dfa`, and each
    /// accept is below [`MAX_RULES`].
    ///
    /// A `dfa` of more than [`MAX_STATES`] states gives an [`Overflow`] of its
    /// states, before its accepts are read.
    pub fn new(dfa: &Dfa<ByteRange>, accepts: &Accepts<u16>) -> (tables: Result<Self, Overflow>)
        requires
            dfa.well_formed(),
            accepts.spec_accepts().len() == dfa.spec_state_count(),
            dfa.spec_state_count() <= MAX_STATES ==> forall|state: int|
                0 <= state < accepts.spec_accepts().len() && (#[trigger] accepts.spec_accepts()[state]) is Some
                    ==> accepts.spec_accepts()[state]->Some_0 < MAX_RULES,
        ensures
            tables is Err <==> dfa.spec_state_count() > MAX_STATES,
            tables matches Err(overflow) ==> overflow == (Overflow {
                part: Part::States,
                maximum: MAX_STATES,
            }),
            tables matches Ok(tables) ==> tabulates(&tables, dfa, accepts),
    {
        let count = dfa.state_count();
        if count > MAX_STATES {
            return Err(Overflow::new(Part::States, MAX_STATES));
        }
        let (classes, representatives) = divide(dfa);
        let width = representatives.len() + 1;
        let next = transitions(dfa, representatives.as_slice(), width);
        let accept = marks(dfa, accepts);
        let start = starts(dfa);
        Ok(Tables { classes, representatives, width, next, accept, start })
    }

    /// Returns the class of each byte. Class 0 means that no label matches
    /// the byte.
    pub fn classes(&self) -> (classes: &[u16; 256])
        ensures
            classes@ == self.spec_classes(),
    {
        &self.classes
    }

    /// Returns one byte of each class, the byte of the first class first.
    ///
    /// Class 0 is the dead class, and no byte belongs to it. Thus the byte of
    /// class `n` is at the index `n - 1`.
    pub fn representatives(&self) -> (representatives: &[u8])
        ensures
            representatives@ == self.spec_representatives(),
    {
        self.representatives.as_slice()
    }

    /// Returns the number of the columns of one row of [`next`](Self::next).
    pub fn width(&self) -> (width: usize)
        ensures
            width == self.spec_width(),
    {
        self.width
    }

    /// Returns the state that each state and each class goes to, one row for
    /// each state.
    ///
    /// The row of the state `s` starts at `s * width`, and the class `c` is at
    /// the column `c`.
    pub fn next(&self) -> (next: &[u16])
        ensures
            next@ == self.spec_next(),
    {
        self.next.as_slice()
    }

    /// Returns the rule that each state accepts, plus one, or 0 if the state
    /// does not accept.
    pub fn accept(&self) -> (accept: &[u16])
        ensures
            accept@ == self.spec_accept(),
    {
        self.accept.as_slice()
    }

    /// Returns the state at which each start condition begins a scan.
    pub fn start(&self) -> (start: &[u16])
        ensures
            start@ == self.spec_start(),
    {
        self.start.as_slice()
    }

    /// Returns the number of the states of the table, the dead state
    /// included.
    pub fn state_count(&self) -> (count: usize)
        ensures
            count == self.spec_accept().len(),
    {
        self.accept.len()
    }
}

/// A row of the table gives the step of the automaton for each byte: the
/// row of state `state` reads the class of `byte` into the state that `dfa`
/// goes to, plus one, or into the dead state where `dfa` stops.
pub proof fn lemma_tables_step(
    tables: &Tables,
    dfa: &Dfa<ByteRange>,
    accepts: &Accepts<u16>,
    state: int,
    byte: u8,
)
    requires
        dfa.well_formed(),
        tabulates(tables, dfa, accepts),
        0 <= state < dfa.spec_state_count(),
    ensures
        tables.spec_next()[cell(
            tables.spec_width() as int,
            state + 1,
            tables.spec_classes()[byte as int] as int,
        )] == encoded(target_of(dfa.spec_transitions()[state], byte)),
{
    let groups = dfa.spec_transitions();
    let width = tables.spec_width() as int;
    let reps = tables.spec_representatives();
    let class = tables.spec_classes()[byte as int] as int;
    assert(0 <= class < width);
    assert(tables.spec_next()[cell(width, state + 1, class)] == entry(groups, reps, state + 1, class));
    let transitions = groups[state];
    if class == 0 {
        assert(!labelled(groups, byte));
        if exists|k: int| 0 <= k < transitions.len() && #[trigger] transitions[k].label.spec_matches(byte) {
            let k = choose|k: int| 0 <= k < transitions.len() && #[trigger] transitions[k].label.spec_matches(byte);
            assert(groups[state][k].label.spec_matches(byte));
        }
    } else {
        let other = reps[class - 1];
        assert(same_labels(groups, byte, other));
        assert forall|k: int| 0 <= k < transitions.len() implies (#[trigger] transitions[k].label.spec_matches(byte)
            <==> transitions[k].label.spec_matches(other)) by {
            assert(groups[state][k].label.spec_matches(byte) <==> groups[state][k].label.spec_matches(other));
        }
        if exists|k: int| 0 <= k < transitions.len() && #[trigger] transitions[k].label.spec_matches(byte) {
            let k = choose|k: int| 0 <= k < transitions.len() && #[trigger] transitions[k].label.spec_matches(byte);
            assert(transitions[k].label.spec_matches(other));
            let j = choose|j: int| 0 <= j < transitions.len() && #[trigger] transitions[j].label.spec_matches(other);
            assert(transitions[j].label.spec_matches(byte));
            if j < k {
                assert(!groups[state][k].label.spec_matches(byte));
            } else if k < j {
                assert(!groups[state][j].label.spec_matches(byte));
            }
        } else {
            assert forall|j: int| 0 <= j < transitions.len() implies !#[trigger] transitions[j].label.spec_matches(other) by {
                assert(!transitions[j].label.spec_matches(byte));
            }
        }
    }
}

/// The number that a table holds for the states of a scan of an automaton:
/// its one state plus one, or 0 for a scan that stopped.
pub open spec fn scanned(states: Seq<StateId>) -> int {
    if states.len() == 1 {
        states[0]@ as int + 1
    } else {
        0
    }
}

/// The state of the tables after a scan under `start` reads `input`, read
/// from the tables alone: this is the scan that the emitted source holds.
pub open spec fn table_scan(tables: &Tables, start: int, input: Seq<u8>) -> int
    decreases input.len(),
{
    if input.len() == 0 {
        tables.spec_start()[start] as int
    } else {
        tables.spec_next()[cell(
            tables.spec_width() as int,
            table_scan(tables, start, input.drop_last()),
            tables.spec_classes()[input.last() as int] as int,
        )] as int
    }
}

/// The tables give the same scan as the automaton: a scan of the tables reads
/// each input into the state of the scan of `dfa`, plus one, or into the dead
/// state where that scan stopped, and the state accepts the rule that
/// `accepts` gives that state.
pub proof fn lemma_tables_scan_like(
    tables: &Tables,
    dfa: &Dfa<ByteRange>,
    accepts: &Accepts<u16>,
    start: int,
    input: Seq<u8>,
)
    requires
        dfa.well_formed(),
        tabulates(tables, dfa, accepts),
        0 <= start < dfa.spec_starts().len(),
    ensures
        table_scan(tables, start, input) == scanned(scan(dfa, start, input)),
        tables.spec_accept()[table_scan(tables, start, input)] == if scan(dfa, start, input).len() == 1 {
            marked(accepts.spec_accepts()[scan(dfa, start, input)[0]@ as int])
        } else {
            0
        },
    decreases input.len(),
{
    let count = dfa.spec_state_count();
    lemma_scan_below(dfa, start, input);
    let states = scan(dfa, start, input);
    if input.len() == 0 {
        assert(dfa.spec_starts()[start]@ < count);
        assert(tables.spec_start()[start] == (dfa.spec_starts()[start]@ + 1) as u16);
    } else {
        let prefix = input.drop_last();
        let byte = input.last();
        lemma_tables_scan_like(tables, dfa, accepts, start, prefix);
        lemma_scan_below(dfa, start, prefix);
        let before = scan(dfa, start, prefix);
        let width = tables.spec_width() as int;
        let class = tables.spec_classes()[byte as int] as int;
        assert(0 <= class < width);
        if before.len() == 1 {
            let state = before[0]@ as int;
            lemma_tables_step(tables, dfa, accepts, state, byte);
            match target_of(dfa.spec_transitions()[state], byte) {
                Some(target) => {
                    assert(states =~= seq![target]);
                },
                None => {
                    assert(states.len() == 0);
                },
            }
        } else {
            assert(tables.spec_next()[cell(width, 0, class)] == entry(
                dfa.spec_transitions(),
                tables.spec_representatives(),
                0,
                class,
            ));
            assert(states.len() == 0);
        }
    }
    if states.len() == 1 {
        assert(tables.spec_accept()[states[0]@ as int + 1] == marked(
            accepts.spec_accepts()[states[0]@ as int],
        ));
    }
}

} // verus!
