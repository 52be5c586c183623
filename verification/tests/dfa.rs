use lxr_codegen::automata::dfa::{Builder, Dfa};
use lxr_codegen::automata::encoding::ByteRange;
use lxr_codegen::automata::table::StateTableBuilder;
use lxr_codegen::automata::{BuildError, Label, StateId, Transition};
use std::cell::Cell;

/// The labels of these tests: ASCII characters, as bytes.
type Symbols = ByteRange;

fn only(symbol: char) -> Symbols {
    ByteRange::new(symbol as u8, symbol as u8)
}

fn range(low: char, high: char) -> Symbols {
    ByteRange::new(low as u8, high as u8)
}

fn example() -> Dfa<Symbols, &'static str> {
    let mut table = StateTableBuilder::new();
    let start = table.add_state();
    let accept = table.add_state();
    let other_start = table.add_state();
    table.add_transition(start, range('a', 'm'), accept);
    table.add_transition(start, range('n', 'z'), other_start);
    table.set_accept(accept, "identifier");

    Dfa::new(
        table
            .build(&[start, other_start])
            .expect("the table is below its capacity"),
    )
}

fn builder() -> Builder<Symbols> {
    Builder::new()
}

fn with_states(count: usize) -> (Builder<Symbols>, Vec<StateId>) {
    let mut builder = builder();
    let states = (0..count).map(|_| builder.add_state()).collect();
    (builder, states)
}

#[test]
fn a_dfa_keeps_its_states_and_transitions() {
    let dfa = example();

    assert_eq!(dfa.state_count(), 3);
    assert_eq!(
        dfa.transitions(StateId::new(0)),
        &[
            Transition {
                label: range('a', 'm'),
                target: StateId::new(1),
            },
            Transition {
                label: range('n', 'z'),
                target: StateId::new(2),
            },
        ]
    );
    assert!(dfa.transitions(StateId::new(1)).is_empty());
}

#[test]
fn a_dfa_keeps_its_accept_values() {
    let dfa = example();

    assert!(!dfa.accepts(StateId::new(0)));
    assert!(dfa.accepts(StateId::new(1)));
    assert_eq!(dfa.accept(StateId::new(1)), Some(&"identifier"));
    assert_eq!(dfa.accept(StateId::new(2)), None);
}

#[test]
fn a_dfa_keeps_its_start_state_sequence() {
    let dfa = example();

    assert_eq!(dfa.start_states(), &[StateId::new(0), StateId::new(2)]);
    assert_eq!(dfa.start_state(0), StateId::new(0));
    assert_eq!(dfa.start_state(1), StateId::new(2));
}

#[test]
fn a_step_follows_the_transition_that_matches_the_symbol() {
    let dfa = example();

    assert_eq!(dfa.step(StateId::new(0), b'a'), Some(StateId::new(1)));
    assert_eq!(dfa.step(StateId::new(0), b'm'), Some(StateId::new(1)));
    assert_eq!(dfa.step(StateId::new(0), b'n'), Some(StateId::new(2)));
    assert_eq!(dfa.step(StateId::new(0), b'z'), Some(StateId::new(2)));
}

#[test]
fn a_step_without_a_matching_transition_returns_nothing() {
    let dfa = example();

    assert_eq!(dfa.step(StateId::new(0), b'A'), None);
    assert_eq!(dfa.step(StateId::new(1), b'a'), None);
}


#[test]
fn a_new_builder_holds_no_state() {
    let builder = Builder::<Symbols>::new();

    assert_eq!(builder.state_count(), 0);
}

#[test]
fn a_default_builder_holds_no_state() {
    let builder = Builder::<Symbols>::default();

    assert_eq!(builder.state_count(), 0);
}

#[test]
fn the_state_count_reports_the_shared_table_count() {
    let (builder, _) = with_states(2);

    assert_eq!(builder.state_count(), 2);
}

#[test]
fn adding_states_returns_sequential_identifiers() {
    let mut builder = builder();

    assert_eq!(builder.add_state(), StateId::new(0));
    assert_eq!(builder.add_state(), StateId::new(1));
}

#[test]
fn adding_a_transition_keeps_its_label_and_target() {
    let (mut builder, states) = with_states(2);
    builder.add_transition(states[0], only('a'), states[1]);

    let table = builder
        .build(&[states[0]])
        .expect("the table is below its capacity");
    assert_eq!(
        table.transitions(states[0]),
        &[Transition {
            label: only('a'),
            target: states[1],
        }]
    );
}

#[test]
fn a_state_can_point_back_at_itself() {
    let (mut builder, states) = with_states(1);
    builder.add_transition(states[0], only('a'), states[0]);

    let table = builder
        .build(&states)
        .expect("the table is below its capacity");
    assert_eq!(table.transitions(states[0])[0].target, states[0]);
}

#[test]
fn a_transition_can_point_at_a_state_that_comes_later() {
    let (mut builder, states) = with_states(1);
    let later = StateId::new(1);
    builder.add_transition(states[0], only('a'), later);
    builder.add_state();

    let table = builder
        .build(&states)
        .expect("the table is below its capacity");
    assert_eq!(table.transitions(states[0])[0].target, later);
}

#[test]
fn setting_an_accept_returns_and_replaces_its_prior_value() {
    let mut builder = Builder::<Symbols, &str>::new();
    let state = builder.add_state();

    assert_eq!(builder.set_accept(state, "identifier"), None);
    assert_eq!(builder.set_accept(state, "keyword"), Some("identifier"));

    let table = builder
        .build(&[state])
        .expect("the table is below its capacity");
    assert_eq!(table.accept(state), Some(&"keyword"));
}

#[test]
fn marking_accept_at_the_same_state_two_times_changes_nothing() {
    let (mut builder, states) = with_states(1);
    builder.mark_accept(states[0]);
    builder.mark_accept(states[0]);

    let table = builder
        .build(&states)
        .expect("the table is below its capacity");
    assert!(table.accepts(states[0]));
}

#[test]
fn building_keeps_states_transitions_accepts_and_starts() {
    let mut builder = Builder::<ByteRange, &str>::new();
    let first = builder.add_state();
    let second = builder.add_state();
    builder.add_transition(first, ByteRange::new(b'a', b'a'), second);
    builder.set_accept(second, "identifier");

    let dfa = builder
        .build(&[second, first])
        .expect("the builder is below its capacity");

    assert_eq!(dfa.state_count(), 2);
    assert_eq!(dfa.transitions(first)[0].target, second);
    assert_eq!(dfa.accept(second), Some(&"identifier"));
    assert_eq!(dfa.start_states(), &[second, first]);
}

#[test]
fn a_builder_can_have_a_test_capacity() {
    let mut builder = Builder::<Symbols>::with_capacity(2);
    builder.add_state();
    builder.add_state();
    builder.add_state();

    assert!(matches!(
        builder.build(&[StateId::new(0)]),
        Err(BuildError::TooManyStates { capacity: 2 })
    ));
}

#[test]
fn a_builder_at_its_capacity_builds() {
    let mut builder = Builder::<ByteRange, ()>::with_capacity(2);
    let start = builder.add_state();
    builder.add_state();

    let dfa = builder
        .build(&[start])
        .expect("the builder is at its capacity");
    assert_eq!(dfa.state_count(), 2);
}

#[test]
fn adding_a_state_past_the_capacity_records_an_error() {
    let mut builder = Builder::<Symbols, ()>::with_capacity(2);
    let start = builder.add_state();
    builder.add_state();
    builder.add_state();

    assert!(matches!(
        builder.build(&[start]),
        Err(BuildError::TooManyStates { capacity: 2 })
    ));
}

#[test]
fn building_propagates_a_recorded_capacity_error() {
    let mut builder = Builder::<ByteRange, ()>::with_capacity(1);
    let start = builder.add_state();
    builder.add_state();

    assert!(matches!(
        builder.build(&[start]),
        Err(BuildError::TooManyStates { capacity: 1 })
    ));
}

#[test]
fn a_builder_past_its_capacity_takes_no_more_mutations() {
    let mut builder = Builder::<ByteRange, ()>::with_capacity(1);
    let start = builder.add_state();
    let outside = builder.add_state();
    builder.add_transition(start, ByteRange::new(b'a', b'a'), outside);
    builder.mark_accept(outside);

    assert!(matches!(
        builder.build(&[start]),
        Err(BuildError::TooManyStates { capacity: 1 })
    ));
}

/// A label that counts the calls of its match.
#[derive(Clone, Copy)]
struct CountedLabel {
    inner: Symbols,
    calls: &'static Cell<usize>,
}

impl Label for CountedLabel {
    type Symbol = u8;

    fn spec_matches(&self, symbol: u8) -> bool {
        self.inner.low <= symbol && symbol <= self.inner.high
    }

    fn matches(&self, symbol: u8) -> bool {
        self.calls.set(self.calls.get() + 1);
        self.inner.matches(symbol)
    }
}

#[test]
fn a_step_stops_after_the_matching_transition() {
    let calls: &'static Cell<usize> = Box::leak(Box::new(Cell::new(0)));
    let mut table: StateTableBuilder<CountedLabel, ()> = StateTableBuilder::new();
    let start = table.add_state();
    let first = table.add_state();
    let second = table.add_state();
    table.add_transition(start, CountedLabel { inner: only('a'), calls }, first);
    table.add_transition(start, CountedLabel { inner: only('b'), calls }, second);
    let dfa = Dfa::new(
        table
            .build(&[start])
            .expect("the table is below its capacity"),
    );

    assert_eq!(dfa.step(start, b'a'), Some(first));
    assert_eq!(calls.get(), 1);
}
