use lxr_codegen::automata::dfa::{Builder, Dfa, Execution};
use lxr_codegen::automata::encoding::ByteRange;
use lxr_codegen::automata::minimize::global_classes;
use lxr_codegen::automata::{Automaton, StateId};

/// The labels of these tests: ASCII characters, as bytes.
type Symbols = ByteRange;

fn only(symbol: char) -> Symbols {
    ByteRange::new(symbol as u8, symbol as u8)
}

fn range(low: char, high: char) -> Symbols {
    ByteRange::new(low as u8, high as u8)
}

fn state(index: usize) -> StateId {
    StateId::new(index)
}

/// Builds an automaton of `transitions.len()` states: the transitions of each
/// state, the states that accept, and the start states.
fn dfa(transitions: &[&[(Symbols, usize)]], accepts: &[bool], starts: &[usize]) -> Dfa<Symbols> {
    let mut builder: Builder<Symbols> = Builder::new();
    for _ in transitions {
        builder.add_state();
    }
    for (source, group) in transitions.iter().enumerate() {
        for &(label, target) in group.iter() {
            builder.add_transition(state(source), label, state(target));
        }
    }
    for (index, &accepting) in accepts.iter().enumerate() {
        if accepting {
            builder.mark_accept(state(index));
        }
    }
    let starts: Vec<StateId> = starts.iter().map(|&index| state(index)).collect();
    builder.build(&starts).expect("the test automaton is below its capacity")
}

/// Returns the length of the longest match of `automaton` at the start of
/// `input` under start `index`.
fn scan(automaton: &Dfa<Symbols>, index: usize, input: &str) -> Option<usize> {
    Execution::new(automaton)
        .longest_match(index, input.as_bytes(), |_| ())
        .map(|found| found.length)
}

/// Minimizes `automaton`, and gives each state that accepts the same meaning.
fn minimized(automaton: &Dfa<Symbols>) -> Dfa<Symbols> {
    automaton.minimize(|_| ()).dfa
}

/// Builds an automaton that reads `"ab"` and `"cb"` through two chains that do not join.
fn twins() -> Dfa<Symbols> {
    dfa(
        &[
            &[(only('a'), 1), (only('c'), 3)],
            &[(only('b'), 2)],
            &[],
            &[(only('b'), 4)],
            &[],
        ],
        &[false, false, true, false, true],
        &[0],
    )
}

/// Builds an automaton of two states that accept, and that read the same input after them.
fn two_accepts() -> Dfa<Symbols> {
    dfa(
        &[&[(only('a'), 1), (only('b'), 2)], &[], &[]],
        &[false, true, true],
        &[0],
    )
}

/// Asserts that `automaton` and its minimization give the same match for each input.
fn same_matches(automaton: &Dfa<Symbols>, inputs: &[&str]) {
    let minimal = minimized(automaton);
    for index in 0..automaton.start_count() {
        for input in inputs {
            assert_eq!(
                scan(&minimal, index, input),
                scan(automaton, index, input),
                "input {input:?} under start {index}"
            );
        }
    }
}

#[test]
fn two_states_that_read_the_same_input_give_one_state() {
    let minimal = minimized(&twins());

    assert_eq!(minimal.state_count(), 3);
    assert_eq!(scan(&minimal, 0, "ab"), Some(2));
    assert_eq!(scan(&minimal, 0, "cb"), Some(2));
    assert_eq!(scan(&minimal, 0, "a"), None);
}

#[test]
fn a_minimal_automaton_keeps_each_state() {
    let automaton = dfa(&[&[(only('a'), 1)], &[]], &[false, true], &[0]);
    let minimal = minimized(&automaton);

    assert_eq!(minimal.state_count(), 2);
    assert_eq!(minimal, automaton);
}

#[test]
fn a_state_holds_the_group_of_each_state_of_the_automaton_before() {
    let minimization = twins().minimize(|_| ());

    assert_eq!(
        minimization.states,
        vec![state(0), state(1), state(2), state(1), state(2)]
    );
}

#[test]
fn two_states_of_a_different_accept_stay_apart() {
    let automaton = two_accepts();
    let minimal = automaton.minimize(|id| id.index()).dfa;

    assert_eq!(minimized(&automaton).state_count(), 2);
    assert_eq!(minimal.state_count(), 3);
    assert_eq!(scan(&minimal, 0, "a"), Some(1));
    assert_eq!(scan(&minimal, 0, "b"), Some(1));
}

#[test]
fn a_state_that_accepts_stays_apart_from_a_state_that_does_not() {
    let automaton = dfa(
        &[&[(only('a'), 1), (only('b'), 2)], &[], &[]],
        &[false, true, false],
        &[0],
    );
    let minimal = minimized(&automaton);

    assert_eq!(minimal.state_count(), 3);
    assert_eq!(scan(&minimal, 0, "a"), Some(1));
    assert_eq!(scan(&minimal, 0, "b"), None);
}

#[test]
fn a_state_that_stops_stays_apart_from_a_state_that_reads_on() {
    let automaton = dfa(
        &[&[(only('a'), 1), (only('b'), 2)], &[(only('a'), 1)], &[]],
        &[false, false, false],
        &[0],
    );
    let minimal = minimized(&automaton);

    assert_eq!(minimal.state_count(), 3);
}

#[test]
fn a_loop_joins_the_states_that_read_it() {
    let automaton = dfa(
        &[
            &[(range('a', 'z'), 1)],
            &[(range('a', 'z'), 2)],
            &[(range('a', 'z'), 2)],
        ],
        &[false, true, true],
        &[0],
    );
    let minimal = minimized(&automaton);

    assert_eq!(minimal.state_count(), 2);
    assert_eq!(scan(&minimal, 0, "abcde"), Some(5));
}

#[test]
fn each_start_of_the_automaton_gives_a_start_of_the_result() {
    let automaton = dfa(
        &[&[(only('a'), 2)], &[(only('b'), 3)], &[], &[]],
        &[false, false, true, true],
        &[0, 1],
    );
    let minimal = minimized(&automaton);

    assert_eq!(minimal.start_count(), 2);
    assert_eq!(minimal.state_count(), 3);
    assert_eq!(scan(&minimal, 0, "a"), Some(1));
    assert_eq!(scan(&minimal, 0, "b"), None);
    assert_eq!(scan(&minimal, 1, "b"), Some(1));
}

#[test]
fn two_starts_that_read_the_same_input_give_one_state() {
    let automaton = dfa(
        &[&[(only('a'), 2)], &[(only('a'), 3)], &[], &[]],
        &[false, false, true, true],
        &[0, 1],
    );
    let minimal = minimized(&automaton);

    assert_eq!(minimal.start_count(), 2);
    assert_eq!(minimal.state_count(), 2);
    assert_eq!(minimal.start_state(0), minimal.start_state(1));
    assert_eq!(scan(&minimal, 1, "a"), Some(1));
}

#[test]
fn the_minimal_automaton_gives_the_same_match_as_the_automaton() {
    let inputs = [
        "", "a", "b", "c", "d", "z", "ab", "cb", "ac", "abc", "cbb", "zzz",
    ];

    same_matches(&twins(), &inputs);
    same_matches(&two_accepts(), &inputs);
    same_matches(
        &dfa(
            &[
                &[(range('a', 'z'), 1)],
                &[(range('a', 'z'), 1)],
                &[(only('a'), 0)],
            ],
            &[false, true, true],
            &[0, 2],
        ),
        &inputs,
    );
}

#[test]
fn a_minimization_maps_each_start_to_the_group_of_its_start() {
    let automaton = dfa(
        &[&[(only('a'), 2)], &[(only('a'), 3)], &[], &[]],
        &[false, false, true, true],
        &[1, 0],
    );
    let minimization = automaton.minimize(|_| ());

    assert_eq!(minimization.states, vec![state(0), state(0), state(1), state(1)]);
    assert_eq!(minimization.dfa.start_states(), &[state(0), state(0)]);
    assert!(minimization.dfa.accepts(state(1)));
    assert!(!minimization.dfa.accepts(state(0)));
}

#[test]
fn global_classes_are_empty_without_labeled_transitions() {
    let mut builder: Builder<ByteRange> = Builder::new();
    let start = builder.add_state();
    let dfa = builder
        .build(&[start])
        .expect("the test DFA is below its capacity");

    assert!(global_classes(&dfa).is_empty());
}

#[test]
fn a_global_class_records_each_source_target_or_dead_state() {
    let mut builder: Builder<ByteRange> = Builder::new();
    let first = builder.add_state();
    let second = builder.add_state();
    let target = builder.add_state();
    builder.add_transition(first, ByteRange::new(b'a', b'c'), target);
    let dfa = builder
        .build(&[first, second])
        .expect("the test DFA is below its capacity");

    let classes = global_classes(&dfa);

    assert_eq!(classes.len(), 1);
    assert_eq!(classes[0].label, ByteRange::new(b'a', b'c'));
    assert_eq!(classes[0].target_by_source, vec![Some(target), None, None]);
}

#[test]
fn global_classes_split_overlaps_between_dfa_states() {
    let mut builder: Builder<ByteRange> = Builder::new();
    let first = builder.add_state();
    let second = builder.add_state();
    let left = builder.add_state();
    let right = builder.add_state();
    builder.add_transition(first, ByteRange::new(b'a', b'f'), left);
    builder.add_transition(second, ByteRange::new(b'd', b'z'), right);
    let dfa = builder
        .build(&[first, second])
        .expect("the test DFA is below its capacity");

    let classes = global_classes(&dfa);

    assert_eq!(
        classes
            .iter()
            .map(|class| (class.label, class.target_by_source.clone()))
            .collect::<Vec<_>>(),
        vec![
            (
                ByteRange::new(b'a', b'c'),
                vec![Some(left), None, None, None],
            ),
            (
                ByteRange::new(b'd', b'f'),
                vec![Some(left), Some(right), None, None],
            ),
            (
                ByteRange::new(b'g', b'z'),
                vec![None, Some(right), None, None],
            ),
        ]
    );
}

#[test]
fn minimization_merges_identical_suffixes_after_a_choice() {
    let mut builder: Builder<ByteRange> = Builder::new();
    let start = builder.add_state();
    let mut left = builder.add_state();
    let mut right = builder.add_state();
    builder.add_transition(start, ByteRange::new(b'a', b'a'), left);
    builder.add_transition(start, ByteRange::new(b'b', b'b'), right);

    for _ in 0..3 {
        let next_left = builder.add_state();
        let next_right = builder.add_state();
        builder.add_transition(left, ByteRange::new(b'a', b'a'), next_left);
        builder.add_transition(right, ByteRange::new(b'a', b'a'), next_right);
        left = next_left;
        right = next_right;
    }

    let accept = builder.add_state();
    builder.add_transition(left, ByteRange::new(b'a', b'a'), accept);
    builder.add_transition(right, ByteRange::new(b'a', b'a'), accept);
    builder.mark_accept(accept);
    let dfa = builder
        .build(&[start])
        .expect("the test DFA is below its capacity");

    let dfa = dfa.minimized();

    let start = dfa.start_state(0);
    let after_a = dfa.step(start, b'a').expect("the A branch is present");
    let after_b = dfa.step(start, b'b').expect("the B branch is present");
    assert_eq!(dfa.state_count(), 6);
    assert_eq!(after_a, after_b);

    let mut state = after_a;
    for _ in 0..4 {
        state = dfa.step(state, b'a').expect("the A suffix is present");
    }
    assert!(dfa.accepts(state));
}

#[test]
fn minimization_keeps_distinct_accept_values_separate() {
    let mut builder: Builder<ByteRange, &'static str> = Builder::new();
    let start = builder.add_state();
    let first = builder.add_state();
    let second = builder.add_state();
    builder.add_transition(start, ByteRange::new(b'a', b'a'), first);
    builder.add_transition(start, ByteRange::new(b'b', b'b'), second);
    builder.set_accept(first, "first");
    builder.set_accept(second, "second");
    let dfa = builder
        .build(&[start])
        .expect("the test DFA is below its capacity");

    let dfa = dfa.minimized();

    let start = dfa.start_state(0);
    let first = dfa
        .step(start, b'a')
        .expect("the first transition is present");
    let second = dfa
        .step(start, b'b')
        .expect("the second transition is present");
    assert_ne!(first, second);
    assert_eq!(dfa.accept(first), Some(&"first"));
    assert_eq!(dfa.accept(second), Some(&"second"));
}

#[test]
fn minimization_keeps_a_dead_equivalent_start_state() {
    let mut builder: Builder<ByteRange> = Builder::new();
    let start = builder.add_state();
    let dfa = builder
        .build(&[start])
        .expect("the test DFA is below its capacity");

    let dfa = dfa.minimized();

    assert_eq!(dfa.state_count(), 1);
    assert!(dfa.transitions(dfa.start_state(0)).is_empty());
}

#[test]
fn two_states_of_one_accept_value_join() {
    let mut builder: Builder<ByteRange, u32> = Builder::new();
    let start = builder.add_state();
    let first = builder.add_state();
    let second = builder.add_state();
    builder.add_transition(start, ByteRange::new(b'a', b'a'), first);
    builder.add_transition(start, ByteRange::new(b'b', b'b'), second);
    builder.set_accept(first, 4);
    builder.set_accept(second, 4);
    let dfa = builder
        .build(&[start])
        .expect("the test DFA is below its capacity");

    let dfa = dfa.minimized();

    assert_eq!(dfa.state_count(), 2);
    let joined = dfa.step(dfa.start_state(0), b'b').expect("the B branch is present");
    assert_eq!(dfa.accept(joined), Some(&4));
}

#[test]
fn minimization_joins_exactly_the_states_that_answer_alike() {
    let mut builder: Builder<ByteRange> = Builder::new();
    let start = builder.add_state();
    let dead_end = builder.add_state();
    let middle = builder.add_state();
    let last = builder.add_state();
    builder.add_transition(start, only('a'), dead_end);
    builder.add_transition(start, only('b'), middle);
    builder.add_transition(middle, only('c'), last);
    let dfa = builder
        .build(&[start])
        .expect("the test DFA is below its capacity");

    let minimization = dfa.minimize(|_| ());

    assert_eq!(minimization.dfa.state_count(), 3);
    assert_eq!(minimization.states[dead_end.index()], minimization.states[last.index()]);
    assert_ne!(minimization.states[dead_end.index()], minimization.states[middle.index()]);
    assert_ne!(minimization.states[start.index()], minimization.states[middle.index()]);
}

#[test]
fn states_that_never_accept_join_the_dead_state() {
    let mut builder: Builder<ByteRange> = Builder::new();
    let start = builder.add_state();
    let next = builder.add_state();
    builder.add_transition(start, only('a'), next);
    let dfa = builder
        .build(&[start])
        .expect("the test DFA is below its capacity");

    let minimal = dfa.minimized();

    assert_eq!(minimal.state_count(), 1);
    assert_eq!(minimal.step(minimal.start_state(0), b'a'), None);
}

#[test]
fn a_dead_end_leaves_the_result_and_its_transition_goes() {
    let mut builder: Builder<ByteRange> = Builder::new();
    let start = builder.add_state();
    let accept = builder.add_state();
    let dead_end = builder.add_state();
    builder.add_transition(start, only('a'), accept);
    builder.add_transition(start, only('b'), dead_end);
    builder.mark_accept(accept);
    let dfa = builder
        .build(&[start])
        .expect("the test DFA is below its capacity");

    let minimal = dfa.minimized();

    assert_eq!(minimal.state_count(), 2);
    let first = minimal.start_state(0);
    let reached = minimal.step(first, b'a').expect("the accept stays");
    assert!(minimal.accepts(reached));
    assert_eq!(minimal.step(first, b'b'), None);
}

#[test]
fn initial_partition_groups_non_accepting_states_with_dead() {
    let mut builder: Builder<ByteRange> = Builder::new();
    let first = builder.add_state();
    let _second = builder.add_state();
    let dfa = builder
        .build(&[first])
        .expect("the test DFA is below its capacity");

    let minimal = dfa.minimized();

    assert_eq!(minimal.state_count(), 1);
    assert!(!minimal.accepts(minimal.start_state(0)));
}

#[test]
fn initial_partition_groups_equal_accept_values_and_separates_distinct_ones() {
    let mut builder: Builder<ByteRange, u32> = Builder::new();
    let first = builder.add_state();
    let second = builder.add_state();
    let different = builder.add_state();
    let _non_accepting = builder.add_state();
    builder.set_accept(first, 7);
    builder.set_accept(second, 7);
    builder.set_accept(different, 3);
    let dfa = builder
        .build(&[first])
        .expect("the test DFA is below its capacity");

    let minimal = dfa.minimized();

    assert_eq!(minimal.state_count(), 2);
    let start = minimal.start_state(0);
    assert_eq!(minimal.accept(start), Some(&7));
    let other = StateId::new(1 - start.index());
    assert_eq!(minimal.accept(other), Some(&3));
}

/// An automaton of two chains after a choice, with a dead end and a rule of
/// its own at the end of one chain.
fn chains() -> Dfa<ByteRange, u8> {
    let mut builder: Builder<ByteRange, u8> = Builder::new();
    let start = builder.add_state();
    let left = builder.add_state();
    let right = builder.add_state();
    let left_end = builder.add_state();
    let right_end = builder.add_state();
    let dead_end = builder.add_state();
    builder.add_transition(start, only('a'), left);
    builder.add_transition(start, only('b'), right);
    builder.add_transition(start, only('c'), dead_end);
    builder.add_transition(left, only('a'), left_end);
    builder.add_transition(right, only('a'), right_end);
    builder.add_transition(left_end, only('b'), left);
    builder.add_transition(right_end, only('b'), right);
    builder.set_accept(left_end, 1);
    builder.set_accept(right_end, 1);
    builder.set_accept(right, 2);
    builder
        .build(&[start, left])
        .expect("the test DFA is below its capacity")
}

/// The accept value after `input` from `state`, `None` where the scan dies.
fn accept_after(dfa: &Dfa<ByteRange, u8>, state: StateId, input: &[u8]) -> Option<u8> {
    let mut state = state;
    for &byte in input {
        state = dfa.step(state, byte)?;
    }
    dfa.accept(state).copied()
}

#[test]
fn a_minimized_dfa_answers_each_input_as_the_dfa_does() {
    let dfa = chains();
    let minimal = chains().minimized();
    assert!(minimal.state_count() < dfa.state_count());

    let mut inputs: Vec<Vec<u8>> = vec![vec![]];
    for _ in 0..5 {
        let mut longer = Vec::new();
        for input in &inputs {
            for byte in [b'a', b'b', b'c'] {
                let mut next = input.clone();
                next.push(byte);
                longer.push(next);
            }
        }
        inputs.extend(longer);
        inputs.sort();
        inputs.dedup();
    }
    for start in 0..2 {
        for input in &inputs {
            assert_eq!(
                accept_after(&minimal, minimal.start_state(start), input),
                accept_after(&dfa, dfa.start_state(start), input),
                "start {start}, input {input:?}"
            );
        }
    }
}
