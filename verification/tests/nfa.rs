use lxr_codegen::automata::encoding::ByteRange;
use lxr_codegen::automata::nfa::{Builder, Nfa, epsilon_closure};
use lxr_codegen::automata::state_set::StateSet;
use lxr_codegen::automata::{BuildError, Execution as _, Match, StateId, Transition};

/// The labels of these tests: ASCII characters, as bytes.
type Symbols = ByteRange;

fn only(symbol: char) -> Symbols {
    ByteRange::new(symbol as u8, symbol as u8)
}

fn range(low: char, high: char) -> Symbols {
    ByteRange::new(low as u8, high as u8)
}

#[derive(Debug, Clone, Copy, PartialEq, Eq)]
struct Path {
    entry: StateId,
    exit: StateId,
}

fn builder() -> Builder<Symbols> {
    Builder::new()
}

fn literal(builder: &mut Builder<Symbols>, text: &str) -> Path {
    let entry = builder.add_state();
    let exit = text.chars().fold(entry, |current, symbol| {
        let next = builder.add_state();
        builder.add_transition(current, only(symbol), next);
        next
    });
    builder.mark_accept(exit);
    Path { entry, exit }
}

fn star(builder: &mut Builder<Symbols>, symbol: char) -> StateId {
    let state = builder.add_state();
    builder.add_transition(state, only(symbol), state);
    builder.mark_accept(state);
    state
}

fn stepped(nfa: &Nfa<Symbols>, states: &[StateId], symbol: u8) -> Vec<StateId> {
    nfa.step(states, symbol)
}

fn closure(nfa: &Nfa<Symbols>, seeds: &[StateId]) -> Vec<usize> {
    let mut states = StateSet::new(nfa.state_count());
    epsilon_closure(nfa, seeds, &mut states);
    states.members().iter().map(|id| id.index()).collect()
}

fn execution(nfa: &Nfa<Symbols>) -> lxr_codegen::automata::nfa::Execution<'_, Symbols> {
    let mut execution = nfa.execution();
    execution.restart(0);
    execution
}

/// The accept of each state, in the manner of a lexer table.
fn accepts(count: usize, marks: &[(StateId, u32)]) -> Vec<Option<u32>> {
    let mut table = vec![None; count];
    for &(state, accept) in marks {
        table[state.index()] = Some(accept);
    }
    table
}

fn scan(nfa: &Nfa<Symbols>, table: &[Option<u32>], input: &str) -> Option<Match<u32>> {
    scan_under(nfa, table, 0, input)
}

fn scan_under(
    nfa: &Nfa<Symbols>,
    table: &[Option<u32>],
    start: usize,
    input: &str,
) -> Option<Match<u32>> {
    let symbols: Vec<u8> = input.bytes().collect();
    nfa.matcher()
        .longest_match(start, &symbols, |states| lowest(table, states))
}

fn conditions(words: &[&str]) -> (Nfa<Symbols>, Vec<Option<u32>>) {
    let mut builder = builder();
    let paths: Vec<_> = words
        .iter()
        .map(|word| literal(&mut builder, word))
        .collect();
    let starts: Vec<StateId> = paths.iter().map(|path| path.entry).collect();
    let nfa = builder
        .build(&starts)
        .expect("a test stays below the capacity");

    let marks: Vec<(StateId, u32)> = paths
        .iter()
        .enumerate()
        .map(|(index, path)| (path.exit, index as u32))
        .collect();
    let table = accepts(nfa.state_count(), &marks);
    (nfa, table)
}

fn lowest(table: &[Option<u32>], states: &[StateId]) -> u32 {
    states
        .iter()
        .filter_map(|id| table[id.index()])
        .min()
        .expect("a state of the execution accepts")
}

fn matched(accept: u32, length: usize) -> Option<Match<u32>> {
    Some(Match { accept, length })
}

fn alternation(first: &str, second: &str) -> (Nfa<Symbols>, Vec<Option<u32>>) {
    let mut builder = Builder::new();
    let left = literal(&mut builder, first);
    let right = literal(&mut builder, second);
    let start = builder.add_state();
    builder.add_epsilon_transition(start, left.entry);
    builder.add_epsilon_transition(start, right.entry);
    let nfa = builder
        .build(&[start])
        .expect("a test stays below the capacity");

    let table = accepts(nfa.state_count(), &[(left.exit, 0), (right.exit, 1)]);
    (nfa, table)
}

#[test]
fn a_step_follows_a_transition_that_matches_the_symbol() {
    let mut builder = builder();
    let start = builder.add_state();
    let accept = builder.add_state();
    builder.add_transition(start, range('a', 'z'), accept);
    let nfa = builder
        .build(&[start])
        .expect("the builder is below its capacity");

    assert_eq!(stepped(&nfa, &[start], b'm'), vec![accept]);
    assert_eq!(stepped(&nfa, &[start], b'A'), Vec::new());
}

#[test]
fn a_step_does_not_follow_an_epsilon_transition() {
    let mut builder = builder();
    let start = builder.add_state();
    let accept = builder.add_state();
    builder.add_epsilon_transition(start, accept);
    let nfa = builder
        .build(&[start])
        .expect("the builder is below its capacity");

    assert_eq!(stepped(&nfa, &[start], b'a'), Vec::new());
}

#[test]
fn a_step_yields_a_shared_target_one_time_for_each_transition() {
    let mut builder = builder();
    let start = builder.add_state();
    let accept = builder.add_state();
    builder.add_transition(start, range('a', 'z'), accept);
    builder.add_transition(start, only('e'), accept);
    let nfa = builder
        .build(&[start])
        .expect("the builder is below its capacity");

    assert_eq!(stepped(&nfa, &[start], b'e'), vec![accept, accept]);
}

#[test]
fn a_state_keeps_its_transitions_in_the_sequence_in_which_they_arrived() {
    let mut builder = builder();
    let start = builder.add_state();
    let first = builder.add_state();
    let second = builder.add_state();
    builder.add_transition(start, only('b'), second);
    builder.add_transition(start, only('a'), first);
    let nfa = builder
        .build(&[start])
        .expect("the builder is below its capacity");

    assert_eq!(
        nfa.transitions(start),
        &[
            Transition {
                label: only('b'),
                target: second
            },
            Transition {
                label: only('a'),
                target: first
            },
        ]
    );
    assert_eq!(nfa.transitions(first), &[]);
}

#[test]
fn a_state_keeps_its_epsilon_transitions() {
    let mut builder = builder();
    let start = builder.add_state();
    let first = builder.add_state();
    let second = builder.add_state();
    builder.add_epsilon_transition(start, second);
    builder.add_epsilon_transition(start, first);
    let nfa = builder
        .build(&[start])
        .expect("the builder is below its capacity");

    assert_eq!(nfa.epsilon_targets(start), &[second, first]);
    assert_eq!(nfa.epsilon_targets(first), &[]);
}

#[test]
fn only_a_state_that_the_builder_marked_accepts() {
    let mut builder = builder();
    let start = builder.add_state();
    let accept = builder.add_state();
    builder.mark_accept(accept);
    let nfa = builder
        .build(&[start])
        .expect("the builder is below its capacity");

    assert!(!nfa.accepts(start));
    assert!(nfa.accepts(accept));
    assert_eq!(nfa.state_count(), 2);
}

#[test]
fn each_start_names_its_own_state() {
    let mut builder = builder();
    let code = builder.add_state();
    let string = builder.add_state();
    let nfa = builder
        .build(&[code, string])
        .expect("the builder is below its capacity");

    assert_eq!(nfa.start_states(), &[code, string]);
    assert_eq!(nfa.start_state(0), code);
    assert_eq!(nfa.start_state(1), string);
}

#[test]
fn adding_states_returns_sequential_ids() {
    let mut builder = builder();
    let first = builder.add_state();
    let second = builder.add_state();

    assert_eq!(first.index(), 0);
    assert_eq!(second.index(), 1);
}

#[test]
fn building_keeps_the_states_in_insertion_order() {
    let mut builder = builder();
    let first = builder.add_state();
    let second = builder.add_state();
    builder.mark_accept(second);
    let nfa = builder
        .build(&[second])
        .expect("the builder is below its capacity");

    assert!(!nfa.accepts(first));
    assert!(nfa.accepts(second));
    assert_eq!(nfa.state_count(), 2);
}

#[test]
fn builder_a_state_can_point_back_at_itself() {
    let mut builder = builder();
    let loop_state = builder.add_state();
    builder.add_transition(loop_state, only('a'), loop_state);
    builder.add_epsilon_transition(loop_state, loop_state);
    let nfa = builder
        .build(&[loop_state])
        .expect("the builder is below its capacity");

    assert_eq!(nfa.transitions(loop_state)[0].target, loop_state);
    assert_eq!(nfa.epsilon_targets(loop_state), &[loop_state]);
}

#[test]
fn builder_a_transition_can_point_at_a_state_that_comes_later() {
    let mut builder = builder();
    let start = builder.add_state();
    let accept = StateId::new(1);
    builder.add_transition(start, only('a'), accept);
    builder.add_state();
    let nfa = builder
        .build(&[start])
        .expect("the builder is below its capacity");

    assert_eq!(nfa.transitions(start)[0].target, accept);
}

#[test]
fn accepting_at_the_same_state_two_times_changes_nothing() {
    let mut builder = builder();
    let state = builder.add_state();
    builder.mark_accept(state);
    builder.mark_accept(state);
    let nfa = builder
        .build(&[state])
        .expect("the builder is below its capacity");

    assert!(nfa.accepts(state));
}

#[test]
fn builder_setting_an_accept_returns_and_replaces_its_prior_value() {
    let mut builder = Builder::<Symbols, &str>::new();
    let state = builder.add_state();

    assert_eq!(builder.set_accept(state, "identifier"), None);
    assert_eq!(builder.set_accept(state, "keyword"), Some("identifier"));

    let nfa = builder
        .build(&[state])
        .expect("the builder is below its capacity");
    assert_eq!(nfa.accept(state), Some(&"keyword"));
}

#[test]
fn builder_a_builder_at_its_capacity_builds() {
    let mut builder: Builder<Symbols> = Builder::with_capacity(2);
    let start = builder.add_state();
    let accept = builder.add_state();
    builder.add_transition(start, only('a'), accept);

    assert_eq!(
        builder
            .build(&[start])
            .expect("the builder is below its capacity")
            .state_count(),
        2
    );
}

#[test]
fn adding_a_state_past_the_capacity_reports_an_error() {
    let mut builder: Builder<Symbols> = Builder::with_capacity(2);
    let start = builder.add_state();
    builder.add_state();
    builder.add_state();

    assert_eq!(
        builder.build(&[start]),
        Err(BuildError::TooManyStates { capacity: 2 })
    );
}

#[test]
fn a_builder_past_its_capacity_takes_no_more_transitions() {
    let mut builder: Builder<Symbols> = Builder::with_capacity(1);
    let start = builder.add_state();
    let outside = builder.add_state();
    builder.add_transition(start, only('a'), outside);
    builder.add_epsilon_transition(start, outside);
    builder.mark_accept(outside);

    assert_eq!(
        builder.build(&[start]),
        Err(BuildError::TooManyStates { capacity: 1 })
    );
}

#[test]
fn the_closure_of_a_state_without_an_epsilon_transition_is_just_itself() {
    let mut builder = builder();
    let accept = builder.add_state();
    let nfa = builder
        .build(&[accept])
        .expect("the builder is below its capacity");

    assert_eq!(closure(&nfa, &[accept]), vec![0]);
}

#[test]
fn the_closure_follows_each_epsilon_transition_of_a_state() {
    let mut builder = builder();
    let start = builder.add_state();
    let left = builder.add_state();
    let middle = builder.add_state();
    let right = builder.add_state();
    builder.add_epsilon_transition(start, left);
    builder.add_epsilon_transition(start, middle);
    builder.add_epsilon_transition(start, right);
    let nfa = builder
        .build(&[start])
        .expect("the builder is below its capacity");

    assert_eq!(closure(&nfa, &[start]), vec![0, 1, 2, 3]);
}

#[test]
fn the_closure_stops_at_a_transition_with_a_label() {
    let mut builder = builder();
    let start = builder.add_state();
    let accept = builder.add_state();
    builder.add_transition(start, only('a'), accept);
    let nfa = builder
        .build(&[start])
        .expect("the builder is below its capacity");

    assert_eq!(closure(&nfa, &[start]), vec![0]);
}

#[test]
fn the_closure_terminates_on_an_epsilon_cycle() {
    let mut builder = builder();
    let left = builder.add_state();
    let right = builder.add_state();
    let accept = builder.add_state();
    builder.add_epsilon_transition(left, right);
    builder.add_epsilon_transition(left, accept);
    builder.add_epsilon_transition(right, left);
    builder.add_epsilon_transition(right, accept);
    let nfa = builder
        .build(&[left])
        .expect("the builder is below its capacity");

    assert_eq!(closure(&nfa, &[left]), vec![0, 1, 2]);
}

#[test]
fn the_closure_is_sorted_and_deduplicated() {
    let mut builder = builder();
    let first = builder.add_state();
    let second = builder.add_state();
    let left = builder.add_state();
    let right = builder.add_state();
    builder.add_epsilon_transition(left, first);
    builder.add_epsilon_transition(left, second);
    builder.add_epsilon_transition(right, second);
    builder.add_epsilon_transition(right, first);
    let nfa = builder
        .build(&[left])
        .expect("the builder is below its capacity");

    assert_eq!(closure(&nfa, &[right, left, right]), vec![0, 1, 2, 3]);
}

#[test]
fn an_execution_starts_at_the_closure_of_its_start_state() {
    let mut builder = builder();
    let start = builder.add_state();
    let accept = builder.add_state();
    builder.add_epsilon_transition(start, accept);
    builder.mark_accept(accept);
    let nfa = builder
        .build(&[start])
        .expect("the builder is below its capacity");

    let execution = execution(&nfa);

    assert_eq!(execution.states(), &[start, accept]);
    assert!(execution.accepts());
}

#[test]
fn a_step_into_no_state_empties_the_execution() {
    let mut builder = builder();
    let start = builder.add_state();
    let accept = builder.add_state();
    builder.add_transition(start, only('a'), accept);
    builder.mark_accept(accept);
    let nfa = builder
        .build(&[start])
        .expect("the builder is below its capacity");

    let mut execution = execution(&nfa);

    assert!(!execution.step(b'b'));
    assert_eq!(execution.states(), &[]);
    assert!(!execution.accepts());
    assert!(!execution.step(b'a'));
}

#[test]
fn an_execution_accepts_if_one_state_of_its_set_accepts() {
    let mut builder = builder();
    let start = builder.add_state();
    let first = builder.add_state();
    let second = builder.add_state();
    builder.add_transition(start, only('a'), first);
    builder.add_transition(start, only('a'), second);
    builder.mark_accept(second);
    let nfa = builder
        .build(&[start])
        .expect("the builder is below its capacity");

    let mut execution = execution(&nfa);

    assert!(execution.step(b'a'));
    assert_eq!(execution.states(), &[first, second]);
    assert!(execution.accepts());
}

#[test]
fn a_step_keeps_a_shared_target_one_time() {
    let mut builder = builder();
    let start = builder.add_state();
    let target = builder.add_state();
    builder.add_transition(start, only('a'), target);
    builder.add_transition(start, only('a'), target);
    let nfa = builder
        .build(&[start])
        .expect("the builder is below its capacity");

    let mut execution = execution(&nfa);

    assert!(execution.step(b'a'));
    assert_eq!(execution.states(), &[target]);
}

#[test]
fn a_restart_puts_the_execution_back_at_its_start() {
    let mut builder = builder();
    let start = builder.add_state();
    let accept = builder.add_state();
    builder.add_transition(start, only('a'), accept);
    builder.mark_accept(accept);
    let nfa = builder
        .build(&[start])
        .expect("the builder is below its capacity");

    let mut execution = execution(&nfa);

    assert!(execution.step(b'a'));
    assert_eq!(execution.states(), &[accept]);

    execution.restart(0);
    assert_eq!(execution.states(), &[start]);

    assert!(execution.step(b'a'));
    assert_eq!(execution.states(), &[accept]);
}

#[test]
fn each_start_seeds_only_its_own_state() {
    let mut builder = builder();
    let code = builder.add_state();
    let string = builder.add_state();
    builder.mark_accept(string);
    let nfa = builder
        .build(&[code, string])
        .expect("the builder is below its capacity");
    let mut execution = nfa.execution();

    execution.restart(0);
    assert!(!execution.accepts());

    execution.restart(1);
    assert!(execution.accepts());
}

#[test]
fn a_new_execution_is_in_no_state() {
    let mut builder = builder();
    let start = builder.add_state();
    builder.mark_accept(start);
    let nfa = builder
        .build(&[start])
        .expect("the builder is below its capacity");

    let execution = nfa.execution();

    assert_eq!(execution.states(), &[]);
    assert!(!execution.accepts());
}

#[test]
fn matcher_the_longest_match_wins() {
    let (nfa, table) = alternation("a", "ab");

    assert_eq!(scan(&nfa, &table, "ab"), matched(1, 2));
    assert_eq!(scan(&nfa, &table, "ac"), matched(0, 1));
}

#[test]
fn matcher_select_breaks_a_tie_at_the_same_length() {
    let (nfa, table) = alternation("if", "if");

    assert_eq!(scan(&nfa, &table, "if"), matched(0, 2));
}

#[test]
fn matcher_a_scan_that_reaches_no_accept_gives_nothing() {
    let (nfa, table) = alternation("a", "ab");

    assert_eq!(scan(&nfa, &table, ""), None);
    assert_eq!(scan(&nfa, &table, "z"), None);
}

#[test]
fn matcher_trailing_input_is_left_for_the_next_call() {
    let (nfa, table) = alternation("a", "ab");

    assert_eq!(scan(&nfa, &table, "abab"), matched(1, 2));
}

#[test]
fn matcher_a_start_that_accepts_gives_a_match_of_no_length() {
    let mut builder = builder();
    let start = builder.add_state();
    builder.mark_accept(start);
    let nfa = builder
        .build(&[start])
        .expect("a test stays below the capacity");
    let table = accepts(nfa.state_count(), &[(start, 5)]);

    assert_eq!(scan(&nfa, &table, ""), matched(5, 0));
    assert_eq!(scan(&nfa, &table, "zz"), matched(5, 0));
}

#[test]
fn matcher_a_star_matches_any_number_of_repetitions() {
    let mut builder = builder();
    let repeat = star(&mut builder, 'a');
    let nfa = builder
        .build(&[repeat])
        .expect("a test stays below the capacity");
    let table = accepts(nfa.state_count(), &[(repeat, 0)]);

    assert_eq!(scan(&nfa, &table, ""), matched(0, 0));
    assert_eq!(scan(&nfa, &table, "zzz"), matched(0, 0));
    assert_eq!(scan(&nfa, &table, "a"), matched(0, 1));
    assert_eq!(scan(&nfa, &table, "aaaa"), matched(0, 4));
}

#[test]
fn matcher_a_start_with_no_reachable_accept_accepts_nothing() {
    let mut builder = builder();
    let stuck = builder.add_state();
    builder.add_epsilon_transition(stuck, stuck);
    let nfa = builder
        .build(&[stuck])
        .expect("a test stays below the capacity");
    let table = accepts(nfa.state_count(), &[]);

    assert_eq!(scan(&nfa, &table, ""), None);
    assert_eq!(scan(&nfa, &table, "anything"), None);
}

#[test]
fn matcher_each_start_scans_only_its_own_rules() {
    let (nfa, table) = conditions(&["a", "b"]);

    assert_eq!(scan_under(&nfa, &table, 0, "a"), matched(0, 1));
    assert_eq!(scan_under(&nfa, &table, 0, "b"), None);
    assert_eq!(scan_under(&nfa, &table, 1, "b"), matched(1, 1));
    assert_eq!(scan_under(&nfa, &table, 1, "a"), None);
}

#[test]
fn matcher_a_lower_accept_under_another_start_does_not_win() {
    let (nfa, table) = conditions(&["if", "if"]);

    assert_eq!(scan_under(&nfa, &table, 1, "if"), matched(1, 2));
    assert_eq!(scan_under(&nfa, &table, 0, "if"), matched(0, 2));
}

#[test]
fn matcher_a_nullable_start_does_not_make_another_start_nullable() {
    let mut builder = builder();
    let word = literal(&mut builder, "ab");
    let repeat = star(&mut builder, 'a');
    let nfa = builder
        .build(&[word.entry, repeat])
        .expect("a test stays below the capacity");
    let table = accepts(nfa.state_count(), &[(word.exit, 0), (repeat, 1)]);

    assert_eq!(scan_under(&nfa, &table, 1, "zz"), matched(1, 0));
    assert_eq!(scan_under(&nfa, &table, 0, "zz"), None);
    assert_eq!(scan_under(&nfa, &table, 0, "ab"), matched(0, 2));
}

#[test]
fn one_matcher_scans_a_sequence_of_matches() {
    let (nfa, table) = alternation("if", " ");
    let mut matcher = nfa.matcher();
    let symbols: Vec<u8> = "if if".bytes().collect();
    let mut input = &symbols[..];
    let mut found = Vec::new();

    while let Some(scanned) = matcher.longest_match(0, input, |states| lowest(&table, states)) {
        found.push(scanned.accept);
        input = &input[scanned.length..];
    }

    assert_eq!(found, vec![0, 1, 0]);
    assert!(input.is_empty());
}

#[test]
fn matcher_select_reads_the_states_at_the_end_of_the_match() {
    let (nfa, _) = alternation("a", "ab");
    let symbols: Vec<u8> = "ab".bytes().collect();

    let found = nfa
        .matcher()
        .longest_match(0, &symbols, <[StateId]>::to_vec)
        .expect("the automaton accepts ab");

    assert_eq!(found.length, 2);
    assert_eq!(found.accept, vec![StateId::new(4)]);
}

#[test]
fn select_reads_accept_values_from_a_tagged_automaton() {
    let mut builder = Builder::<Symbols, u32>::new();
    let start = builder.add_state();
    let accept = builder.add_state();
    builder.add_transition(start, only('a'), accept);
    builder.set_accept(accept, 7);
    let nfa = builder
        .build(&[start])
        .expect("the builder is below its capacity");

    let found = nfa
        .matcher()
        .longest_match(0, &[b'a'], |states| {
            states
                .iter()
                .filter_map(|&state| nfa.accept(state))
                .copied()
                .min()
                .expect("an accepting state has an accept value")
        })
        .expect("the automaton accepts a");

    assert_eq!(
        found,
        Match {
            accept: 7,
            length: 1
        }
    );
}
