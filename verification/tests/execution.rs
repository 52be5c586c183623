use lxr_codegen::automata::encoding::ByteRange;
use lxr_codegen::automata::nfa::{Builder, Nfa};
use lxr_codegen::automata::{Match, Scanner, StateId};

/// The labels of these tests: ASCII characters, as bytes.
type Symbols = ByteRange;

fn only(symbol: char) -> Symbols {
    ByteRange::new(symbol as u8, symbol as u8)
}

fn range(low: char, high: char) -> Symbols {
    ByteRange::new(low as u8, high as u8)
}

#[derive(Debug, Clone, Copy, PartialEq, Eq)]
struct Path {
    entry: StateId,
    exit: StateId,
}

fn builder() -> Builder<Symbols> {
    Builder::new()
}

fn literal(builder: &mut Builder<Symbols>, text: &str) -> Path {
    let entry = builder.add_state();
    let exit = text.chars().fold(entry, |current, symbol| {
        let next = builder.add_state();
        builder.add_transition(current, only(symbol), next);
        next
    });
    builder.mark_accept(exit);
    Path { entry, exit }
}

fn star(builder: &mut Builder<Symbols>, symbol: char) -> StateId {
    let state = builder.add_state();
    builder.add_transition(state, only(symbol), state);
    builder.mark_accept(state);
    state
}

/// The accept of each state, in the manner of a lexer table.
fn accepts(count: usize, marks: &[(StateId, u32)]) -> Vec<Option<u32>> {
    let mut table = vec![None; count];
    for &(state, accept) in marks {
        table[state.index()] = Some(accept);
    }
    table
}

fn scan(nfa: &Nfa<Symbols>, table: &[Option<u32>], input: &str) -> Option<Match<u32>> {
    scan_under(nfa, table, 0, input)
}

fn scan_under(
    nfa: &Nfa<Symbols>,
    table: &[Option<u32>],
    start: usize,
    input: &str,
) -> Option<Match<u32>> {
    let symbols: Vec<u8> = input.bytes().collect();
    nfa.execute()
        .longest_match(start, &symbols, |states| lowest(table, states))
}

fn conditions(words: &[&str]) -> (Nfa<Symbols>, Vec<Option<u32>>) {
    let mut builder = builder();
    let paths: Vec<_> = words
        .iter()
        .map(|word| literal(&mut builder, word))
        .collect();
    let starts: Vec<StateId> = paths.iter().map(|path| path.entry).collect();
    let nfa = builder
        .build(&starts)
        .expect("a test stays below the capacity");

    let marks: Vec<(StateId, u32)> = paths
        .iter()
        .enumerate()
        .map(|(index, path)| (path.exit, index as u32))
        .collect();
    let table = accepts(nfa.state_count(), &marks);
    (nfa, table)
}

fn lowest(table: &[Option<u32>], states: &[StateId]) -> u32 {
    states
        .iter()
        .filter_map(|id| table[id.index()])
        .min()
        .expect("a state of the execution accepts")
}

fn matched(accept: u32, length: usize) -> Option<Match<u32>> {
    Some(Match { accept, length })
}

fn alternation(first: &str, second: &str) -> (Nfa<Symbols>, Vec<Option<u32>>) {
    let mut builder = Builder::new();
    let left = literal(&mut builder, first);
    let right = literal(&mut builder, second);
    let start = builder.add_state();
    builder.add_epsilon_transition(start, left.entry);
    builder.add_epsilon_transition(start, right.entry);
    let nfa = builder
        .build(&[start])
        .expect("a test stays below the capacity");

    let table = accepts(nfa.state_count(), &[(left.exit, 0), (right.exit, 1)]);
    (nfa, table)
}

#[test]
fn execution_the_longest_match_wins() {
    let (nfa, table) = alternation("a", "ab");

    assert_eq!(scan(&nfa, &table, "ab"), matched(1, 2));
    assert_eq!(scan(&nfa, &table, "ac"), matched(0, 1));
}

#[test]
fn execution_select_breaks_a_tie_at_the_same_length() {
    let (nfa, table) = alternation("if", "if");

    assert_eq!(scan(&nfa, &table, "if"), matched(0, 2));
}

#[test]
fn execution_a_scan_that_reaches_no_accept_gives_nothing() {
    let (nfa, table) = alternation("a", "ab");

    assert_eq!(scan(&nfa, &table, ""), None);
    assert_eq!(scan(&nfa, &table, "z"), None);
}

#[test]
fn execution_trailing_input_is_left_for_the_next_call() {
    let (nfa, table) = alternation("a", "ab");

    assert_eq!(scan(&nfa, &table, "abab"), matched(1, 2));
}

#[test]
fn execution_a_start_that_accepts_gives_a_match_of_no_length() {
    let mut builder = builder();
    let start = builder.add_state();
    builder.mark_accept(start);
    let nfa = builder
        .build(&[start])
        .expect("a test stays below the capacity");
    let table = accepts(nfa.state_count(), &[(start, 5)]);

    assert_eq!(scan(&nfa, &table, ""), matched(5, 0));
    assert_eq!(scan(&nfa, &table, "zz"), matched(5, 0));
}

#[test]
fn execution_a_star_matches_any_number_of_repetitions() {
    let mut builder = builder();
    let repeat = star(&mut builder, 'a');
    let nfa = builder
        .build(&[repeat])
        .expect("a test stays below the capacity");
    let table = accepts(nfa.state_count(), &[(repeat, 0)]);

    assert_eq!(scan(&nfa, &table, ""), matched(0, 0));
    assert_eq!(scan(&nfa, &table, "zzz"), matched(0, 0));
    assert_eq!(scan(&nfa, &table, "a"), matched(0, 1));
    assert_eq!(scan(&nfa, &table, "aaaa"), matched(0, 4));
}

#[test]
fn execution_a_start_with_no_reachable_accept_accepts_nothing() {
    let mut builder = builder();
    let stuck = builder.add_state();
    builder.add_epsilon_transition(stuck, stuck);
    let nfa = builder
        .build(&[stuck])
        .expect("a test stays below the capacity");
    let table = accepts(nfa.state_count(), &[]);

    assert_eq!(scan(&nfa, &table, ""), None);
    assert_eq!(scan(&nfa, &table, "anything"), None);
}

#[test]
fn execution_each_start_scans_only_its_own_rules() {
    let (nfa, table) = conditions(&["a", "b"]);

    assert_eq!(scan_under(&nfa, &table, 0, "a"), matched(0, 1));
    assert_eq!(scan_under(&nfa, &table, 0, "b"), None);
    assert_eq!(scan_under(&nfa, &table, 1, "b"), matched(1, 1));
    assert_eq!(scan_under(&nfa, &table, 1, "a"), None);
}

#[test]
fn execution_a_lower_accept_under_another_start_does_not_win() {
    let (nfa, table) = conditions(&["if", "if"]);

    assert_eq!(scan_under(&nfa, &table, 1, "if"), matched(1, 2));
    assert_eq!(scan_under(&nfa, &table, 0, "if"), matched(0, 2));
}

#[test]
fn execution_a_nullable_start_does_not_make_another_start_nullable() {
    let mut builder = builder();
    let word = literal(&mut builder, "ab");
    let repeat = star(&mut builder, 'a');
    let nfa = builder
        .build(&[word.entry, repeat])
        .expect("a test stays below the capacity");
    let table = accepts(nfa.state_count(), &[(word.exit, 0), (repeat, 1)]);

    assert_eq!(scan_under(&nfa, &table, 1, "zz"), matched(1, 0));
    assert_eq!(scan_under(&nfa, &table, 0, "zz"), None);
    assert_eq!(scan_under(&nfa, &table, 0, "ab"), matched(0, 2));
}

#[test]
fn one_execution_scans_a_sequence_of_matches() {
    let (nfa, table) = alternation("if", " ");
    let mut execution = nfa.execute();
    let symbols: Vec<u8> = "if if".bytes().collect();
    let mut input = &symbols[..];
    let mut found = Vec::new();

    while let Some(scanned) = execution.longest_match(0, input, |states| lowest(&table, states))
    {
        found.push(scanned.accept);
        input = &input[scanned.length..];
    }

    assert_eq!(found, vec![0, 1, 0]);
    assert!(input.is_empty());
}

#[test]
fn execution_select_reads_the_states_at_the_end_of_the_match() {
    let (nfa, _) = alternation("a", "ab");
    let symbols: Vec<u8> = "ab".bytes().collect();

    let found = nfa
        .execute()
        .longest_match(0, &symbols, <[StateId]>::to_vec)
        .expect("the automaton accepts ab");

    assert_eq!(found.length, 2);
    assert_eq!(found.accept, vec![StateId::new(4)]);
}
