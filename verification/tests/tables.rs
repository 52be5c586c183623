use lxr_codegen::automata::dfa::{Builder, Dfa, Execution};
use lxr_codegen::automata::encoding::ByteRange;
use lxr_codegen::automata::{Overflow, Part, StateId};
use lxr_codegen::compiler::Accepts;
use lxr_codegen::table::{MAX_STATES, Tables};

fn state(index: usize) -> StateId {
    StateId::new(index)
}

fn only(byte: u8) -> ByteRange {
    ByteRange::new(byte, byte)
}

/// Builds an automaton of `transitions.len()` states and the accepts of its
/// rules: each state that `rules` names accepts that rule.
fn lexer(
    transitions: &[&[(ByteRange, usize)]],
    rules: &[(usize, u16)],
    starts: &[usize],
) -> (Dfa<ByteRange>, Accepts<u16>) {
    let mut builder: Builder<ByteRange> = Builder::new();
    for _ in transitions {
        builder.add_state();
    }
    for (source, group) in transitions.iter().enumerate() {
        for &(label, target) in group.iter() {
            builder.add_transition(state(source), label, state(target));
        }
    }
    for &(index, _) in rules {
        builder.mark_accept(state(index));
    }
    let starts: Vec<StateId> = starts.iter().map(|&index| state(index)).collect();
    let dfa = builder.build(&starts).expect("the test automaton is below its capacity");
    let marks = rules.iter().map(|&(index, rule)| (state(index), rule)).collect();
    let accepts = Accepts::new(transitions.len(), marks);
    (dfa, accepts)
}

/// A lexer of two conditions: names and the keyword `if` under the first, and
/// runs of any byte but `"` under the second.
fn example() -> (Dfa<ByteRange>, Accepts<u16>) {
    lexer(
        &[
            &[
                (only(b'i'), 1),
                (ByteRange::new(b'a', b'h'), 3),
                (ByteRange::new(b'j', b'z'), 3),
            ],
            &[(only(b'f'), 2), (ByteRange::new(b'a', b'e'), 3), (ByteRange::new(b'g', b'z'), 3)],
            &[(ByteRange::new(b'a', b'z'), 3)],
            &[(ByteRange::new(b'a', b'z'), 3)],
            &[(ByteRange::new(0, b'!'), 5), (ByteRange::new(b'#', 255), 5)],
            &[(ByteRange::new(0, b'!'), 5), (ByteRange::new(b'#', 255), 5)],
        ],
        &[(1, 1), (2, 0), (3, 1), (5, 2)],
        &[0, 4],
    )
}

/// Returns the longest match at the start of `input`, read from the tables alone.
fn scan(tables: &Tables, start: usize, input: &str) -> Option<(u16, usize)> {
    let width = tables.width();
    let mut state = usize::from(tables.start()[start]);
    let mut best = accepted(tables, state, 0);

    for (index, &byte) in input.as_bytes().iter().enumerate() {
        let class = usize::from(tables.classes()[usize::from(byte)]);
        state = usize::from(tables.next()[state * width + class]);
        if state == 0 {
            break;
        }
        best = accepted(tables, state, index + 1).or(best);
    }

    best
}

/// Returns the match of `length` at `state`, or `None` if the state does not accept.
fn accepted(tables: &Tables, state: usize, length: usize) -> Option<(u16, usize)> {
    match tables.accept()[state] {
        0 => None,
        rule => Some((rule - 1, length)),
    }
}

/// Returns the longest match that the automaton finds, in place of the tables.
fn reference(dfa: &Dfa<ByteRange>, accepts: &Accepts<u16>, start: usize, input: &str) -> Option<(u16, usize)> {
    Execution::new(dfa)
        .longest_match(start, input.as_bytes(), |states| {
            accepts
                .lowest(states)
                .expect("a state that accepts has an accept")
        })
        .map(|found| (found.accept, found.length))
}

const INPUTS: [&str; 14] = [
    "", "i", "if", "iff", "if9", "ab", "z", "9", "!", " ", "\"", "a b", "abc\"d", "\u{80}",
];

#[test]
fn the_tables_give_the_same_match_as_the_automaton() {
    let (dfa, accepts) = example();
    let tables = Tables::new(&dfa, &accepts).expect("the example is small");

    for start in 0..dfa.start_states().len() {
        for input in INPUTS {
            assert_eq!(
                scan(&tables, start, input),
                reference(&dfa, &accepts, start, input),
                "input {input:?} under start {start}"
            );
        }
    }
}

#[test]
fn a_row_of_the_table_gives_the_step_of_the_automaton_for_each_byte() {
    let (dfa, accepts) = example();
    let tables = Tables::new(&dfa, &accepts).expect("the example is small");

    for index in 0..dfa.state_count() {
        for byte in 0..=u8::MAX {
            let class = usize::from(tables.classes()[usize::from(byte)]);
            let target = tables.next()[(index + 1) * tables.width() + class];
            let expected = dfa
                .step(StateId::new(index), byte)
                .map_or(0, |state| (state.index() + 1) as u16);

            assert_eq!(target, expected, "state {index} reads the byte {byte:#04X}");
        }
    }
}

#[test]
fn the_dead_row_and_the_dead_class_read_into_the_dead_state() {
    let (dfa, accepts) = example();
    let tables = Tables::new(&dfa, &accepts).expect("the example is small");

    assert_eq!(&tables.next()[..tables.width()], vec![0; tables.width()]);
    assert_eq!(tables.accept()[0], 0);
    for state in 0..tables.state_count() {
        assert_eq!(tables.next()[state * tables.width()], 0, "state {state}");
    }
}

#[test]
fn each_class_holds_the_bytes_that_each_label_treats_alike() {
    let (dfa, accepts) = example();
    let tables = Tables::new(&dfa, &accepts).expect("the example is small");

    assert_eq!(tables.classes()[usize::from(b'b')], tables.classes()[usize::from(b'c')]);
    assert_ne!(tables.classes()[usize::from(b'i')], tables.classes()[usize::from(b'b')]);
    assert_eq!(tables.classes()[usize::from(b'"')], 0);
    assert_eq!(tables.representatives().len(), tables.width() - 1);
    for (index, &symbol) in tables.representatives().iter().enumerate() {
        assert_eq!(usize::from(tables.classes()[usize::from(symbol)]), index + 1);
    }
}

#[test]
fn each_start_and_each_accept_gets_its_number_plus_one() {
    let (dfa, accepts) = example();
    let tables = Tables::new(&dfa, &accepts).expect("the example is small");

    assert_eq!(tables.start(), &[1, 5]);
    assert_eq!(tables.accept(), &[0, 0, 2, 1, 2, 0, 3]);
    assert_eq!(tables.state_count(), 7);
}

#[test]
fn a_lexer_of_one_rule_gives_one_class_for_each_byte_of_the_rule() {
    let (dfa, accepts) = lexer(&[&[(ByteRange::new(b'a', b'b'), 1)], &[]], &[(1, 0)], &[0]);
    let tables = Tables::new(&dfa, &accepts).expect("the lexer is small");

    assert_eq!(tables.width(), 2);
    assert_eq!(tables.state_count(), 3);
    assert_eq!(scan(&tables, 0, "a"), Some((0, 1)));
    assert_eq!(scan(&tables, 0, "z"), None);
}

#[test]
fn a_lexer_of_no_rule_holds_the_dead_state_and_its_start() {
    let (dfa, accepts) = lexer(&[&[]], &[], &[0]);
    let tables = Tables::new(&dfa, &accepts).expect("the lexer is small");

    assert_eq!(tables.width(), 1);
    assert_eq!(tables.start().len(), 1);
    assert_eq!(scan(&tables, 0, "a"), None);
}

#[test]
fn a_byte_that_no_label_matches_belongs_to_the_dead_class() {
    let (dfa, accepts) = lexer(&[&[(ByteRange::new(b'a', b'z'), 1)], &[]], &[(1, 0)], &[0]);
    let tables = Tables::new(&dfa, &accepts).expect("the lexer is small");

    assert_eq!(tables.classes()[usize::from(b'\0')], 0);
    assert_eq!(tables.classes()[usize::from(b'A')], 0);
    assert_eq!(tables.classes()[usize::from(b'{')], 0);
    assert_ne!(tables.classes()[usize::from(b'a')], 0);
    assert_ne!(tables.classes()[usize::from(b'z')], 0);
}

#[test]
fn an_automaton_above_the_state_limit_gives_an_overflow() {
    let count = MAX_STATES + 1;
    let mut builder: Builder<ByteRange> = Builder::new();
    for _ in 0..count {
        builder.add_state();
    }
    let dfa = builder.build(&[state(0)]).expect("the automaton is below its capacity");
    let accepts: Accepts<u16> = Accepts::new(count, Vec::new());

    assert_eq!(
        Tables::new(&dfa, &accepts),
        Err(Overflow::new(Part::States, MAX_STATES))
    );
}

#[test]
fn the_dead_state_reads_each_byte_into_itself() {
    let (dfa, accepts) = example();
    let tables = Tables::new(&dfa, &accepts).expect("the example is small");

    assert_eq!(&tables.next()[..tables.width()], vec![0; tables.width()]);
    assert_eq!(tables.accept()[0], 0);
}

#[test]
fn the_dead_class_reads_into_the_dead_state_from_each_state() {
    let (dfa, accepts) = example();
    let tables = Tables::new(&dfa, &accepts).expect("the example is small");

    for state in 0..tables.state_count() {
        assert_eq!(tables.next()[state * tables.width()], 0, "state {state}");
    }
}

#[test]
fn each_class_holds_the_bytes_that_each_label_treats_in_the_same_manner() {
    let (dfa, accepts) = example();
    let tables = Tables::new(&dfa, &accepts).expect("the example is small");

    assert_eq!(tables.classes()[usize::from(b'b')], tables.classes()[usize::from(b'c')]);
    assert_ne!(tables.classes()[usize::from(b'l')], tables.classes()[usize::from(b'b')]);
    assert_eq!(tables.representatives().len(), tables.width() - 1);
}

#[test]
fn each_representative_belongs_to_the_class_that_it_stands_for() {
    let (dfa, accepts) = example();
    let tables = Tables::new(&dfa, &accepts).expect("the example is small");

    for (index, &symbol) in tables.representatives().iter().enumerate() {
        let number = u16::try_from(index + 1).expect("a test holds few classes");
        assert_eq!(tables.classes()[usize::from(symbol)], number);
    }
}

#[test]
fn each_start_condition_gets_the_state_of_the_automaton() {
    let (dfa, accepts) = example();
    let tables = Tables::new(&dfa, &accepts).expect("the example is small");

    assert_eq!(tables.start().len(), 2);
    for (start, &state) in tables.start().iter().enumerate() {
        assert_eq!(usize::from(state), dfa.start_state(start).index() + 1, "start {start}");
    }
}

#[test]
fn a_state_holds_the_rule_that_it_accepts_plus_one() {
    let (dfa, accepts) = example();
    let tables = Tables::new(&dfa, &accepts).expect("the example is small");

    for index in 0..dfa.state_count() {
        let expected = accepts.get(StateId::new(index)).map_or(0, |rule| rule + 1);
        assert_eq!(tables.accept()[index + 1], expected, "state {index}");
    }
    assert!(tables.accept().iter().any(|&rule| rule != 0));
}
