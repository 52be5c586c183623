use lxr_codegen::automata::dfa::{Builder, Dfa};
use lxr_codegen::automata::encoding::ByteRange;
use lxr_codegen::automata::{Overflow, Part, StateId};
use lxr_codegen::compiler::{Accepts, BuildErrorKind};
use lxr_codegen::generate::{
    GenerateError, GenerateErrorKind, Pattern, Rule, Specification, entered, overflow, reachable,
};
use lxr_codegen::regex::ParseErrorKind;
use lxr_codegen::table::Tables;

/// Returns a rule of a regular expression under `conditions`, which enters
/// `go` after its match.
fn rule(conditions: &[usize], go: Option<u16>) -> Rule {
    Rule {
        pattern: Pattern::Regex("a".to_owned()),
        conditions: conditions.to_vec(),
        go,
    }
}

fn lexer(conditions: Option<usize>, rules: Vec<Rule>) -> Specification {
    Specification { conditions, rules }
}

#[test]
fn a_chain_of_start_conditions_gives_no_error() {
    let specification = lexer(
        Some(3),
        vec![rule(&[], Some(1)), rule(&[1], Some(2)), rule(&[2], None)],
    );

    assert_eq!(entered(&specification), Ok(()));
}

#[test]
fn a_first_condition_that_no_rule_reads_names_the_lexer() {
    let specification = lexer(Some(2), vec![rule(&[1], None)]);

    assert_eq!(
        entered(&specification),
        Err(vec![GenerateErrorKind::NeverRead.in_lexer()])
    );
}

#[test]
fn a_rule_that_enters_a_condition_that_no_rule_reads_names_its_rule() {
    let specification = lexer(Some(2), vec![rule(&[], None), rule(&[0], Some(1))]);

    assert_eq!(
        entered(&specification),
        Err(vec![GenerateErrorKind::NeverRead.in_rule(1)])
    );
}

#[test]
fn a_go_outside_the_lexer_names_a_condition_that_no_rule_reads() {
    let specification = lexer(None, vec![rule(&[], Some(4))]);

    assert_eq!(
        entered(&specification),
        Err(vec![GenerateErrorKind::NeverRead.in_rule(0)])
    );
}

#[test]
fn each_rule_under_a_condition_that_no_rule_enters_gives_its_own_error() {
    let specification = lexer(
        Some(3),
        vec![
            rule(&[], None),
            rule(&[1], Some(2)),
            rule(&[2], None),
            rule(&[0, 2], None),
        ],
    );

    assert_eq!(
        entered(&specification),
        Err(vec![
            GenerateErrorKind::NeverEntered.in_rule(1),
            GenerateErrorKind::NeverEntered.in_rule(2),
        ])
    );
}

#[test]
fn a_condition_that_a_later_rule_enters_is_entered() {
    let specification = lexer(
        Some(3),
        vec![rule(&[2], Some(1)), rule(&[1], Some(2)), rule(&[0], Some(1))],
    );

    assert_eq!(entered(&specification), Ok(()));
}

fn tables(accepts: &[(usize, u16)], count: usize) -> Tables {
    let mut builder: Builder<ByteRange> = Builder::new();
    for _ in 0..count {
        builder.add_state();
    }
    for index in 1..count {
        builder.add_transition(
            StateId::new(0),
            ByteRange::new(index as u8, index as u8),
            StateId::new(index),
        );
    }
    let dfa: Dfa<ByteRange> = builder
        .build(&[StateId::new(0)])
        .expect("the test automaton is small");
    let marks = accepts
        .iter()
        .map(|&(state, rule)| (StateId::new(state), rule))
        .collect();
    Tables::new(&dfa, &Accepts::new(count, marks)).expect("the test automaton is small")
}

#[test]
fn each_rule_that_can_never_win_gives_its_own_error() {
    let tables = tables(&[(1, 0), (3, 2)], 4);

    assert_eq!(reachable(&tables, 3), Err(vec![GenerateErrorKind::NeverWins.in_rule(1)]));
    assert_eq!(
        reachable(&tables, 5),
        Err(vec![
            GenerateErrorKind::NeverWins.in_rule(1),
            GenerateErrorKind::NeverWins.in_rule(3),
            GenerateErrorKind::NeverWins.in_rule(4),
        ])
    );
    assert_eq!(reachable(&tables, 1), Ok(()));
}

#[test]
fn each_error_gives_a_message_and_a_correction() {
    let errors: Vec<GenerateError> = vec![
        GenerateErrorKind::Pattern(ParseErrorKind::UnclosedGroup.spanning(0..1)).in_rule(0),
        GenerateErrorKind::Rule(BuildErrorKind::MatchesEmpty).in_rule(1),
        GenerateErrorKind::TooManyRules {
            count: 70000,
            maximum: 65535,
        }
        .in_lexer(),
        GenerateErrorKind::NeverWins.in_rule(2),
        GenerateErrorKind::NeverRead.in_rule(3),
        GenerateErrorKind::NeverEntered.in_rule(4),
    ];

    for error in &errors {
        assert!(!error.message().is_empty());
        assert!(error.kind.help().is_some_and(|help| help.ends_with('.')));
    }
    assert_eq!(errors[0].message(), "unclosed '(' at position 0");
    assert_eq!(
        errors[2].message(),
        "the lexer holds 70000 rules, above the limit of 65535"
    );
    assert_eq!(
        GenerateErrorKind::Pattern(ParseErrorKind::UnexpectedEnd.spanning(3..3)).help(),
        None
    );
}

#[test]
fn an_overflow_is_a_fault_of_the_whole_lexer() {
    assert_eq!(
        overflow(Overflow::new(Part::States, 9)),
        vec![GenerateErrorKind::Rule(BuildErrorKind::TooLarge {
            part: Part::States,
            maximum: 9,
        })
        .in_lexer()]
    );
}
