use lxr_codegen::automata::{BuildError as AutomatonError, Overflow, Part};
use lxr_codegen::compiler::BuildErrorKind;

#[test]
fn a_state_capacity_error_names_its_capacity() {
    let error = AutomatonError::TooManyStates { capacity: 16 };

    assert_eq!(error.message(), "an automaton holds at most 16 states");
}

#[test]
fn a_transition_capacity_error_names_its_capacity() {
    let error = AutomatonError::TooManyTransitions { capacity: 8 };

    assert_eq!(error.message(), "an automaton holds at most 8 transitions");
}

#[test]
fn an_error_names_the_rule_at_fault() {
    let error = BuildErrorKind::NoCondition.in_rule(3);

    assert_eq!(error.rule, Some(3));
    assert_eq!(
        error.message(),
        "rule 3: the rule is applicable under no start condition"
    );
    assert_eq!(
        error.kind.help(),
        "Give the rule at least one start condition."
    );
}

#[test]
fn an_error_of_the_whole_lexicon_names_no_rule() {
    let error = BuildErrorKind::TooLarge {
        part: Part::States,
        maximum: 8,
    }
    .in_lexicon();

    assert_eq!(error.rule, None);
    assert_eq!(
        error.message(),
        "the lexer needs more than the 8 states that one automaton holds"
    );
}

#[test]
fn an_overflow_becomes_the_kind_that_holds_its_part_and_its_maximum() {
    let overflow = Overflow::new(Part::States, 8);

    assert_eq!(
        BuildErrorKind::from(overflow),
        BuildErrorKind::TooLarge {
            part: Part::States,
            maximum: 8,
        }
    );
}

#[test]
fn each_kind_gives_a_message() {
    let kinds = [
        BuildErrorKind::UnknownCondition {
            condition: 2,
            declared: 1,
        },
        BuildErrorKind::MatchesEmpty,
        BuildErrorKind::PatternTooLarge {
            size: 200,
            maximum: 100,
        },
        BuildErrorKind::InvertedRepetition {
            minimum: 5,
            maximum: 2,
        },
        BuildErrorKind::TooLarge {
            part: Part::Items,
            maximum: 4,
        },
    ];

    for kind in kinds {
        assert!(!kind.message().is_empty());
        assert!(kind.help().ends_with('.'));
    }
}

#[test]
fn a_message_names_the_construction_that_the_author_wrote() {
    let inverted = BuildErrorKind::InvertedRepetition {
        minimum: 5,
        maximum: 2,
    };
    let condition = BuildErrorKind::UnknownCondition {
        condition: 2,
        declared: 1,
    };

    assert_eq!(
        inverted.message(),
        "the repetition {5,2} has a maximum below its minimum"
    );
    assert_eq!(condition.message(), "start condition 2 is not declared");
}

#[test]
fn a_message_writes_each_digit_of_a_number() {
    let kind = BuildErrorKind::PatternTooLarge {
        size: 1_234_567_890,
        maximum: 0,
    };

    assert_eq!(
        kind.message(),
        "the repetitions make 1234567890 copies of the pattern, above the limit of 0"
    );
    assert_eq!(
        BuildErrorKind::MatchesEmpty.in_rule(10).message(),
        "rule 10: the pattern matches the empty string"
    );
}
