use lxr_codegen::automata::BuildError;
use lxr_codegen::lexer::{
    CompileError, ResolvedTransition, RuleSpec, StartCondition, StartConditionId, Transition,
    check_rules, resolve_modes,
};
use lxr_codegen::regex::CharSet;
use lxr_codegen::regex::expression::Expression;
use lxr_codegen::regex::ParseErrorKind;

fn rule(modes: &[&str], transition: Transition) -> RuleSpec {
    RuleSpec {
        pattern: "\"".to_owned(),
        modes: modes.iter().map(|&mode| mode.to_owned()).collect(),
        transition,
    }
}

fn error(modes: &[&str], rules: Vec<RuleSpec>) -> String {
    resolve_modes(modes.iter().map(|&mode| mode.to_owned()).collect(), rules)
        .expect_err("the lexer does not resolve")
        .message()
        .to_owned()
}

#[test]
fn a_pushed_mode_and_a_pop_resolve_to_their_start_conditions() {
    let resolution = resolve_modes(
        vec!["String".to_owned()],
        vec![
            rule(&["INITIAL"], Transition::Push("String".to_owned())),
            rule(&["String"], Transition::Pop),
        ],
    )
    .expect("the lexer resolves");

    let names: Vec<&str> = resolution.conditions.iter().map(StartCondition::name).collect();
    assert_eq!(names, vec!["INITIAL", "String"]);
    assert_eq!(resolution.rules[0].start_conditions, vec![StartConditionId::new(0)]);
    assert_eq!(
        resolution.rules[0].transition,
        ResolvedTransition::Push(StartConditionId::new(1))
    );
    assert_eq!(resolution.rules[1].start_conditions, vec![StartConditionId::new(1)]);
    assert_eq!(resolution.rules[1].transition, ResolvedTransition::Pop);
    assert_eq!(resolution.rules[1].pattern, "\"");
}

#[test]
fn initial_names_the_first_start_condition() {
    let resolution = resolve_modes(
        vec!["Code".to_owned()],
        vec![rule(&["Initial", "Code"], Transition::Begin("Initial".to_owned()))],
    )
    .expect("the lexer resolves");

    assert_eq!(
        resolution.rules[0].start_conditions,
        vec![StartConditionId::new(0), StartConditionId::new(1)]
    );
    assert_eq!(
        resolution.rules[0].transition,
        ResolvedTransition::Begin(StartConditionId::new(0))
    );
}

#[test]
fn a_reserved_or_repeated_mode_fails_first() {
    assert_eq!(
        error(&["String", "String"], vec![rule(&["Other"], Transition::Stay)]),
        "duplicate or reserved lexer mode `String`"
    );
    assert_eq!(
        error(&["Initial"], Vec::new()),
        "duplicate or reserved lexer mode `Initial`"
    );
    assert_eq!(
        error(&["INITIAL"], Vec::new()),
        "duplicate or reserved lexer mode `INITIAL`"
    );
}

#[test]
fn each_failure_of_a_rule_names_its_cause() {
    assert_eq!(
        error(&[], vec![rule(&["Other"], Transition::Stay)]),
        "unknown lexer mode `Other`"
    );
    assert_eq!(
        error(&[], vec![rule(&[], Transition::Stay)]),
        "a lexer rule must be enabled in at least one mode"
    );
    assert_eq!(
        error(&[], vec![rule(&["INITIAL"], Transition::Pop)]),
        "a `pop` rule cannot be enabled in INITIAL"
    );
    assert_eq!(
        error(&["A"], vec![rule(&["A"], Transition::Push("B".to_owned()))]),
        "unknown lexer mode `B`"
    );
}

#[test]
fn the_first_rule_that_fails_gives_the_error() {
    assert_eq!(
        error(
            &["A"],
            vec![
                rule(&["A"], Transition::Stay),
                rule(&["B"], Transition::Stay),
                rule(&[], Transition::Stay),
            ]
        ),
        "unknown lexer mode `B`"
    );
}

#[test]
fn a_compile_error_holds_the_message_of_its_cause() {
    let parse = CompileError::parse(&ParseErrorKind::UnsupportedAnchor('^').spanning(0..1));
    let build = CompileError::build(&BuildError::TooManyStates { capacity: 4 });

    assert_eq!(parse.message(), "anchor '^' is not supported at position 0");
    assert_eq!(build.message(), "an automaton holds at most 4 states");
}

#[test]
fn a_skip_rule_reads_under_the_initial_mode_and_stays() {
    let rule = RuleSpec::skip(r"\s+");
    assert_eq!(rule.pattern, r"\s+");
    assert_eq!(rule.modes, vec!["INITIAL".to_owned()]);
    assert!(matches!(rule.transition, Transition::Stay));
}

#[test]
fn a_rule_takes_the_modes_and_the_transition_that_it_is_given() {
    let rule = RuleSpec::skip("end")
        .in_modes(vec!["String".to_owned()])
        .transition(Transition::Pop);
    assert_eq!(rule.pattern, "end");
    assert_eq!(rule.modes, vec!["String".to_owned()]);
    assert!(matches!(rule.transition, Transition::Pop));
}

#[test]
fn a_transition_keeps_the_name_that_it_is_given() {
    let transition = Transition::Push("String".into());
    assert!(matches!(transition, Transition::Push(name) if name == "String"));
}

#[test]
fn built_rules_resolve_to_their_start_conditions() {
    let resolution = resolve_modes(
        vec!["String".to_owned()],
        vec![
            RuleSpec::skip("\"").transition(Transition::Push("String".to_owned())),
            RuleSpec::skip("\"").in_modes(vec!["String".to_owned()]).transition(Transition::Pop),
        ],
    )
    .expect("the lexer resolves");
    assert_eq!(resolution.rules.len(), 2);
}

fn letter() -> Expression {
    Expression::Class(CharSet::single('a'))
}

fn check_error(rules: Vec<RuleSpec>, patterns: Vec<Result<Expression, lxr_codegen::regex::ParseError>>) -> String {
    check_rules(Vec::new(), rules, &patterns)
        .expect_err("the rules fail")
        .message()
        .to_owned()
}

#[test]
fn a_pattern_that_matches_the_empty_string_fails() {
    let rules = vec![rule(&["INITIAL"], Transition::Stay), rule(&["INITIAL"], Transition::Stay)];
    let message = check_error(rules, vec![Ok(letter()), Ok(Expression::Epsilon)]);

    assert_eq!(message, "a lexer rule must consume at least one byte");
}

#[test]
fn a_pattern_that_fails_to_parse_fails_before_a_later_rule() {
    let rules = vec![rule(&["INITIAL"], Transition::Stay), rule(&["Missing"], Transition::Stay)];
    let message = check_error(
        rules,
        vec![Err(ParseErrorKind::UnsupportedAnchor('^').spanning(0..1)), Ok(letter())],
    );

    assert_eq!(message, "anchor '^' is not supported at position 0");
}

#[test]
fn the_modes_of_a_rule_fail_before_its_pattern() {
    let rules = vec![rule(&["Missing"], Transition::Stay)];
    let message = check_error(rules, vec![Err(ParseErrorKind::UnsupportedAnchor('^').spanning(0..1))]);

    assert_eq!(message, "unknown lexer mode `Missing`");
}

#[test]
fn rules_that_resolve_and_parse_pass() {
    let rules = vec![rule(&["INITIAL"], Transition::Stay)];
    let resolution = check_rules(Vec::new(), rules, &[Ok(letter())]).expect("the rules pass");

    assert_eq!(resolution.rules.len(), 1);
}
