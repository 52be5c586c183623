use lxr_codegen::regex::CharSet;
use lxr_codegen::regex::expression::Expression;
use lxr_codegen::regex::quantifier::{Quantifier, QuantifierRangeError};

fn class(character: char) -> Expression {
    Expression::Class(CharSet::single(character))
}

fn folded(atoms: usize) -> Expression {
    (0..atoms).fold(Expression::Epsilon, |node, _| node.concat(class('a')))
}

#[test]
fn concatenation_holds_every_part_in_one_expression() {
    let node = class('a').concat(class('b')).concat(class('c'));
    assert_eq!(
        node,
        Expression::Concatenation(vec![class('a'), class('b'), class('c')])
    );
}

#[test]
fn alternation_holds_every_branch_in_one_expression() {
    let node = class('a').alternate(class('b')).alternate(class('c'));
    assert_eq!(
        node,
        Expression::Alternation(vec![class('a'), class('b'), class('c')])
    );
}

#[test]
fn expression_grouping_does_not_change_a_concatenation() {
    let left_folded = class('a').concat(class('b')).concat(class('c'));
    let right_folded = class('a').concat(class('b').concat(class('c')));
    assert_eq!(left_folded, right_folded);
}

#[test]
fn expression_grouping_does_not_change_an_alternation() {
    let left_folded = class('a').alternate(class('b')).alternate(class('c'));
    let right_folded = class('a').alternate(class('b').alternate(class('c')));
    assert_eq!(left_folded, right_folded);
}

#[test]
fn expression_quantifiers_still_nest_their_operand() {
    let node = class('a').concat(class('b')).star();
    assert_eq!(
        node,
        Expression::Repetition(
            Box::new(Expression::Concatenation(vec![class('a'), class('b')])),
            Quantifier::zero_or_more(),
        )
    );
}

#[test]
fn expression_epsilon_is_absorbed_by_concatenation() {
    assert_eq!(Expression::Epsilon.concat(class('a')), class('a'));
    assert_eq!(class('a').concat(Expression::Epsilon), class('a'));
    assert_eq!(
        Expression::Epsilon.concat(Expression::Epsilon),
        Expression::Epsilon
    );
}

#[test]
fn expression_a_long_concatenation_is_flat_rather_than_deep() {
    match folded(100_000) {
        Expression::Concatenation(parts) => assert_eq!(parts.len(), 100_000),
        other => panic!("expected one concatenation node, got {other:?}"),
    }
}

#[test]
fn expression_a_long_concatenation_drops_without_overflowing_the_stack() {
    drop(folded(100_000));
}

#[test]
fn expression_the_expanded_size_saturates_rather_than_overflows() {
    let node = class('a').repeated(Quantifier::range(0, usize::MAX).unwrap());
    assert_eq!(node.expanded_size(), usize::MAX);
}

#[test]
fn expression_a_long_alternation_drops_without_overflowing_the_stack() {
    let node = (0..100_000).fold(Expression::Epsilon, |node, _| node.alternate(class('a')));
    drop(node);
}

#[test]
fn a_quantifier_range_cannot_have_an_inverted_bound() {
    assert_eq!(
        Quantifier::range(3, 1),
        Err(QuantifierRangeError {
            minimum: 3,
            maximum: 1,
        })
    );
}

#[test]
fn equivalent_quantifiers_have_one_representation() {
    assert_eq!(Quantifier::at_least(0), Quantifier::zero_or_more());
    assert_eq!(Quantifier::at_least(1), Quantifier::one_or_more());
    assert_eq!(Quantifier::range(0, 1), Ok(Quantifier::zero_or_one()));
    assert_eq!(Quantifier::range(3, 3), Ok(Quantifier::exactly(3)));
}

#[test]
fn the_expanded_size_of_an_expression_counts_each_copy() {
    let three = class('a').repeated(Quantifier::exactly(3));
    let range = class('a').repeated(Quantifier::range(1, 3).unwrap());
    let at_least = class('a').repeated(Quantifier::at_least(2));
    let star = class('a').star();

    assert_eq!(three.expanded_size(), 4);
    assert_eq!(range.expanded_size(), 6);
    assert_eq!(at_least.expanded_size(), 5);
    assert_eq!(star.expanded_size(), 2);
}

#[test]
fn an_expression_is_nullable_exactly_when_it_can_read_nothing() {
    assert!(Expression::Epsilon.is_nullable());
    assert!(class('a').optional().is_nullable());
    assert!(class('a').star().concat(class('b').star()).is_nullable());
    assert!(!class('a').plus().is_nullable());
    assert!(!class('a').alternate(class('b')).is_nullable());
    assert!(class('a').alternate(Expression::Epsilon).is_nullable());
}

fn reads_at_least_one_character() -> Vec<Expression> {
    vec![
        class('a'),
        class('a').concat(class('b')),
        class('a').alternate(class('b')),
        class('a').plus(),
        class('a').repeated(Quantifier::range(1, 3).unwrap()),
        class('a').alternate(class('b')).plus().concat(class('c')),
        class('a').star().concat(class('b')).plus(),
    ]
}

fn reads_no_character() -> Vec<Expression> {
    vec![
        class('a').star(),
        class('a').optional(),
        class('a').repeated(Quantifier::range(0, 3).unwrap()),
        class('a').alternate(Expression::Epsilon),
        class('a').star().concat(class('b').star()),
        class('a').star().plus(),
        class('a').optional().repeated(Quantifier::exactly(2)),
    ]
}

#[test]
fn an_expression_that_reads_at_least_one_character_does_not_match_the_empty_string() {
    for node in reads_at_least_one_character() {
        assert!(!node.is_nullable(), "{node:?} matches the empty string");
    }
}

#[test]
fn an_expression_that_reads_no_character_matches_the_empty_string() {
    for node in reads_no_character() {
        assert!(node.is_nullable(), "{node:?} reads a character");
    }
    assert!(Expression::Epsilon.is_nullable());
}

#[test]
fn expression_the_expanded_size_counts_one_copy_for_each_permitted_repetition() {
    let single = class('a');
    let three = class('a').repeated(Quantifier::exactly(3));
    let range = class('a').repeated(Quantifier::range(1, 3).unwrap());
    let at_least = class('a').repeated(Quantifier::at_least(2));

    assert_eq!(single.expanded_size(), 1);
    assert_eq!(three.expanded_size(), 4);
    assert_eq!(range.expanded_size(), 6);
    assert_eq!(at_least.expanded_size(), 5);
}

#[test]
fn expression_a_nested_repetition_multiplies_the_expanded_size() {
    let node = class('a')
        .repeated(Quantifier::exactly(100))
        .repeated(Quantifier::exactly(100));
    assert_eq!(node.expanded_size(), 10_101);
}

#[test]
fn a_copy_of_an_expression_equals_the_expression() {
    let node = class('a')
        .concat(class('b').alternate(class('c')).star())
        .concat(class('d').repeated(Quantifier::range(1, 3).unwrap()));
    assert_eq!(node.clone(), node);
    assert_eq!(Expression::Epsilon.clone(), Expression::Epsilon);
}
