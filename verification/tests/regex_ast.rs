use lxr_codegen::regex::{CharSet, Node, Repetitions};

fn class(character: char) -> Node {
    Node::Class(CharSet::single(character))
}

fn folded(atoms: usize) -> Node {
    (0..atoms).fold(Node::Epsilon, |node, _| node.concat(class('a')))
}

#[test]
fn concatenation_holds_every_part_in_one_node() {
    let node = class('a').concat(class('b')).concat(class('c'));
    assert_eq!(
        node,
        Node::Concatenation(vec![class('a'), class('b'), class('c')])
    );
}

#[test]
fn alternation_holds_every_branch_in_one_node() {
    let node = class('a').alternate(class('b')).alternate(class('c'));
    assert_eq!(
        node,
        Node::Alternation(vec![class('a'), class('b'), class('c')])
    );
}

#[test]
fn ast_grouping_does_not_change_a_concatenation() {
    let left_folded = class('a').concat(class('b')).concat(class('c'));
    let right_folded = class('a').concat(class('b').concat(class('c')));
    assert_eq!(left_folded, right_folded);
}

#[test]
fn ast_grouping_does_not_change_an_alternation() {
    let left_folded = class('a').alternate(class('b')).alternate(class('c'));
    let right_folded = class('a').alternate(class('b').alternate(class('c')));
    assert_eq!(left_folded, right_folded);
}

#[test]
fn ast_quantifiers_still_nest_their_operand() {
    let node = class('a').concat(class('b')).star();
    assert_eq!(
        node,
        Node::Star(Box::new(Node::Concatenation(vec![class('a'), class('b')])))
    );
}

#[test]
fn ast_epsilon_is_absorbed_by_concatenation() {
    assert_eq!(Node::Epsilon.concat(class('a')), class('a'));
    assert_eq!(class('a').concat(Node::Epsilon), class('a'));
    assert_eq!(Node::Epsilon.concat(Node::Epsilon), Node::Epsilon);
}

#[test]
fn ast_a_long_concatenation_is_flat_rather_than_deep() {
    match folded(100_000) {
        Node::Concatenation(parts) => assert_eq!(parts.len(), 100_000),
        other => panic!("expected one concatenation node, got {other:?}"),
    }
}

#[test]
fn ast_a_long_concatenation_drops_without_overflowing_the_stack() {
    drop(folded(100_000));
}

#[test]
fn ast_the_expanded_size_saturates_rather_than_overflows() {
    let node = class('a').repeated(Repetitions::Range(0, usize::MAX));
    assert_eq!(node.expanded_size(), usize::MAX);
}

#[test]
fn ast_a_long_alternation_drops_without_overflowing_the_stack() {
    let node = (0..100_000).fold(Node::Epsilon, |node, _| node.alternate(class('a')));
    drop(node);
}

#[test]
fn a_repetition_counts_one_copy_for_each_permitted_repetition() {
    let three = class('a').repeated(Repetitions::Range(3, 3));
    let range = class('a').repeated(Repetitions::Range(1, 3));
    let at_least = class('a').repeated(Repetitions::AtLeast(2));
    let nested = class('a')
        .repeated(Repetitions::Range(100, 100))
        .repeated(Repetitions::Range(100, 100));

    assert_eq!(class('a').expanded_size(), 1);
    assert_eq!(three.expanded_size(), 4);
    assert_eq!(range.expanded_size(), 6);
    assert_eq!(at_least.expanded_size(), 5);
    assert_eq!(nested.expanded_size(), 10_101);
}

#[test]
fn a_node_that_reads_a_character_does_not_match_the_empty_string() {
    assert!(!class('a').matches_empty());
    assert!(!class('a').concat(class('b')).matches_empty());
    assert!(!class('a').alternate(class('b')).matches_empty());
    assert!(!class('a').plus().matches_empty());
    assert!(!class('a').repeated(Repetitions::Range(1, 3)).matches_empty());
}

#[test]
fn a_node_that_reads_no_character_matches_the_empty_string() {
    assert!(Node::Epsilon.matches_empty());
    assert!(class('a').star().matches_empty());
    assert!(class('a').optional().matches_empty());
    assert!(class('a').repeated(Repetitions::Range(0, 3)).matches_empty());
    assert!(class('a').alternate(Node::Epsilon).matches_empty());
    assert!(class('a').star().concat(class('b').star()).matches_empty());
    assert!(class('a').star().plus().matches_empty());
    for node in reads_no_character() {
        assert!(node.matches_empty(), "{node:?} reads a character");
    }
}

#[test]
fn the_first_inverted_repetition_is_found() {
    let inverted = Repetitions::Range(5, 2);

    assert_eq!(class('a').repeated(inverted).inverted_repetition(), Some(inverted));
    assert_eq!(
        class('a').repeated(Repetitions::Range(2, 5)).inverted_repetition(),
        None
    );
    let nested = class('b').concat(class('a').repeated(Repetitions::Range(4, 1)).star());
    assert_eq!(nested.inverted_repetition(), Some(Repetitions::Range(4, 1)));
}

fn reads_at_least_one_character() -> Vec<Node> {
    vec![
        class('a'),
        class('a').concat(class('b')),
        class('a').alternate(class('b')),
        class('a').plus(),
        class('a').repeated(Repetitions::Range(1, 3)),
        class('a').alternate(class('b')).plus().concat(class('c')),
        class('a').star().concat(class('b')).plus(),
    ]
}

fn reads_no_character() -> Vec<Node> {
    vec![
        class('a').star(),
        class('a').optional(),
        class('a').repeated(Repetitions::Range(0, 3)),
        class('a').alternate(Node::Epsilon),
        class('a').star().concat(class('b').star()),
        class('a').star().plus(),
        class('a').optional().repeated(Repetitions::Range(2, 2)),
    ]
}

#[test]
fn a_node_that_reads_at_least_one_character_does_not_match_the_empty_string() {
    for node in reads_at_least_one_character() {
        assert!(!node.matches_empty(), "{node:?} matches the empty string");
    }
}

#[test]
fn ast_the_expanded_size_counts_one_copy_for_each_permitted_repetition() {
    let single = class('a');
    let three = class('a').repeated(Repetitions::Range(3, 3));
    let range = class('a').repeated(Repetitions::Range(1, 3));
    let at_least = class('a').repeated(Repetitions::AtLeast(2));

    assert_eq!(single.expanded_size(), 1);
    assert_eq!(three.expanded_size(), 4);
    assert_eq!(range.expanded_size(), 6);
    assert_eq!(at_least.expanded_size(), 5);
}

#[test]
fn ast_a_nested_repetition_multiplies_the_expanded_size() {
    let node = class('a')
        .repeated(Repetitions::Range(100, 100))
        .repeated(Repetitions::Range(100, 100));
    assert_eq!(node.expanded_size(), 10_101);
}

#[test]
fn a_copy_of_a_tree_equals_the_tree() {
    let node = class('a')
        .concat(class('b').alternate(class('c')).star())
        .concat(class('d').repeated(Repetitions::Range(1, 3)).plus().optional());
    assert_eq!(node.clone(), node);
    assert_eq!(Node::Epsilon.clone(), Node::Epsilon);
}
