use lxr_codegen::automata::encoding::ByteRange;
use lxr_codegen::automata::nfa::Builder;
use lxr_codegen::automata::{Overflow, Part, StateId};
use lxr_codegen::compiler::{Accepts, Compilation};
use lxr_codegen::code::step::resumed;
use lxr_codegen::graph::{Arm, Carry, Edge, Leaf, MAX_NODES, Node, NodeId, build};

/// The states of a lexer under construction: the automaton, the accept of
/// each accepting state, and the rule that owns each state.
struct Rules {
    builder: Builder<ByteRange>,
    marks: Vec<(StateId, u16)>,
    owners: Vec<Option<usize>>,
    start: StateId,
}

impl Rules {
    fn new() -> Self {
        let mut builder = Builder::new();
        let start = builder.add_state();
        Rules { builder, marks: Vec::new(), owners: vec![None], start }
    }

    fn state(&mut self, rule: usize) -> StateId {
        self.owners.push(Some(rule));
        self.builder.add_state()
    }

    fn accept(&mut self, state: StateId, rule: u16) {
        self.builder.mark_accept(state);
        self.marks.push((state, rule));
    }

    /// Adds a rule that reads `text`.
    fn literal(&mut self, rule: usize, text: &[u8]) {
        let entry = self.state(rule);
        self.builder.add_epsilon_transition(self.start, entry);
        let mut current = entry;
        for &byte in text {
            let next = self.state(rule);
            self.builder.add_transition(current, ByteRange::new(byte, byte), next);
            current = next;
        }
        self.accept(current, rule as u16);
    }

    fn compile(self) -> Compilation<ByteRange, u16> {
        let count = self.builder.state_count();
        let nfa = self.builder.build(&[self.start]).unwrap();
        Compilation { nfa, accepts: Accepts::new(count, self.marks), owners: self.owners }
    }
}

fn edge(target: u32, carry: Carry, back: bool) -> Edge {
    Edge { target: NodeId(target), carry, back }
}

#[test]
fn a_literal_becomes_one_rope() {
    let mut rules = Rules::new();
    rules.literal(0, b"ab");
    let arena = build(&rules.compile()).unwrap();

    assert_eq!(arena.node_count(), 3);
    assert_eq!(arena.start_count(), 1);
    assert_eq!(arena.start(0), NodeId(0));
    match arena.node(NodeId(0)) {
        Node::Rope(rope) => {
            assert_eq!(rope.bytes, b"ab".to_vec());
            assert_eq!(rope.matched, edge(2, Carry::Nothing, false));
            assert_eq!(rope.miss, edge(1, Carry::Nothing, false));
        }
        other => panic!("expected a rope, found {other:?}"),
    }
    assert_eq!(arena.node(NodeId(1)), &Node::Fault);
    assert_eq!(arena.node(NodeId(2)), &Node::Leaf(Leaf { rule: 0, here: true }));
    assert_eq!(arena.winners(), vec![0]);
    assert!(!arena.has_back_edge());
    assert_eq!(resumed(&arena), Vec::new());
}

#[test]
fn two_single_bytes_become_one_fork() {
    let mut rules = Rules::new();
    rules.literal(0, b"a");
    rules.literal(1, b"b");
    let arena = build(&rules.compile()).unwrap();

    assert_eq!(arena.node_count(), 4);
    match arena.node(NodeId(0)) {
        Node::Fork(fork) => {
            assert_eq!(
                fork.arms,
                vec![
                    Arm { ranges: vec![ByteRange::new(b'a', b'a')], edge: edge(3, Carry::Nothing, false) },
                    Arm { ranges: vec![ByteRange::new(b'b', b'b')], edge: edge(2, Carry::Nothing, false) },
                ]
            );
            assert_eq!(fork.miss, edge(1, Carry::Nothing, false));
        }
        other => panic!("expected a fork, found {other:?}"),
    }
    assert_eq!(arena.node(NodeId(1)), &Node::Fault);
    assert_eq!(arena.node(NodeId(2)), &Node::Leaf(Leaf { rule: 1, here: true }));
    assert_eq!(arena.node(NodeId(3)), &Node::Leaf(Leaf { rule: 0, here: true }));
    assert_eq!(arena.winners(), vec![0, 1]);
}

#[test]
fn nodes_that_read_the_same_input_are_joined() {
    // One rule of two alternatives, "xa" and "ya".
    let mut rules = Rules::new();
    let start = rules.start;
    let mut alternative = |rules: &mut Rules, first: u8| {
        let entry = rules.state(0);
        rules.builder.add_epsilon_transition(start, entry);
        let middle = rules.state(0);
        rules.builder.add_transition(entry, ByteRange::new(first, first), middle);
        let exit = rules.state(0);
        rules.builder.add_transition(middle, ByteRange::new(b'a', b'a'), exit);
        rules.accept(exit, 0);
    };
    alternative(&mut rules, b'x');
    alternative(&mut rules, b'y');
    let arena = build(&rules.compile()).unwrap();

    assert_eq!(arena.node_count(), 4);
    match arena.node(NodeId(0)) {
        Node::Fork(fork) => {
            assert_eq!(fork.arms.len(), 2);
            assert_eq!(fork.arms[0].edge.target, NodeId(2));
            assert_eq!(fork.arms[1].edge.target, NodeId(2));
            assert_eq!(fork.miss.target, NodeId(1));
        }
        other => panic!("expected a fork, found {other:?}"),
    }
    match arena.node(NodeId(2)) {
        Node::Fork(fork) => {
            assert_eq!(fork.arms.len(), 1);
            assert_eq!(fork.arms[0].ranges, vec![ByteRange::new(b'a', b'a')]);
            assert_eq!(fork.arms[0].edge.target, NodeId(3));
            assert_eq!(fork.miss.target, NodeId(1));
        }
        other => panic!("expected a fork, found {other:?}"),
    }
    assert_eq!(arena.node(NodeId(3)), &Node::Leaf(Leaf { rule: 0, here: true }));
}

#[test]
fn an_edge_that_closes_a_cycle_is_marked() {
    // One rule that reads "ab" one or more times.
    let mut rules = Rules::new();
    let first = rules.state(0);
    rules.builder.add_epsilon_transition(rules.start, first);
    let second = rules.state(0);
    rules.builder.add_transition(first, ByteRange::new(b'a', b'a'), second);
    let third = rules.state(0);
    rules.builder.add_transition(second, ByteRange::new(b'b', b'b'), third);
    rules.builder.add_epsilon_transition(third, first);
    rules.accept(third, 0);
    let arena = build(&rules.compile()).unwrap();

    assert_eq!(arena.node_count(), 6);
    match arena.node(NodeId(0)) {
        Node::Rope(rope) => {
            assert_eq!(rope.bytes, b"ab".to_vec());
            assert_eq!(rope.matched, edge(2, Carry::Nothing, false));
            assert_eq!(rope.miss, edge(1, Carry::Nothing, false));
        }
        other => panic!("expected a rope, found {other:?}"),
    }
    match arena.node(NodeId(2)) {
        Node::Fork(fork) => {
            assert_eq!(fork.arms.len(), 1);
            assert_eq!(fork.arms[0].edge, edge(4, Carry::Ahead(0), false));
            assert_eq!(fork.miss, edge(3, Carry::Nothing, false));
        }
        other => panic!("expected a fork, found {other:?}"),
    }
    assert_eq!(arena.node(NodeId(3)), &Node::Leaf(Leaf { rule: 0, here: true }));
    match arena.node(NodeId(4)) {
        Node::Fork(fork) => {
            assert_eq!(fork.arms.len(), 1);
            assert_eq!(fork.arms[0].edge, edge(2, Carry::Nothing, true));
            assert_eq!(fork.miss, edge(5, Carry::Marker, false));
        }
        other => panic!("expected a fork, found {other:?}"),
    }
    assert_eq!(arena.node(NodeId(5)), &Node::Leaf(Leaf { rule: 0, here: false }));
    assert!(arena.takes_marker(NodeId(4)));
    assert!(arena.takes_marker(NodeId(5)));
    assert!(!arena.takes_marker(NodeId(2)));
    assert!(arena.has_back_edge());
    assert_eq!(resumed(&arena), vec![NodeId(2)]);
}

#[test]
fn a_run_of_one_range_stays_in_its_fork() {
    // One rule that reads one or more lower-case letters.
    let mut rules = Rules::new();
    let first = rules.state(0);
    rules.builder.add_epsilon_transition(rules.start, first);
    let second = rules.state(0);
    rules.builder.add_transition(first, ByteRange::new(b'a', b'z'), second);
    rules.builder.add_transition(second, ByteRange::new(b'a', b'z'), second);
    rules.accept(second, 0);
    let arena = build(&rules.compile()).unwrap();

    let mut found = false;
    for node in arena.nodes() {
        if let Node::Fork(fork) = node {
            for arm in &fork.arms {
                assert!(!arm.edge.back);
            }
            found = true;
        }
    }
    assert!(found);
}

#[test]
fn a_lexer_of_too_many_nodes_overflows() {
    // One rule that reads more bytes than a graph holds nodes, each of two
    // choices.
    let mut rules = Rules::new();
    let mut current = rules.state(0);
    rules.builder.add_epsilon_transition(rules.start, current);
    for _ in 0..MAX_NODES + 8 {
        let next = rules.state(0);
        rules.builder.add_transition(current, ByteRange::new(b'a', b'b'), next);
        current = next;
    }
    rules.accept(current, 0);
    assert_eq!(
        build(&rules.compile()),
        Err(Overflow { part: Part::States, maximum: MAX_NODES })
    );
}

#[test]
fn overlapping_labels_divide_at_each_boundary() {
    let classes = ByteRange::divide(&[ByteRange::new(b'a', b'm'), ByteRange::new(b'f', b'z')]);
    assert_eq!(
        classes,
        vec![
            (ByteRange::new(b'a', b'e'), b'a'),
            (ByteRange::new(b'f', b'm'), b'f'),
            (ByteRange::new(b'n', b'z'), b'n'),
        ]
    );
}

#[test]
fn no_labels_divide_into_no_classes() {
    assert_eq!(ByteRange::divide(&[]), Vec::new());
}

#[test]
fn an_edge_of_a_node_can_change() {
    let mut node = Node::Rope(lxr_codegen::graph::Rope {
        bytes: b"ab".to_vec(),
        matched: edge(1, Carry::Nothing, false),
        miss: edge(2, Carry::Marker, false),
    });
    node.edges_mut(1).back = true;
    assert_eq!(node.edges(), vec![edge(1, Carry::Nothing, false), edge(2, Carry::Marker, true)]);
}
