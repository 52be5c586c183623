use lxr_codegen::automata::StateId;
use lxr_codegen::automata::dfa::Builder;
use lxr_codegen::code::find::{DEEP_STATES, MAX_CODE_STATES, SHALLOW_STATES, accepting_start, code_depth, depth};
use lxr_codegen::compiler::Accepts;
use lxr_codegen::automata::encoding::ByteRange;
use lxr_codegen::code::emitter::{Emitter, LARGE_GRAPH, Rule, Shape};
use lxr_codegen::code::fork::{Dispatch, ForkPlan, fork_plan};
use lxr_codegen::graph::arena::Arena;
use lxr_codegen::graph::id::NodeId;
use lxr_codegen::graph::node::{Arm, Carry, Edge, Fork, Leaf, Node, Rope};

fn edge(target: usize, back: bool) -> Edge {
    Edge {
        target: NodeId::new(target),
        carry: Carry::Nothing,
        back,
    }
}

fn arm(low: u8, high: u8, target: usize, back: bool) -> Arm {
    Arm {
        ranges: vec![ByteRange::new(low, high)],
        edge: edge(target, back),
    }
}

/// A graph whose fork at node 2 loops over letters through a back edge, and
/// ends its match at the leaf of node 3.
fn looping() -> Arena {
    let nodes = vec![
        Node::Fork(Fork {
            arms: vec![arm(b'a', b'z', 1, false)],
            miss: edge(4, false),
        }),
        Node::Rope(Rope {
            bytes: vec![b'x'],
            matched: edge(2, false),
            miss: edge(4, false),
        }),
        Node::Fork(Fork {
            arms: vec![arm(b'a', b'z', 2, true)],
            miss: edge(3, false),
        }),
        Node::Leaf(Leaf { rule: 0, here: true }),
        Node::Leaf(Leaf { rule: 1, here: false }),
        Node::Fault,
    ];
    Arena::new(
        nodes,
        vec![NodeId::new(0), NodeId::new(1)],
        vec![false, false, true, false, false, false],
    )
}

fn rules() -> Vec<Rule> {
    vec![
        Rule {
            token: true,
            value: true,
            go: None,
        },
        Rule {
            token: false,
            value: false,
            go: Some(1),
        },
    ]
}

#[test]
fn a_node_that_calls_a_node_of_a_cycle_takes_the_resume() {
    let arena = looping();
    let rules = rules();
    let emitter = Emitter::new(&arena, &rules);

    assert!(emitter.shape(NodeId::new(0)).resume);
    assert!(emitter.shape(NodeId::new(1)).resume);
    assert!(emitter.shape(NodeId::new(2)).resume);
    assert!(!emitter.shape(NodeId::new(3)).resume);
}

#[test]
fn each_node_takes_the_parameters_that_it_reads() {
    let arena = looping();
    let rules = rules();
    let emitter = Emitter::new(&arena, &rules);

    assert_eq!(
        emitter.shape(NodeId::new(2)),
        Shape {
            input: true,
            marker: true,
            resume: true,
        }
    );
    assert_eq!(
        emitter.shape(NodeId::new(3)),
        Shape {
            input: true,
            marker: false,
            resume: false,
        }
    );
    assert_eq!(
        emitter.shape(NodeId::new(4)),
        Shape {
            input: false,
            marker: true,
            resume: false,
        }
    );
    assert_eq!(
        emitter.shape(NodeId::new(5)),
        Shape {
            input: false,
            marker: false,
            resume: false,
        }
    );
}

#[test]
fn a_back_edge_to_a_node_of_a_marker_carries_the_accept() {
    let arena = looping();
    let rules = rules();
    let emitter = Emitter::new(&arena, &rules);

    assert!(emitter.carries());
    assert!(emitter.has_condition());
    assert!(emitter.ends_a_match(NodeId::new(2)));
    assert!(!emitter.ends_a_match(NodeId::new(0)));
    assert!(!emitter.has_run());
}

#[test]
fn a_loop_that_ends_no_match_keeps_a_run() {
    let nodes = vec![
        Node::Fork(Fork {
            arms: vec![arm(b'0', b'9', 0, true)],
            miss: edge(1, false),
        }),
        Node::Leaf(Leaf { rule: 0, here: false }),
    ];
    let arena = Arena::new(nodes, vec![NodeId::new(0)], vec![false, false]);
    let rules = rules();
    let emitter = Emitter::new(&arena, &rules);

    assert!(emitter.has_run());
    assert!(!emitter.carries());
    assert!(!emitter.has_condition());
    assert!(emitter.run_tables().is_empty());
    assert_eq!(emitter.run_test(NodeId::new(0)), None);
}

#[test]
fn the_runs_of_a_large_graph_share_the_bits_of_their_classes() {
    let count = LARGE_GRAPH + 12;
    let mut nodes = Vec::new();
    for index in 0..count - 1 {
        let (low, high) = match index % 10 {
            0 | 1 => (b'a', b'z'),
            2 => (b'0', b'9'),
            digit => (b'A' + digit as u8, b'A' + digit as u8),
        };
        nodes.push(Node::Fork(Fork {
            arms: vec![arm(b'!', b'!', count - 1, false), arm(low, high, index, true)],
            miss: edge(count - 1, false),
        }));
    }
    nodes.push(Node::Fault);
    let arena = Arena::new(nodes, vec![NodeId::new(0)], vec![false; count]);
    let rules = rules();
    let emitter = Emitter::new(&arena, &rules);

    let letters = emitter.run_test(NodeId::new(0)).expect("a run of a large graph has a test");
    assert_eq!(emitter.run_test(NodeId::new(1)), Some(letters));
    assert_eq!(emitter.run_test(NodeId::new(10)), Some(letters));
    let digits = emitter.run_test(NodeId::new(2)).expect("a run of a large graph has a test");
    assert_ne!(digits, letters);
    assert_eq!(emitter.run_test(NodeId::new(count - 1)), None);
    assert_eq!(emitter.run_tables().len(), 2);

    let tables = emitter.run_tables();
    for byte in 0..=255u8 {
        let letter = tables[letters.0][usize::from(byte)] & letters.1 != 0;
        let digit = tables[digits.0][usize::from(byte)] & digits.1 != 0;
        assert_eq!(letter, byte.is_ascii_lowercase(), "byte {byte:#04X}");
        assert_eq!(digit, byte.is_ascii_digit(), "byte {byte:#04X}");
    }
}

#[test]
fn the_depth_of_an_arm_falls_as_the_lexer_grows() {
    assert_eq!(depth(0), 2);
    assert_eq!(depth(DEEP_STATES - 1), 2);
    assert_eq!(depth(DEEP_STATES), 1);
    assert_eq!(depth(SHALLOW_STATES - 1), 1);
    assert_eq!(depth(SHALLOW_STATES), 0);
    assert_eq!(depth(MAX_CODE_STATES), 0);
}

#[test]
fn a_lexer_above_the_limit_gets_no_depth() {
    assert_eq!(code_depth(3, 2), None);
    assert_eq!(code_depth(3, 3), Some(2));
    assert_eq!(code_depth(MAX_CODE_STATES, MAX_CODE_STATES), Some(0));
    assert_eq!(code_depth(MAX_CODE_STATES + 1, MAX_CODE_STATES), None);
    assert_eq!(code_depth(DEEP_STATES, MAX_CODE_STATES), Some(1));
}

#[test]
fn a_start_state_that_accepts_is_found() {
    let mut builder: Builder<ByteRange> = Builder::new();
    let first = builder.add_state();
    let second = builder.add_state();
    let after = builder.add_state();
    builder.add_transition(first, ByteRange::new(b'a', b'a'), after);
    let dfa = builder
        .build(&[first, second])
        .expect("the test DFA is below its capacity");

    let reads = Accepts::new(3, vec![(after, 0u16)]);
    assert_eq!(accepting_start(&dfa, &reads), None);

    let empty = Accepts::new(3, vec![(after, 0u16), (second, 1u16)]);
    assert_eq!(accepting_start(&dfa, &empty), Some(second));
    assert_eq!(StateId::new(1), second);
}

/// An arena of `count` nodes whose node 0 is a fork of `arms`, the others
/// faults.
fn one_fork(arms: Vec<Arm>, count: usize) -> Arena {
    let mut nodes = vec![Node::Fork(Fork { arms, miss: edge(1, false) })];
    while nodes.len() < count {
        nodes.push(Node::Fault);
    }
    let markers = vec![false; count];
    Arena::new(nodes, vec![NodeId::new(0)], markers)
}

#[test]
fn a_fork_reads_its_run_and_matches_the_other_arms() {
    let arena = one_fork(vec![arm(b'a', b'z', 0, true), arm(b'0', b'9', 1, false)], 3);
    assert_eq!(
        fork_plan(&arena, NodeId::new(0)),
        ForkPlan { run: true, dispatch: Dispatch::Match { rest: true } }
    );
}

#[test]
fn a_fork_of_no_other_arm_takes_the_miss() {
    let arena = one_fork(vec![arm(b'a', b'z', 0, true)], 2);
    assert_eq!(
        fork_plan(&arena, NodeId::new(0)),
        ForkPlan { run: true, dispatch: Dispatch::MissOnly }
    );
}

#[test]
fn a_fork_of_each_byte_needs_no_rest_arm() {
    let arena = one_fork(vec![arm(0, 127, 1, false), arm(128, 255, 2, false)], 3);
    assert_eq!(
        fork_plan(&arena, NodeId::new(0)),
        ForkPlan { run: false, dispatch: Dispatch::Match { rest: false } }
    );
}

#[test]
fn a_wide_fork_of_a_large_graph_takes_a_table() {
    let arms = vec![arm(b'a', b'a', 1, false), arm(b'b', b'b', 2, false), arm(b'c', b'c', 3, false)];
    let large = one_fork(arms.clone(), LARGE_GRAPH + 1);
    assert_eq!(
        fork_plan(&large, NodeId::new(0)),
        ForkPlan { run: false, dispatch: Dispatch::Table }
    );
    let small = one_fork(arms, LARGE_GRAPH);
    assert_eq!(
        fork_plan(&small, NodeId::new(0)),
        ForkPlan { run: false, dispatch: Dispatch::Match { rest: true } }
    );
}
