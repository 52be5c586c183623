use lxr_codegen::automata::encoding::ByteRange;
use lxr_codegen::graph::arena::Arena;
use lxr_codegen::graph::id::NodeId;
use lxr_codegen::graph::node::{Arm, Carry, Edge, Fork, Leaf, Node, Rope};

fn edge(target: usize) -> Edge {
    Edge {
        target: NodeId::new(target),
        carry: Carry::Nothing,
        back: false,
    }
}

/// A graph that reads `ab` into rule 3, reads `c` into rule 1, and faults on
/// any other input.
fn arena() -> Arena {
    let nodes = vec![
        Node::Fork(Fork {
            arms: vec![
                Arm {
                    ranges: vec![ByteRange::new(b'a', b'a')],
                    edge: edge(1),
                },
                Arm {
                    ranges: vec![ByteRange::new(b'c', b'c')],
                    edge: edge(3),
                },
            ],
            miss: edge(4),
        }),
        Node::Rope(Rope {
            bytes: vec![b'b'],
            matched: edge(2),
            miss: edge(4),
        }),
        Node::Leaf(Leaf { rule: 3, here: true }),
        Node::Leaf(Leaf { rule: 1, here: true }),
        Node::Fault,
    ];
    Arena::new(nodes, vec![NodeId::new(0)], vec![false, true, false, false, false])
}

#[test]
fn a_node_id_round_trips_through_its_index() {
    assert_eq!(NodeId::new(0).index(), 0);
    assert_eq!(NodeId::new(7).number(), 7);
}

#[test]
fn a_fork_gives_the_edge_of_each_arm_then_its_miss() {
    let arena = arena();

    assert_eq!(arena.node(NodeId::new(0)).edges(), vec![edge(1), edge(3), edge(4)]);
    assert_eq!(arena.node(NodeId::new(1)).edges(), vec![edge(2), edge(4)]);
    assert!(arena.node(NodeId::new(2)).edges().is_empty());
    assert!(Node::Fault.edges().is_empty());
}

#[test]
fn the_winners_are_the_rules_of_the_leaves_in_ascending_sequence() {
    let arena = arena();

    assert_eq!(arena.winners(), vec![1, 3]);
    assert_eq!(arena.node_count(), 5);
    assert_eq!(arena.start_count(), 1);
    assert_eq!(arena.start(0), NodeId::new(0));
    assert!(arena.takes_marker(NodeId::new(1)));
    assert!(!arena.takes_marker(NodeId::new(0)));
}
