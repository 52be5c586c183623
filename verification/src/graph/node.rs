use vstd::prelude::*;

use super::id::NodeId;
use crate::automata::encoding::ByteRange;

verus! {

/// One node of a rule graph.
///
/// Each node becomes one function of the emitted source. The scan enters a
/// node at an offset of the input, and the node reads the bytes at that
/// offset.
#[derive(Debug, Clone, PartialEq, Eq, Hash)]
pub enum Node {
    /// Reads one byte, then goes to the node of the arm that holds that byte.
    Fork(Fork),
    /// Reads a sequence of bytes at one time.
    Rope(Rope),
    /// Gives the token of one rule, and ends the step.
    Leaf(Leaf),
    /// Reports that no rule matched, and ends the step.
    Fault,
}

/// A node that reads one byte.
///
/// The arms hold no byte in common. A byte that no arm holds gives the miss,
/// and the scan then reads that byte again at the node of the miss.
#[derive(Debug, Clone, PartialEq, Eq, Hash)]
pub struct Fork {
    /// One arm for each node that a byte of this fork goes to.
    pub arms: Vec<Arm>,
    /// The node that a byte of no arm goes to, at the offset of this fork.
    pub miss: Edge,
}

/// One arm of a [`Fork`].
#[derive(Debug, Clone, PartialEq, Eq, Hash)]
pub struct Arm {
    /// The byte ranges that take this arm, in ascending sequence.
    pub ranges: Vec<ByteRange>,
    /// The node that the arm goes to, at the offset after the byte.
    pub edge: Edge,
}

/// A node that reads a sequence of bytes at one time.
///
/// A sequence that does not match gives the miss, at the offset of the first
/// byte of the rope.
#[derive(Debug, Clone, PartialEq, Eq, Hash)]
pub struct Rope {
    /// The bytes that the rope reads.
    pub bytes: Vec<u8>,
    /// The node that a match goes to, at the offset after the bytes.
    pub matched: Edge,
    /// The node that a mismatch goes to, at the offset of the first byte.
    pub miss: Edge,
}

/// A node that ends the step with the token of one rule.
#[derive(Debug, Clone, Copy, PartialEq, Eq, Structural, Hash)]
pub struct Leaf {
    /// The rule that won the match.
    pub rule: u16,
    /// Whether the match ends at the offset of this leaf.
    pub here: bool,
}

/// One edge of the graph, and the marker that it carries.
#[derive(Debug, Clone, Copy, PartialEq, Eq, Structural, Hash)]
pub struct Edge {
    /// The node that the edge goes to.
    pub target: NodeId,
    /// The offset of the last accept that the edge carries to that node.
    pub carry: Carry,
    /// Whether the edge closes a cycle of the graph.
    pub back: bool,
}

/// The offset of the last accept that one edge carries.
#[derive(Debug, Clone, Copy, PartialEq, Eq, Structural, Hash)]
pub enum Carry {
    /// The node takes no marker.
    Nothing,
    /// The accept is at the offset of this node plus this number of bytes.
    Ahead(usize),
    /// The accept is at the offset that this node took as its marker.
    Marker,
}

/// The edges that leave `node`: the edge of each arm and then the miss of a
/// fork, the match and then the miss of a rope, and no edge for a leaf or a
/// fault.
pub open spec fn edges_of(node: Node) -> Seq<Edge> {
    match node {
        Node::Fork(fork) => fork.arms@.map_values(|arm: Arm| arm.edge).push(fork.miss),
        Node::Rope(rope) => seq![rope.matched, rope.miss],
        Node::Leaf(_) => Seq::empty(),
        Node::Fault => Seq::empty(),
    }
}

impl Node {
    /// Returns each edge that leaves this node.
    pub fn edges(&self) -> (edges: Vec<Edge>)
        ensures
            edges@ == edges_of(*self),
    {
        match self {
            Node::Fork(fork) => {
                let mut edges: Vec<Edge> = Vec::new();
                let mut i: usize = 0;
                while i < fork.arms.len()
                    invariant
                        i <= fork.arms@.len(),
                        edges@ == fork.arms@.take(i as int).map_values(|arm: Arm| arm.edge),
                    decreases fork.arms@.len() - i,
                {
                    edges.push(fork.arms[i].edge);
                    proof {
                        assert(fork.arms@.take(i + 1).map_values(|arm: Arm| arm.edge) =~= fork.arms@.take(
                            i as int,
                        ).map_values(|arm: Arm| arm.edge).push(fork.arms@[i as int].edge));
                    }
                    i = i + 1;
                }
                edges.push(fork.miss);
                proof {
                    assert(fork.arms@.take(fork.arms@.len() as int) =~= fork.arms@);
                }
                edges
            },
            Node::Rope(rope) => {
                let mut edges: Vec<Edge> = Vec::new();
                edges.push(rope.matched);
                edges.push(rope.miss);
                proof {
                    assert(edges@ =~= seq![rope.matched, rope.miss]);
                }
                edges
            },
            Node::Leaf(_) => Vec::new(),
            Node::Fault => Vec::new(),
        }
    }
}


/// Whether `a` and `b` are nodes of one kind that read the same bytes: the
/// same ranges in each arm of a fork, the same bytes of a rope, or the same
/// leaf. The edges may differ.
pub open spec fn same_shape(a: Node, b: Node) -> bool {
    match (a, b) {
        (Node::Fork(x), Node::Fork(y)) => {
            &&& x.arms@.len() == y.arms@.len()
            &&& forall|k: int| 0 <= k < x.arms@.len() ==> (#[trigger] x.arms@[k]).ranges@ == y.arms@[k].ranges@
        },
        (Node::Rope(x), Node::Rope(y)) => x.bytes@ == y.bytes@,
        (Node::Leaf(x), Node::Leaf(y)) => x == y,
        (Node::Fault, Node::Fault) => true,
        _ => false,
    }
}

/// Whether `a` and `b` are the same node: the same shape and the same
/// edges.
pub open spec fn alike(a: Node, b: Node) -> bool {
    same_shape(a, b) && edges_of(a) == edges_of(b)
}

impl Node {
    /// Returns the edge at `index` of the edges that leave this node, to
    /// change: the edge of each arm and then the miss of a fork, the match
    /// and then the miss of a rope.
    pub fn edges_mut(&mut self, index: usize) -> (edge: &mut Edge)
        requires
            index < edges_of(*old(self)).len(),
        ensures
            *edge == edges_of(*old(self))[index as int],
            edges_of(*final(self)) == edges_of(*old(self)).update(index as int, *final(edge)),
            same_shape(*old(self), *final(self)),
    {
        match self {
            Node::Fork(fork) => {
                if index < fork.arms.len() {
                    &mut fork.arms[index].edge
                } else {
                    &mut fork.miss
                }
            },
            Node::Rope(rope) => {
                if index == 0 {
                    &mut rope.matched
                } else {
                    &mut rope.miss
                }
            },
            Node::Leaf(_) => {
                proof {
                    assert(false);
                }
                loop
                    invariant
                        false,
                    decreases 0nat,
                {
                }
            },
            Node::Fault => {
                proof {
                    assert(false);
                }
                loop
                    invariant
                        false,
                    decreases 0nat,
                {
                }
            },
        }
    }
}
} // verus!
