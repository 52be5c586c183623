use vstd::prelude::*;

use super::id::NodeId;
use super::node::{Node, edges_of};

verus! {

/// Whether a leaf of `nodes` gives `rule`.
pub open spec fn gives(nodes: Seq<Node>, rule: u16) -> bool {
    exists|i: int| 0 <= i < nodes.len() && gives_at(nodes, i, rule)
}

/// Whether the node at `i` of `nodes` is a leaf that gives `rule`.
pub open spec fn gives_at(nodes: Seq<Node>, i: int, rule: u16) -> bool {
    nodes[i] matches Node::Leaf(leaf) && leaf.rule == rule
}

/// Whether an edge of a node of `nodes` closes a cycle.
pub open spec fn has_back(nodes: Seq<Node>) -> bool {
    exists|i: int, k: int|
        0 <= i < nodes.len() && 0 <= k < edges_of(nodes[i]).len() && (#[trigger] edges_of(nodes[i])[k]).back
}

/// The nodes of a rule graph, and the node at which each start condition
/// begins.
#[derive(Debug, PartialEq, Eq)]
pub struct Arena {
    nodes: Vec<Node>,
    starts: Vec<NodeId>,
    markers: Vec<bool>,
}

impl Arena {
    #[verifier::type_invariant]
    closed spec fn well_formed(self) -> bool {
        &&& self.starts@.len() > 0
        &&& self.markers@.len() == self.nodes@.len()
        &&& forall|i: int| 0 <= i < self.starts@.len() ==> self.starts@[i]@ < self.nodes@.len()
    }

    /// The nodes of the graph, in the sequence of the identifiers.
    pub closed spec fn spec_nodes(&self) -> Seq<Node> {
        self.nodes@
    }

    /// The node of each start condition.
    pub closed spec fn spec_starts(&self) -> Seq<NodeId> {
        self.starts@
    }

    /// Whether each node takes the offset of the last accept.
    pub closed spec fn spec_markers(&self) -> Seq<bool> {
        self.markers@
    }

    /// Creates an arena from its nodes, the node of each start condition, and
    /// the nodes that take a marker.
    pub fn new(nodes: Vec<Node>, starts: Vec<NodeId>, markers: Vec<bool>) -> (arena: Self)
        requires
            starts@.len() > 0,
            markers@.len() == nodes@.len(),
            forall|i: int| 0 <= i < starts@.len() ==> starts@[i]@ < nodes@.len(),
        ensures
            arena.spec_nodes() == nodes@,
            arena.spec_starts() == starts@,
            arena.spec_markers() == markers@,
    {
        Arena { nodes, starts, markers }
    }

    /// Returns the number of the nodes of the graph.
    pub fn node_count(&self) -> (count: usize)
        ensures
            count == self.spec_nodes().len(),
    {
        self.nodes.len()
    }

    /// Returns the node that `id` refers to.
    pub fn node(&self, id: NodeId) -> (node: &Node)
        requires
            id@ < self.spec_nodes().len(),
        ensures
            *node == self.spec_nodes()[id@ as int],
    {
        &self.nodes[id.index()]
    }

    /// Returns each node of the graph, in the sequence of the identifiers.
    pub fn nodes(&self) -> (nodes: &[Node])
        ensures
            nodes@ == self.spec_nodes(),
    {
        self.nodes.as_slice()
    }

    /// Returns the node at which the start condition at `condition` begins.
    pub fn start(&self, condition: usize) -> (id: NodeId)
        requires
            condition < self.spec_starts().len(),
        ensures
            id == self.spec_starts()[condition as int],
            id@ < self.spec_nodes().len(),
    {
        proof {
            use_type_invariant(self);
        }
        self.starts[condition]
    }

    /// Returns the number of the start conditions of the graph.
    pub fn start_count(&self) -> (count: usize)
        ensures
            count == self.spec_starts().len(),
            count > 0,
    {
        proof {
            use_type_invariant(self);
        }
        self.starts.len()
    }

    /// Returns whether the node that `id` refers to takes the offset of the
    /// last accept.
    pub fn takes_marker(&self, id: NodeId) -> (takes: bool)
        requires
            id@ < self.spec_nodes().len(),
        ensures
            takes == self.spec_markers()[id@ as int],
    {
        proof {
            use_type_invariant(self);
        }
        self.markers[id.index()]
    }

    /// Returns each rule that a leaf of the graph gives, in ascending sequence
    /// and each rule one time.
    ///
    /// A rule that no leaf gives can never win a match.
    pub fn winners(&self) -> (rules: Vec<u16>)
        ensures
            forall|k: int, m: int| 0 <= k < m < rules@.len() ==> rules@[k] < rules@[m],
            forall|rule: u16| rules@.contains(rule) <==> gives(self.spec_nodes(), rule),
    {
        let mut seen: Vec<bool> = Vec::new();
        let mut rule: usize = 0;
        while rule < 0x10000
            invariant
                rule <= 0x10000,
                seen@.len() == rule,
                forall|r: int| 0 <= r < rule ==> !seen@[r],
            decreases 0x10000 - rule,
        {
            seen.push(false);
            rule = rule + 1;
        }
        let mut i: usize = 0;
        while i < self.nodes.len()
            invariant
                i <= self.spec_nodes().len(),
                seen@.len() == 0x10000,
                forall|r: u16| #[trigger] seen@[r as int] <==> gives(self.spec_nodes().take(i as int), r),
            decreases self.spec_nodes().len() - i,
        {
            let ghost before = self.spec_nodes().take(i as int);
            let ghost after = self.spec_nodes().take(i + 1);
            proof {
                assert(after =~= before.push(self.spec_nodes()[i as int]));
            }
            match &self.nodes[i] {
                Node::Leaf(leaf) => {
                    seen.set(leaf.rule as usize, true);
                    proof {
                        assert forall|r: u16| #[trigger] seen@[r as int] <==> gives(after, r) by {
                            if gives(after, r) && r != leaf.rule {
                                let j = choose|j: int| 0 <= j < after.len() && gives_at(after, j, r);
                                assert(before[j] == after[j]);
                                assert(gives_at(before, j, r));
                            }
                            if gives(before, r) {
                                let j = choose|j: int| 0 <= j < before.len() && gives_at(before, j, r);
                                assert(after[j] == before[j]);
                                assert(gives_at(after, j, r));
                            }
                            if r == leaf.rule {
                                let last = i as int;
                                assert(after[last] == Node::Leaf(*leaf));
                                assert(gives_at(after, last, r));
                            }
                        }
                    }
                },
                _ => {
                    proof {
                        assert forall|r: u16| #[trigger] seen@[r as int] <==> gives(after, r) by {
                            if gives(after, r) {
                                let j = choose|j: int| 0 <= j < after.len() && gives_at(after, j, r);
                                assert(before[j] == after[j]);
                                assert(gives_at(before, j, r));
                            }
                            if gives(before, r) {
                                let j = choose|j: int| 0 <= j < before.len() && gives_at(before, j, r);
                                assert(after[j] == before[j]);
                                assert(gives_at(after, j, r));
                            }
                        }
                    }
                },
            }
            i = i + 1;
        }
        proof {
            assert(self.spec_nodes().take(self.spec_nodes().len() as int) =~= self.spec_nodes());
        }
        let mut rules: Vec<u16> = Vec::new();
        let mut rule: usize = 0;
        while rule < 0x10000
            invariant
                rule <= 0x10000,
                seen@.len() == 0x10000,
                forall|r: u16| #[trigger] seen@[r as int] <==> gives(self.spec_nodes(), r),
                forall|k: int, m: int| 0 <= k < m < rules@.len() ==> rules@[k] < rules@[m],
                forall|k: int| 0 <= k < rules@.len() ==> rules@[k] < rule,
                forall|r: u16| r < rule ==> (rules@.contains(r) <==> #[trigger] seen@[r as int]),
            decreases 0x10000 - rule,
        {
            let ghost before = rules@;
            if seen[rule] {
                rules.push(rule as u16);
                proof {
                    assert forall|r: u16| r < rule + 1 implies (rules@.contains(r) <==> #[trigger] seen@[r as int]) by {
                        if r == rule {
                            assert(rules@[rules@.len() - 1] == r);
                        } else if rules@.contains(r) {
                            let k = choose|k: int| 0 <= k < rules@.len() && rules@[k] == r;
                            assert(before[k] == r);
                        } else if seen@[r as int] {
                            let k = choose|k: int| 0 <= k < before.len() && before[k] == r;
                            assert(rules@[k] == r);
                        }
                    }
                }
            }
            rule = rule + 1;
        }
        proof {
            assert forall|r: u16| rules@.contains(r) <==> gives(self.spec_nodes(), r) by {
                assert(seen@[r as int] <==> gives(self.spec_nodes(), r));
            }
        }
        rules
    }
}


impl Arena {
    /// Returns whether the graph holds an edge that closes a cycle.
    pub fn has_back_edge(&self) -> (found: bool)
        ensures
            found == has_back(self.spec_nodes()),
    {
        let mut i: usize = 0;
        while i < self.nodes.len()
            invariant
                i <= self.spec_nodes().len(),
                forall|j: int, k: int|
                    0 <= j < i && 0 <= k < edges_of(self.spec_nodes()[j]).len() ==> !(#[trigger] edges_of(
                        self.spec_nodes()[j],
                    )[k]).back,
            decreases self.spec_nodes().len() - i,
        {
            let edges = self.nodes[i].edges();
            let mut k: usize = 0;
            while k < edges.len()
                invariant
                    i < self.spec_nodes().len(),
                    edges@ == edges_of(self.spec_nodes()[i as int]),
                    k <= edges@.len(),
                    forall|m: int| 0 <= m < k ==> !(#[trigger] edges@[m]).back,
                decreases edges@.len() - k,
            {
                if edges[k].back {
                    return true;
                }
                k = k + 1;
            }
            i = i + 1;
        }
        false
    }
}
} // verus!
