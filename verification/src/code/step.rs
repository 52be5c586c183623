//! The step of the emitted source, and the nodes that it resumes.
use vstd::prelude::*;

use crate::graph::arena::Arena;
use crate::graph::construction::{insert_ascending, strictly_ascending};
use crate::graph::id::NodeId;
use crate::graph::node::{Node, edges_of};

verus! {

/// Whether an edge of a node of `nodes` that closes a cycle goes to `target`.
pub open spec fn resumed_at(nodes: Seq<Node>, target: nat) -> bool {
    exists|i: int, k: int|
        0 <= i < nodes.len() && 0 <= k < edges_of(nodes[i]).len() && (#[trigger] edges_of(nodes[i])[k]).back
            && edges_of(nodes[i])[k].target@ == target
}

/// Whether an edge of `edges` before `count` closes a cycle and goes to
/// `target`.
pub open spec fn back_to(edges: Seq<crate::graph::node::Edge>, count: int, target: nat) -> bool {
    exists|k: int| 0 <= k < count && (#[trigger] edges[k]).back && edges[k].target@ == target
}

/// Returns each node that an edge of a cycle goes to, in ascending sequence.
pub fn resumed(arena: &Arena) -> (targets: Vec<NodeId>)
    ensures
        forall|a: int, b: int| 0 <= a < b < targets@.len() ==> (#[trigger] targets@[a])@ < (#[trigger] targets@[b])@,
        forall|t: nat|
            (exists|p: int| 0 <= p < targets@.len() && (#[trigger] targets@[p])@ == t) <==> resumed_at(
                arena.spec_nodes(),
                t,
            ),
{
    let nodes = arena.nodes();
    let mut found: Vec<usize> = Vec::new();
    let mut i: usize = 0;
    while i < nodes.len()
        invariant
            nodes@ == arena.spec_nodes(),
            i <= nodes@.len(),
            strictly_ascending(found@),
            forall|r: usize| #[trigger] found@.contains(r) ==> r <= u32::MAX,
            forall|r: usize| #[trigger] found@.contains(r) <==> resumed_at(nodes@.take(i as int), r as nat),
        decreases nodes@.len() - i,
    {
        let edges = nodes[i].edges();
        let ghost before = found@;
        let mut k: usize = 0;
        while k < edges.len()
            invariant
                i < nodes@.len(),
                edges@ == edges_of(nodes@[i as int]),
                k <= edges@.len(),
                strictly_ascending(found@),
                forall|r: usize| #[trigger] found@.contains(r) ==> r <= u32::MAX,
                forall|r: usize| #[trigger] found@.contains(r) <==> before.contains(r) || back_to(edges@, k as int, r as nat),
            decreases edges@.len() - k,
        {
            let ghost prior = found@;
            if edges[k].back {
                insert_ascending(&mut found, edges[k].target.index());
            }
            proof {
                assert forall|r: usize| #[trigger] found@.contains(r) <==> before.contains(r) || back_to(edges@, k + 1, r as nat) by {
                    if back_to(edges@, k + 1, r as nat) && !back_to(edges@, k as int, r as nat) {
                        let m = choose|m: int| 0 <= m < k + 1 && (#[trigger] edges@[m]).back && edges@[m].target@ == r as nat;
                        assert(m == k);
                    }
                    if back_to(edges@, k as int, r as nat) {
                        let m = choose|m: int| 0 <= m < k && (#[trigger] edges@[m]).back && edges@[m].target@ == r as nat;
                        assert(back_to(edges@, k + 1, r as nat));
                    }
                    if edges@[k as int].back && r == edges@[k as int].target@ {
                        assert(back_to(edges@, k + 1, r as nat));
                    }
                }
            }
            k = k + 1;
        }
        proof {
            let taken = nodes@.take(i as int);
            let grown = nodes@.take(i + 1);
            assert forall|r: usize| #[trigger] found@.contains(r) <==> resumed_at(grown, r as nat) by {
                if resumed_at(grown, r as nat) {
                    let (j, m) = choose|j: int, m: int|
                        0 <= j < grown.len() && 0 <= m < edges_of(grown[j]).len() && (#[trigger] edges_of(grown[j])[m]).back
                            && edges_of(grown[j])[m].target@ == r as nat;
                    if j < i {
                        assert(grown[j] == taken[j]);
                        assert(resumed_at(taken, r as nat));
                    } else {
                        assert(grown[j] == nodes@[i as int]);
                        assert(back_to(edges@, k as int, r as nat));
                    }
                }
                if resumed_at(taken, r as nat) {
                    let (j, m) = choose|j: int, m: int|
                        0 <= j < taken.len() && 0 <= m < edges_of(taken[j]).len() && (#[trigger] edges_of(taken[j])[m]).back
                            && edges_of(taken[j])[m].target@ == r as nat;
                    assert(grown[j] == taken[j]);
                    assert(resumed_at(grown, r as nat));
                }
                if back_to(edges@, k as int, r as nat) {
                    let m = choose|m: int| 0 <= m < k && (#[trigger] edges@[m]).back && edges@[m].target@ == r as nat;
                    assert(grown[i as int] == nodes@[i as int]);
                    assert(edges_of(grown[i as int])[m] == edges@[m]);
                    assert(resumed_at(grown, r as nat));
                }
            }
        }
        i = i + 1;
    }
    proof {
        assert(nodes@.take(nodes@.len() as int) =~= nodes@);
    }
    let mut targets: Vec<NodeId> = Vec::new();
    let mut p: usize = 0;
    while p < found.len()
        invariant
            p <= found@.len(),
            targets@.len() == p,
            forall|r: usize| #[trigger] found@.contains(r) ==> r <= u32::MAX,
            forall|q: int| 0 <= q < p ==> (#[trigger] targets@[q])@ == found@[q],
        decreases found@.len() - p,
    {
        proof {
            assert(found@.contains(found@[p as int]));
        }
        targets.push(NodeId::new(found[p]));
        p = p + 1;
    }
    proof {
        assert forall|t: nat|
            (exists|q: int| 0 <= q < targets@.len() && (#[trigger] targets@[q])@ == t) <==> resumed_at(
                arena.spec_nodes(),
                t,
            ) by {
            if exists|q: int| 0 <= q < targets@.len() && (#[trigger] targets@[q])@ == t {
                let q = choose|q: int| 0 <= q < targets@.len() && (#[trigger] targets@[q])@ == t;
                assert(found@.contains(found@[q]));
            }
            if resumed_at(arena.spec_nodes(), t) {
                let (j, m) = choose|j: int, m: int|
                    0 <= j < arena.spec_nodes().len() && 0 <= m < edges_of(arena.spec_nodes()[j]).len() && (#[trigger] edges_of(arena.spec_nodes()[j])[m]).back
                        && edges_of(arena.spec_nodes()[j])[m].target@ == t;
                let r = edges_of(arena.spec_nodes()[j])[m].target.0 as usize;
                assert(resumed_at(nodes@, r as nat));
                assert(found@.contains(r));
                let q = choose|q: int| 0 <= q < found@.len() && found@[q] == r;
                assert(targets@[q]@ == t);
            }
        }
    }
    targets
}

} // verus!
