//! What the emitted source of a lexer reads of its graph: the parameters of
//! each node, whether a node takes the resume, and the tables that test the
//! runs of a large graph.
use vstd::prelude::*;

use crate::generate::{flagged, lemma_unset_update, unset};
use crate::graph::arena::{Arena, has_back};
use crate::graph::id::NodeId;
use crate::automata::encoding::ByteRange;
use crate::graph::node::{Arm, Edge, Fork, Node, edges_of};

verus! {

/// The largest graph that uses direct tests and forced inlining alone.
pub const LARGE_GRAPH: usize = 48;

/// Whether each edge of each node of `nodes` goes to a node of `nodes`.
pub open spec fn targets_inside(nodes: Seq<Node>) -> bool {
    forall|i: int, k: int|
        0 <= i < nodes.len() && 0 <= k < edges_of(nodes[i]).len() ==> (#[trigger] edges_of(
            nodes[i],
        )[k]).target@ < nodes.len()
}

/// Whether an edge of `node` closes a cycle of the graph.
pub open spec fn closes_cycle(node: Node) -> bool {
    exists|k: int| 0 <= k < edges_of(node).len() && (#[trigger] edges_of(node)[k]).back
}

/// Whether an edge of `node` that closes no cycle goes to a node of `set`.
pub open spec fn calls_into(node: Node, set: Set<int>) -> bool {
    exists|k: int|
        0 <= k < edges_of(node).len() && !edges_of(node)[k].back && #[trigger] set.contains(
            edges_of(node)[k].target@ as int,
        )
}

/// Whether `set` holds each node of `nodes` that closes a cycle, and each node
/// that calls a node of `set`.
pub open spec fn resume_closed(nodes: Seq<Node>, set: Set<int>) -> bool {
    forall|i: int|
        0 <= i < nodes.len() && (closes_cycle(nodes[i]) || #[trigger] calls_into(nodes[i], set))
            ==> set.contains(i)
}

/// The nodes that take the resume: those that each closed set holds.
pub open spec fn resume_nodes(nodes: Seq<Node>) -> Set<int> {
    Set::new(
        |i: int|
            0 <= i < nodes.len() && forall|set: Set<int>| #[trigger] resume_closed(nodes, set) ==> set.contains(i),
    )
}

/// Returns whether an edge of `edges` closes a cycle.
fn any_back(edges: &[Edge]) -> (back: bool)
    ensures
        back == exists|k: int| 0 <= k < edges@.len() && (#[trigger] edges@[k]).back,
{
    let mut k: usize = 0;
    while k < edges.len()
        invariant
            k <= edges@.len(),
            forall|j: int| 0 <= j < k ==> !(#[trigger] edges@[j]).back,
        decreases edges@.len() - k,
    {
        if edges[k].back {
            return true;
        }
        k = k + 1;
    }
    false
}

/// Returns whether an edge of `edges` that closes no cycle goes to a node
/// that `takes` holds.
fn calls_taker(edges: &[Edge], takes: &[bool]) -> (calls: bool)
    requires
        forall|k: int| 0 <= k < edges@.len() ==> (#[trigger] edges@[k]).target@ < takes@.len(),
    ensures
        calls == exists|k: int|
            0 <= k < edges@.len() && !edges@[k].back && #[trigger] flagged(takes@).contains(
                edges@[k].target@ as int,
            ),
{
    let mut k: usize = 0;
    while k < edges.len()
        invariant
            forall|j: int| 0 <= j < edges@.len() ==> (#[trigger] edges@[j]).target@ < takes@.len(),
            k <= edges@.len(),
            forall|j: int|
                0 <= j < k ==> !(!edges@[j].back && #[trigger] flagged(takes@).contains(
                    edges@[j].target@ as int,
                )),
        decreases edges@.len() - k,
    {
        let edge = edges[k];
        if !edge.back && takes[edge.target.index()] {
            proof {
                assert(flagged(takes@).contains(edges@[k as int].target@ as int));
            }
            return true;
        }
        k = k + 1;
    }
    false
}

/// Returns whether each node of `arena` takes the resume.
///
/// A node that holds an edge of a cycle writes the resume. A node that calls
/// such a node hands the resume to it, thus it takes the resume as well. The
/// pass repeats until nothing changes, because one node can reach another one
/// along a chain of calls.
fn resumes(arena: &Arena) -> (takes: Vec<bool>)
    requires
        targets_inside(arena.spec_nodes()),
    ensures
        takes@.len() == arena.spec_nodes().len(),
        flagged(takes@) == resume_nodes(arena.spec_nodes()),
{
    let nodes = arena.nodes();
    let ghost all = nodes@;
    let count = nodes.len();
    let mut takes: Vec<bool> = Vec::new();
    while takes.len() < count
        invariant
            all == nodes@,
            count == all.len(),
            takes@.len() <= count,
            forall|i: int| 0 <= i < takes@.len() ==> (#[trigger] takes@[i] <==> closes_cycle(all[i])),
        decreases count - takes@.len(),
    {
        let index = takes.len();
        let edges = nodes[index].edges();
        takes.push(any_back(edges.as_slice()));
    }
    proof {
        assert forall|i: int| 0 <= i < count && #[trigger] takes@[i] implies forall|set: Set<int>|
            #[trigger] resume_closed(all, set) ==> set.contains(i) by {
            assert forall|set: Set<int>| #[trigger] resume_closed(all, set) implies set.contains(i) by {
                assert(closes_cycle(all[i]));
                if calls_into(all[i], set) {
                }
            }
        }
    }
    let mut moved = true;
    while moved
        invariant
            all == nodes@,
            count == all.len(),
            targets_inside(all),
            takes@.len() == count,
            forall|i: int| 0 <= i < count && closes_cycle(all[i]) ==> #[trigger] takes@[i],
            forall|i: int|
                0 <= i < count && #[trigger] takes@[i] ==> forall|set: Set<int>|
                    #[trigger] resume_closed(all, set) ==> set.contains(i),
            !moved ==> resume_closed(all, flagged(takes@)),
        decreases unset(takes@) + if moved {
            1nat
        } else {
            0nat
        },
    {
        moved = false;
        let ghost start = takes@;
        let mut index: usize = 0;
        while index < count
            invariant
                all == nodes@,
                count == all.len(),
                targets_inside(all),
                takes@.len() == count,
                start.len() == count,
                index <= count,
                forall|i: int| 0 <= i < count && closes_cycle(all[i]) ==> #[trigger] takes@[i],
                forall|i: int|
                    0 <= i < count && #[trigger] takes@[i] ==> forall|set: Set<int>|
                        #[trigger] resume_closed(all, set) ==> set.contains(i),
                !moved ==> takes@ == start,
                moved ==> unset(takes@) < unset(start),
                !moved ==> forall|i: int|
                    0 <= i < index && #[trigger] calls_into(all[i], flagged(takes@)) ==> takes@[i],
            decreases count - index,
        {
            if !takes[index] {
                let edges = nodes[index].edges();
                proof {
                    assert forall|k: int| 0 <= k < edges@.len() implies (#[trigger] edges@[k]).target@
                        < takes@.len() by {
                        assert(edges_of(all[index as int])[k] == edges@[k]);
                    }
                }
                if calls_taker(edges.as_slice(), takes.as_slice()) {
                    let ghost before = takes@;
                    proof {
                        lemma_unset_update(before, index as int);
                        assert forall|set: Set<int>| #[trigger] resume_closed(all, set) implies set.contains(
                            index as int,
                        ) by {
                            let k = choose|k: int|
                                0 <= k < edges@.len() && !edges@[k].back && #[trigger] flagged(before).contains(
                                    edges@[k].target@ as int,
                                );
                            let target = edges@[k].target@ as int;
                            assert(before[target]);
                            assert(set.contains(target));
                            assert(edges_of(all[index as int])[k] == edges@[k]);
                            assert(calls_into(all[index as int], set));
                        }
                    }
                    takes.set(index, true);
                    moved = true;
                    proof {
                        assert forall|i: int|
                            0 <= i < count && #[trigger] takes@[i] implies forall|set: Set<int>|
                            #[trigger] resume_closed(all, set) ==> set.contains(i) by {
                            if i != index {
                                assert(before[i]);
                            }
                        }
                    }
                } else {
                    proof {
                        if !moved && calls_into(all[index as int], flagged(takes@)) {
                            let k = choose|k: int|
                                0 <= k < edges_of(all[index as int]).len() && !edges_of(all[index as int])[k].back
                                    && #[trigger] flagged(takes@).contains(
                                    edges_of(all[index as int])[k].target@ as int,
                                );
                            assert(edges_of(all[index as int])[k] == edges@[k]);
                        }
                    }
                }
            }
            index = index + 1;
        }
    }
    proof {
        let found = flagged(takes@);
        let wanted = resume_nodes(all);
        assert forall|i: int| found.contains(i) implies wanted.contains(i) by {
            assert(takes@[i]);
        }
        assert forall|i: int| wanted.contains(i) implies found.contains(i) by {
            assert(resume_closed(all, found));
        }
        assert(found =~= wanted);
    }
    takes
}

/// Whether an edge of `nodes` that closes a cycle goes to a node that takes
/// the marker.
pub open spec fn carries_marker(nodes: Seq<Node>, markers: Seq<bool>) -> bool {
    exists|i: int, k: int|
        0 <= i < nodes.len() && 0 <= k < edges_of(nodes[i]).len() && (#[trigger] edges_of(nodes[i])[k]).back
            && markers[edges_of(nodes[i])[k].target@ as int]
}

/// Returns whether an edge of a cycle carries the offset of an accept.
fn carries(arena: &Arena) -> (carries: bool)
    requires
        targets_inside(arena.spec_nodes()),
    ensures
        carries == carries_marker(arena.spec_nodes(), arena.spec_markers()),
{
    let nodes = arena.nodes();
    let mut i: usize = 0;
    while i < nodes.len()
        invariant
            nodes@ == arena.spec_nodes(),
            targets_inside(arena.spec_nodes()),
            i <= nodes@.len(),
            forall|j: int, k: int|
                0 <= j < i && 0 <= k < edges_of(nodes@[j]).len() ==> !((#[trigger] edges_of(nodes@[j])[k]).back
                    && arena.spec_markers()[edges_of(nodes@[j])[k].target@ as int]),
        decreases nodes@.len() - i,
    {
        let edges = nodes[i].edges();
        let mut k: usize = 0;
        while k < edges.len()
            invariant
                nodes@ == arena.spec_nodes(),
                targets_inside(arena.spec_nodes()),
                i < nodes@.len(),
                edges@ == edges_of(nodes@[i as int]),
                k <= edges@.len(),
                forall|m: int|
                    0 <= m < k ==> !((#[trigger] edges@[m]).back && arena.spec_markers()[edges@[m].target@ as int]),
            decreases edges@.len() - k,
        {
            let edge = edges[k];
            proof {
                assert(edges_of(nodes@[i as int])[k as int] == edge);
            }
            if edge.back && arena.takes_marker(edge.target) {
                proof {
                    assert(edges_of(nodes@[i as int])[k as int].back);
                }
                return true;
            }
            k = k + 1;
        }
        proof {
            assert forall|j: int, k: int|
                0 <= j < i + 1 && 0 <= k < edges_of(nodes@[j]).len() implies !((#[trigger] edges_of(
                nodes@[j],
            )[k]).back && arena.spec_markers()[edges_of(nodes@[j])[k].target@ as int]) by {
                if j == i {
                    assert(edges@[k] == edges_of(nodes@[j])[k]);
                }
            }
        }
        i = i + 1;
    }
    false
}

/// Whether the node at `index` ends a match at its own offset: a fork whose
/// miss goes to a leaf of that offset.
pub open spec fn ends_match(nodes: Seq<Node>, index: int) -> bool {
    match nodes[index] {
        Node::Fork(fork) => match nodes[fork.miss.target@ as int] {
            Node::Leaf(leaf) => leaf.here,
            _ => false,
        },
        _ => false,
    }
}

/// Whether the node at `index` is a fork with an arm that goes back to it.
pub open spec fn loops(nodes: Seq<Node>, index: int) -> bool {
    match nodes[index] {
        Node::Fork(fork) => exists|k: int|
            0 <= k < fork.arms@.len() && (#[trigger] fork.arms@[k]).edge.target@ == index,
        _ => false,
    }
}

/// The index of the first arm of `arms` from `from` on that goes to
/// `target`, or the number of the arms where none does.
pub open spec fn first_loop(arms: Seq<Arm>, target: int, from: nat) -> int
    decreases arms.len() - from,
{
    if from >= arms.len() {
        arms.len() as int
    } else if arms[from as int].edge.target@ == target {
        from as int
    } else {
        first_loop(arms, target, from + 1)
    }
}

/// Whether each range of each arm of each fork of `nodes` holds its low end
/// first.
pub open spec fn ranges_in_order(nodes: Seq<Node>) -> bool {
    forall|index: int|
        0 <= index < nodes.len() ==> match #[trigger] nodes[index] {
            Node::Fork(fork) => forall|k: int, m: int|
                0 <= k < fork.arms@.len() && 0 <= m < fork.arms@[k].ranges@.len() ==> (
                #[trigger] fork.arms@[k].ranges@[m]).low <= fork.arms@[k].ranges@[m].high,
            _ => true,
        }
}

/// Whether a range of `ranges` holds `byte`.
pub open spec fn covered(ranges: Seq<ByteRange>, byte: int) -> bool {
    exists|k: int| 0 <= k < ranges.len() && ranges[k].low <= byte <= #[trigger] ranges[k].high
}

/// The class of bytes that `ranges` hold, one flag for each byte.
pub open spec fn class_of(ranges: Seq<ByteRange>) -> Seq<bool> {
    Seq::new(256, |byte: int| covered(ranges, byte))
}

/// The class of bytes of the run of the node at `index` of a large graph:
/// the bytes of the first arm of a fork that goes back to the fork.
pub open spec fn run_class(nodes: Seq<Node>, index: int) -> Option<Seq<bool>> {
    if nodes.len() <= LARGE_GRAPH {
        None
    } else {
        match nodes[index] {
            Node::Fork(fork) => {
                let k = first_loop(fork.arms@, index, 0);
                if k < fork.arms@.len() {
                    Some(class_of(fork.arms@[k].ranges@))
                } else {
                    None
                }
            },
            _ => None,
        }
    }
}

/// Whether bit `bit` of `value` is set.
pub open spec fn bit_set(value: u8, bit: u8) -> bool {
    value & (1u8 << bit) != 0u8
}

/// Whether `tables` and `tests` test the run of each node of `nodes`: the
/// test of a run names one bit of one table, and that bit is set exactly for
/// the bytes of the run; two runs of one class share their test.
pub open spec fn tests_runs(nodes: Seq<Node>, tables: Seq<[u8; 256]>, tests: Seq<Option<(usize, u8)>>) -> bool {
    &&& tests.len() == nodes.len()
    &&& nodes.len() <= LARGE_GRAPH ==> tables.len() == 0
    &&& forall|index: int| 0 <= index < nodes.len() ==> ((#[trigger] tests[index]) is Some <==> run_class(nodes, index) is Some)
    &&& forall|index: int|
        0 <= index < nodes.len() && (#[trigger] tests[index]) is Some ==> {
            let (table, mask) = tests[index]->Some_0;
            &&& table < tables.len()
            &&& exists|bit: u8| bit < 8 && mask == #[trigger] (1u8 << bit)
            &&& forall|byte: int| 0 <= byte < 256 ==> (#[trigger] tables[table as int]@[byte] & mask != 0u8)
                == run_class(nodes, index)->Some_0[byte]
        }
    &&& forall|first: int, second: int|
        0 <= first < nodes.len() && 0 <= second < nodes.len() && (#[trigger] tests[first]) is Some
            && run_class(nodes, first) == run_class(nodes, second) ==> tests[first] == #[trigger] tests[second]
}

/// The run classes of the first `count` nodes of `nodes`, each once, in the
/// sequence in which the nodes first give them.
pub open spec fn first_seen(nodes: Seq<Node>, count: int) -> Seq<Seq<bool>>
    decreases count,
{
    if count <= 0 {
        Seq::empty()
    } else {
        let prior = first_seen(nodes, count - 1);
        match run_class(nodes, count - 1) {
            Some(class) => if prior.contains(class) {
                prior
            } else {
                prior.push(class)
            },
            None => prior,
        }
    }
}

/// Whether `tables` holds one row of bits for each eight run classes of
/// `nodes`, and `tests` gives each run node the row and the bit of its class
/// in the sequence in which the nodes first give the classes.
pub open spec fn numbers_runs(nodes: Seq<Node>, tables: Seq<[u8; 256]>, tests: Seq<Option<(usize, u8)>>) -> bool {
    let classes = first_seen(nodes, nodes.len() as int);
    &&& tables.len() == (classes.len() + 7) / 8
    &&& forall|index: int|
        0 <= index < nodes.len() && (#[trigger] tests[index]) is Some ==> exists|c: int|
            0 <= c < classes.len() && classes[c] == run_class(nodes, index)->Some_0
                && tests[index] == Some(((c / 8) as usize, 1u8 << ((c % 8) as u8)))
}

/// A small graph gives no run class.
proof fn lemma_first_seen_small(nodes: Seq<Node>, count: int)
    requires
        nodes.len() <= LARGE_GRAPH,
    ensures
        first_seen(nodes, count).len() == 0,
    decreases count,
{
    if count > 0 {
        lemma_first_seen_small(nodes, count - 1);
    }
}

/// Returns the class of the bytes that `ranges` hold.
fn class_array(ranges: &[ByteRange]) -> (class: [bool; 256])
    requires
        forall|k: int| 0 <= k < ranges@.len() ==> (#[trigger] ranges@[k]).low <= ranges@[k].high,
    ensures
        class@ == class_of(ranges@),
{
    let mut class = [false; 256];
    let mut k: usize = 0;
    while k < ranges.len()
        invariant
            forall|m: int| 0 <= m < ranges@.len() ==> (#[trigger] ranges@[m]).low <= ranges@[m].high,
            k <= ranges@.len(),
            class@.len() == 256,
            forall|byte: int| 0 <= byte < 256 ==> #[trigger] class@[byte] == covered(ranges@.take(k as int), byte),
        decreases ranges@.len() - k,
    {
        let range = ranges[k];
        let ghost before = class@;
        let mut byte: usize = range.low as usize;
        while byte <= range.high as usize
            invariant
                range == ranges@[k as int],
                range.low <= byte <= range.high + 1,
                class@.len() == 256,
                forall|b: int| 0 <= b < 256 ==> #[trigger] class@[b] == (before[b] || (range.low <= b < byte)),
            decreases range.high + 1 - byte,
        {
            class.set(byte, true);
            byte = byte + 1;
        }
        proof {
            let next = ranges@.take(k + 1);
            assert forall|b: int| 0 <= b < 256 implies #[trigger] class@[b] == covered(next, b) by {
                if covered(ranges@.take(k as int), b) {
                    let m = choose|m: int| 0 <= m < k && ranges@.take(k as int)[m].low <= b <= #[trigger] ranges@.take(k as int)[m].high;
                    assert(next[m] == ranges@.take(k as int)[m]);
                }
                if range.low <= b <= range.high {
                    assert(next[k as int] == range);
                }
                if covered(next, b) {
                    let m = choose|m: int| 0 <= m < k + 1 && next[m].low <= b <= #[trigger] next[m].high;
                    if m < k {
                        assert(ranges@.take(k as int)[m] == next[m]);
                    }
                }
            }
        }
        k = k + 1;
    }
    proof {
        assert(ranges@.take(ranges@.len() as int) =~= ranges@);
        assert(class@ =~= class_of(ranges@));
    }
    class
}

/// Returns whether two classes hold the same bytes.
fn same_class(first: &[bool; 256], second: &[bool; 256]) -> (same: bool)
    ensures
        same == (first@ == second@),
{
    let mut byte: usize = 0;
    while byte < 256
        invariant
            first@.len() == 256,
            second@.len() == 256,
            byte <= 256,
            forall|b: int| 0 <= b < byte ==> first@[b] == second@[b],
        decreases 256 - byte,
    {
        if first[byte] != second[byte] {
            return false;
        }
        byte = byte + 1;
    }
    proof {
        assert(first@ =~= second@);
    }
    true
}

/// Setting one bit keeps each other bit of a byte.
proof fn lemma_set_bit(value: u8, bit: u8, other: u8)
    requires
        bit < 8,
        other < 8,
    ensures
        bit_set(value | (1u8 << bit), other) == (bit_set(value, other) || bit == other),
{
    assert((value | (1u8 << bit)) & (1u8 << other) != 0u8 <==> (value & (1u8 << other) != 0u8 || bit
        == other)) by (bit_vector)
        requires
            bit < 8,
            other < 8,
    ;
}

/// No bit of zero is set, and one bit of a byte is below 256.
proof fn lemma_bits(bit: u8)
    requires
        bit < 8,
    ensures
        !bit_set(0u8, bit),
        (1u8 << bit) != 0u8,
{
    assert(0u8 & (1u8 << bit) == 0u8) by (bit_vector);
    assert((1u8 << bit) != 0u8) by (bit_vector)
        requires
            bit < 8,
    ;
}

/// Builds the shared byte-class tables for the run nodes of a large graph:
/// the tables, and the table and the bit of each run node.
fn run_tests(arena: &Arena) -> (runs: (Vec<[u8; 256]>, Vec<Option<(usize, u8)>>))
    requires
        ranges_in_order(arena.spec_nodes()),
    ensures
        tests_runs(arena.spec_nodes(), runs.0@, runs.1@),
        numbers_runs(arena.spec_nodes(), runs.0@, runs.1@),
{
    let nodes = arena.nodes();
    let count = nodes.len();
    let mut tests: Vec<Option<(usize, u8)>> = Vec::new();
    while tests.len() < count
        invariant
            tests@.len() <= count,
            forall|i: int| 0 <= i < tests@.len() ==> (#[trigger] tests@[i]) is None,
        decreases count - tests@.len(),
    {
        tests.push(None);
    }
    if count <= LARGE_GRAPH {
        proof {
            lemma_first_seen_small(nodes@, count as int);
        }
        return (Vec::new(), tests);
    }
    let ghost all = nodes@;
    let mut classes: Vec<[bool; 256]> = Vec::new();
    let mut index: usize = 0;
    while index < count
        invariant
            all == nodes@,
            all == arena.spec_nodes(),
            count == all.len(),
            count > LARGE_GRAPH,
            ranges_in_order(all),
            index <= count,
            tests@.len() == count,
            classes@.len() <= index,
            forall|c: int, d: int|
                0 <= c < classes@.len() && 0 <= d < classes@.len() && c != d ==> (#[trigger] classes@[c])@
                    != (#[trigger] classes@[d])@,
            forall|i: int| index <= i < count ==> (#[trigger] tests@[i]) is None,
            forall|i: int|
                0 <= i < index ==> ((#[trigger] tests@[i]) is Some <==> run_class(all, i) is Some),
            forall|i: int|
                0 <= i < index && (#[trigger] tests@[i]) is Some ==> exists|c: int|
                    0 <= c < classes@.len() && (#[trigger] classes@[c])@ == run_class(all, i)->Some_0
                        && tests@[i] == Some(((c / 8) as usize, 1u8 << ((c % 8) as u8))),
            classes@.len() == first_seen(all, index as int).len(),
            forall|c: int| 0 <= c < classes@.len() ==> (#[trigger] classes@[c])@ == first_seen(all, index as int)[c],
        decreases count - index,
    {
        let ghost before = tests@;
        let ghost old_classes = classes@;
        match &nodes[index] {
            Node::Fork(fork) => {
                let mut found: Option<usize> = None;
                let mut k: usize = 0;
                while found.is_none() && k < fork.arms.len()
                    invariant
                        k <= fork.arms@.len(),
                        found is None ==> first_loop(fork.arms@, index as int, 0) == first_loop(
                            fork.arms@,
                            index as int,
                            k as nat,
                        ),
                        found matches Some(arm) ==> arm < fork.arms@.len() && arm == first_loop(
                            fork.arms@,
                            index as int,
                            0,
                        ),
                    decreases fork.arms@.len() - k,
                {
                    if fork.arms[k].edge.target.index() == index {
                        found = Some(k);
                    }
                    k = k + 1;
                }
                match found {
                    Some(arm) => {
                        proof {
                            assert(ranges_in_order(all));
                            assert(all[index as int] == Node::Fork(*fork));
                            assert forall|m: int| 0 <= m < fork.arms@[arm as int].ranges@.len() implies (
                            #[trigger] fork.arms@[arm as int].ranges@[m]).low
                                <= fork.arms@[arm as int].ranges@[m].high by {}
                        }
                        let class = class_array(fork.arms[arm].ranges.as_slice());
                        let mut at: Option<usize> = None;
                        let mut c: usize = 0;
                        while at.is_none() && c < classes.len()
                            invariant
                                c <= classes@.len(),
                                at is None ==> forall|d: int| 0 <= d < c ==> (#[trigger] classes@[d])@ != class@,
                                at matches Some(d) ==> d < classes@.len() && classes@[d as int]@ == class@,
                            decreases classes@.len() - c,
                        {
                            if same_class(&classes[c], &class) {
                                at = Some(c);
                            }
                            c = c + 1;
                        }
                        let number = match at {
                            Some(d) => d,
                            None => {
                                classes.push(class);
                                classes.len() - 1
                            },
                        };
                        tests.set(index, Some((number / 8, 1u8 << ((number % 8) as u8))));
                        proof {
                            assert(run_class(all, index as int) == Some(class@));
                            assert(classes@[number as int]@ == class@);
                            assert forall|i: int|
                                0 <= i < index + 1 && (#[trigger] tests@[i]) is Some implies exists|c: int|
                                0 <= c < classes@.len() && (#[trigger] classes@[c])@ == run_class(all, i)->Some_0
                                    && tests@[i] == Some(((c / 8) as usize, 1u8 << ((c % 8) as u8))) by {
                                if i < index {
                                    assert(tests@[i] == before[i]);
                                    let c = choose|c: int|
                                        0 <= c < old_classes.len() && (#[trigger] old_classes[c])@ == run_class(all, i)->Some_0
                                            && before[i] == Some(((c / 8) as usize, 1u8 << ((c % 8) as u8)));
                                    assert(classes@[c] == old_classes[c]);
                                } else {
                                    assert(classes@[number as int]@ == run_class(all, i)->Some_0);
                                }
                            }
                            assert forall|c: int, d: int|
                                0 <= c < classes@.len() && 0 <= d < classes@.len() && c != d implies (
                                #[trigger] classes@[c])@ != (#[trigger] classes@[d])@ by {
                                if c < old_classes.len() && d < old_classes.len() {
                                    assert(classes@[c] == old_classes[c]);
                                    assert(classes@[d] == old_classes[d]);
                                } else if c < old_classes.len() {
                                    assert(classes@[c] == old_classes[c]);
                                } else if d < old_classes.len() {
                                    assert(classes@[d] == old_classes[d]);
                                }
                            }
                        }
                    },
                    None => {
                        proof {
                            assert(first_loop(fork.arms@, index as int, k as nat) == fork.arms@.len());
                        }
                    },
                }
            },
            _ => {},
        }
        proof {
            let prior = first_seen(all, index as int);
            match run_class(all, index as int) {
                Some(class) => {
                    if prior.contains(class) {
                        let d = choose|d: int| 0 <= d < prior.len() && prior[d] == class;
                        assert(old_classes[d]@ == class);
                        assert(classes@ == old_classes);
                    } else {
                        assert forall|d: int| 0 <= d < old_classes.len() implies (#[trigger] old_classes[d])@ != class by {
                            assert(prior[d] == old_classes[d]@);
                        }
                        assert(classes@.len() == old_classes.len() + 1);
                    }
                },
                None => {
                    assert(classes@ == old_classes);
                },
            }
            assert forall|c: int| 0 <= c < classes@.len() implies (#[trigger] classes@[c])@ == first_seen(all, index + 1)[c] by {
                if c < old_classes.len() {
                    assert(classes@[c] == old_classes[c]);
                }
            }
            if classes@ == old_classes {
                assert forall|i: int|
                    0 <= i < index + 1 && (#[trigger] tests@[i]) is Some implies exists|c: int|
                    0 <= c < classes@.len() && (#[trigger] classes@[c])@ == run_class(all, i)->Some_0
                        && tests@[i] == Some(((c / 8) as usize, 1u8 << ((c % 8) as u8))) by {
                    if i < index {
                        assert(tests@[i] == before[i]);
                    }
                }
            }
        }
        index = index + 1;
    }
    let class_count = classes.len();
    let table_count = classes.len() / 8 + if classes.len() % 8 == 0 {
        0
    } else {
        1
    };
    let mut tables: Vec<[u8; 256]> = Vec::new();
    let mut table: usize = 0;
    while table < table_count
        invariant
            class_count == classes@.len(),
            table_count == (classes@.len() + 7) / 8,
            table <= table_count,
            tables@.len() == table,
            forall|t: int, byte: int, bit: u8|
                0 <= t < table && 0 <= byte < 256 && bit < 8 ==> (#[trigger] bit_set(tables@[t]@[byte], bit)
                    <==> (t * 8 + bit < classes@.len() && classes@[t * 8 + bit]@[byte])),
            forall|t: int| 0 <= t < table ==> (#[trigger] tables@[t])@.len() == 256,
        decreases table_count - table,
    {
        let mut row = [0u8; 256];
        let mut byte: usize = 0;
        while byte < 256
            invariant
                class_count == classes@.len(),
                table < table_count,
                table_count == (classes@.len() + 7) / 8,
                byte <= 256,
                row@.len() == 256,
                forall|b: int, bit: u8|
                    0 <= b < byte && bit < 8 ==> (#[trigger] bit_set(row@[b], bit) <==> (table * 8 + bit
                        < classes@.len() && classes@[table * 8 + bit]@[b])),
            decreases 256 - byte,
        {
            let mut value: u8 = 0;
            let mut bit: u8 = 0;
            proof {
                assert forall|other: u8| other < 8 implies !bit_set(value, other) by {
                    lemma_bits(other);
                }
            }
            while bit < 8
                invariant
                    class_count == classes@.len(),
                    table < table_count,
                    table_count == (classes@.len() + 7) / 8,
                    byte < 256,
                    bit <= 8,
                    forall|other: u8|
                        other < 8 ==> (#[trigger] bit_set(value, other) <==> (other < bit && table * 8
                            + other < classes@.len() && classes@[table * 8 + other]@[byte as int])),
                decreases 8 - bit,
            {
                let number = table as u64 * 8 + bit as u64;
                if number < classes.len() as u64 && classes[number as usize][byte] {
                    let ghost old_value = value;
                    value = value | (1u8 << bit);
                    proof {
                        assert forall|other: u8| other < 8 implies (#[trigger] bit_set(value, other)
                            <==> (other < bit + 1 && table * 8 + other < classes@.len()
                            && classes@[table * 8 + other]@[byte as int])) by {
                            lemma_set_bit(old_value, bit, other);
                        }
                    }
                }
                bit = bit + 1;
            }
            let ghost before_row = row@;
            row.set(byte, value);
            proof {
                assert forall|b: int, position: u8|
                    0 <= b < byte + 1 && position < 8 implies (#[trigger] bit_set(row@[b], position)
                    <==> (table * 8 + position < classes@.len()
                    && classes@[table * 8 + position]@[b])) by {
                    if b < byte {
                        assert(row@[b] == before_row[b]);
                        assert(bit_set(before_row[b], position) <==> (table * 8 + position
                            < classes@.len() && classes@[table * 8 + position]@[b]));
                    } else {
                        assert(row@[b] == value);
                        assert(bit_set(value, position) <==> (position < bit && table * 8 + position
                            < classes@.len() && classes@[table * 8 + position]@[byte as int]));
                    }
                }
            }
            byte = byte + 1;
        }
        let ghost before_tables = tables@;
        tables.push(row);
        proof {
            assert forall|t: int, byte: int, bit: u8|
                0 <= t < table + 1 && 0 <= byte < 256 && bit < 8 implies (#[trigger] bit_set(
                tables@[t]@[byte],
                bit,
            ) <==> (t * 8 + bit < classes@.len() && classes@[t * 8 + bit]@[byte])) by {
                if t < table {
                    assert(tables@[t] == before_tables[t]);
                    assert(bit_set(before_tables[t]@[byte], bit) <==> (t * 8 + bit < classes@.len()
                        && classes@[t * 8 + bit]@[byte]));
                } else {
                    assert(tables@[t] == row);
                    assert(bit_set(row@[byte], bit) <==> (t * 8 + bit < classes@.len()
                        && classes@[t * 8 + bit]@[byte]));
                }
            }
        }
        table = table + 1;
    }
    proof {
        let nodes = all;
        assert forall|index: int| 0 <= index < nodes.len() && (#[trigger] tests@[index]) is Some implies {
            let (t, mask) = tests@[index]->Some_0;
            &&& t < tables@.len()
            &&& exists|bit: u8| bit < 8 && mask == #[trigger] (1u8 << bit)
            &&& forall|byte: int| 0 <= byte < 256 ==> (#[trigger] tables@[t as int]@[byte] & mask != 0u8)
                == run_class(nodes, index)->Some_0[byte]
        } by {
            let c = choose|c: int|
                0 <= c < classes@.len() && (#[trigger] classes@[c])@ == run_class(all, index)->Some_0
                    && tests@[index] == Some(((c / 8) as usize, 1u8 << ((c % 8) as u8)));
            let t = c / 8;
            let bit = (c % 8) as u8;
            assert(t * 8 + bit == c);
            assert(t < tables@.len());
            assert forall|byte: int| 0 <= byte < 256 implies (#[trigger] tables@[t]@[byte] & (1u8 << bit)
                != 0u8) == run_class(nodes, index)->Some_0[byte] by {
                assert(bit_set(tables@[t]@[byte], bit) <==> classes@[t * 8 + bit]@[byte]);
            }
        }
        assert forall|first: int, second: int|
            0 <= first < nodes.len() && 0 <= second < nodes.len() && (#[trigger] tests@[first]) is Some
                && run_class(nodes, first) == run_class(nodes, second) implies tests@[first]
            == #[trigger] tests@[second] by {
            let c = choose|c: int|
                0 <= c < classes@.len() && (#[trigger] classes@[c])@ == run_class(all, first)->Some_0
                    && tests@[first] == Some(((c / 8) as usize, 1u8 << ((c % 8) as u8)));
            assert(tests@[second] is Some);
            let d = choose|d: int|
                0 <= d < classes@.len() && (#[trigger] classes@[d])@ == run_class(all, second)->Some_0
                    && tests@[second] == Some(((d / 8) as usize, 1u8 << ((d % 8) as u8)));
            if c != d {
                assert(classes@[c]@ != classes@[d]@);
            }
        }
        let seen = first_seen(all, count as int);
        assert forall|index: int|
            0 <= index < nodes.len() && (#[trigger] tests@[index]) is Some implies exists|c: int|
            0 <= c < seen.len() && seen[c] == run_class(nodes, index)->Some_0
                && tests@[index] == Some(((c / 8) as usize, 1u8 << ((c % 8) as u8))) by {
            let c = choose|c: int|
                0 <= c < classes@.len() && (#[trigger] classes@[c])@ == run_class(all, index)->Some_0
                    && tests@[index] == Some(((c / 8) as usize, 1u8 << ((c % 8) as u8)));
            assert(seen[c] == classes@[c]@);
        }
    }
    (tables, tests)
}

/// The parameters that the function of one node takes.
#[derive(Debug, Clone, Copy, PartialEq, Eq, Structural)]
pub struct Shape {
    /// Whether the function takes the text of the input.
    pub input: bool,
    /// Whether the function takes the offset of the last accept.
    pub marker: bool,
    /// Whether the function writes the node at which the driver of the step
    /// goes on.
    pub resume: bool,
}

/// What the parameters of the nodes read of one rule of a lexer.
#[derive(Debug, Clone, Copy, PartialEq, Eq, Structural)]
pub struct Rule {
    /// Whether the rule gives a token, and does not skip its match.
    pub token: bool,
    /// Whether the variant of the token holds a field, which the emitted
    /// source reads from the text of the match.
    pub value: bool,
    /// The index of the start condition that the scan changes to, or `None`
    /// if it keeps the condition.
    pub go: Option<u16>,
}

/// The parts that each node of one lexer writes with.
pub struct Emitter<'a> {
    /// The graph of the lexer.
    pub arena: &'a Arena,
    /// What each rule gives, in the sequence of the rules.
    pub rules: &'a [Rule],
    /// Whether each node takes the resume, in the sequence of the nodes.
    resumes: Vec<bool>,
    /// Whether an edge that closes a cycle carries the offset of an accept.
    carries: bool,
    /// Packed byte-class tables for the run nodes.
    tables: Vec<[u8; 256]>,
    /// The table and the bit of each run node.
    run_tests: Vec<Option<(usize, u8)>>,
}

impl<'a> Emitter<'a> {
    /// The graph of the lexer.
    pub closed spec fn spec_arena(&self) -> Arena {
        *self.arena
    }

    /// What each rule gives.
    pub closed spec fn spec_rules(&self) -> Seq<Rule> {
        self.rules@
    }

    /// Whether each node takes the resume.
    pub closed spec fn spec_resumes(&self) -> Seq<bool> {
        self.resumes@
    }

    /// Whether an edge that closes a cycle carries the offset of an accept.
    pub closed spec fn spec_carries(&self) -> bool {
        self.carries
    }

    /// The packed byte-class tables of the run nodes.
    pub closed spec fn spec_tables(&self) -> Seq<[u8; 256]> {
        self.tables@
    }

    /// The table and the bit that test the run of each node.
    pub closed spec fn spec_run_tests(&self) -> Seq<Option<(usize, u8)>> {
        self.run_tests@
    }

    /// Whether the emitter agrees with its graph.
    pub closed spec fn well_formed(&self) -> bool {
        &&& tests_runs(self.spec_arena().spec_nodes(), self.spec_tables(), self.spec_run_tests())
        &&& numbers_runs(self.spec_arena().spec_nodes(), self.spec_tables(), self.spec_run_tests())
        &&& targets_inside(self.spec_arena().spec_nodes())
        &&& self.spec_resumes().len() == self.spec_arena().spec_nodes().len()
        &&& flagged(self.spec_resumes()) == resume_nodes(self.spec_arena().spec_nodes())
        &&& self.spec_carries() == carries_marker(self.spec_arena().spec_nodes(), self.spec_arena().spec_markers())
    }

    /// Creates the emitter of the lexer of `arena`, of which each edge goes
    /// to a node of the graph.
    pub fn new(arena: &'a Arena, rules: &'a [Rule]) -> (emitter: Self)
        requires
            targets_inside(arena.spec_nodes()),
            ranges_in_order(arena.spec_nodes()),
        ensures
            emitter.spec_arena() == *arena,
            emitter.spec_rules() == rules@,
            emitter.well_formed(),
    {
        let (tables, run_tests) = run_tests(arena);
        Emitter { arena, rules, resumes: resumes(arena), carries: carries(arena), tables, run_tests }
    }

    /// Returns the packed lookup tables that test the runs of a large graph.
    ///
    /// Bit `b` of the byte `x` of table `t` is set exactly where the run of
    /// the class `8 * t + b` holds `x`.
    pub fn run_tables(&self) -> (tables: &[[u8; 256]])
        ensures
            tables@ == self.spec_tables(),
    {
        self.tables.as_slice()
    }

    /// Returns the table and the bit that test the run at `id`, or `None` for
    /// a node that holds no run of a large graph.
    pub fn run_test(&self, id: NodeId) -> (test: Option<(usize, u8)>)
        requires
            self.well_formed(),
            id@ < self.spec_arena().spec_nodes().len(),
        ensures
            test == self.spec_run_tests()[id@ as int],
            test is Some <==> run_class(self.spec_arena().spec_nodes(), id@ as int) is Some,
            test matches Some(found) ==> {
                &&& found.0 < self.spec_tables().len()
                &&& forall|byte: int|
                    0 <= byte < 256 ==> (#[trigger] self.spec_tables()[found.0 as int]@[byte] & found.1
                        != 0u8) == run_class(self.spec_arena().spec_nodes(), id@ as int)->Some_0[byte]
            },
    {
        self.run_tests[id.index()]
    }

    /// Returns whether the graph holds an edge that closes a cycle.
    ///
    /// The emitted source holds the driver of the step and the `Resume` only
    /// for such a graph.
    pub fn drives(&self) -> (drives: bool)
        ensures
            drives == has_back(self.spec_arena().spec_nodes()),
    {
        self.arena.has_back_edge()
    }

    /// Returns whether an edge that closes a cycle carries the offset of an
    /// accept.
    ///
    /// The `Resume` holds the marker only for such a graph. A field that no
    /// node reads gives a warning in the crate of the author.
    pub fn carries(&self) -> (carries: bool)
        requires
            self.well_formed(),
        ensures
            carries == carries_marker(self.spec_arena().spec_nodes(), self.spec_arena().spec_markers()),
    {
        self.carries
    }

    /// Returns whether the matcher state carries a start condition.
    pub fn has_condition(&self) -> (has: bool)
        ensures
            has == (self.spec_arena().spec_starts().len() > 1),
    {
        self.arena.start_count() > 1
    }

    /// Returns whether the node at `id` ends a match at its own offset.
    ///
    /// A byte that no arm of such a node holds gives the token of a rule, thus
    /// the scan goes on after that offset and it reads the bytes of that node
    /// one time. A node that ends no match keeps the run that it reads,
    /// because the scan can read those bytes again.
    pub fn ends_a_match(&self, id: NodeId) -> (ends: bool)
        requires
            self.well_formed(),
            id@ < self.spec_arena().spec_nodes().len(),
        ensures
            ends == ends_match(self.spec_arena().spec_nodes(), id@ as int),
    {
        match self.arena.node(id) {
            Node::Fork(fork) => {
                proof {
                    let nodes = self.spec_arena().spec_nodes();
                    let k = edges_of(nodes[id@ as int]).len() - 1;
                    assert(edges_of(nodes[id@ as int])[k] == fork.miss);
                }
                match self.arena.node(fork.miss.target) {
                    Node::Leaf(leaf) => leaf.here,
                    _ => false,
                }
            },
            _ => false,
        }
    }

    /// Returns whether the matcher state carries a cached run: whether a
    /// node that ends no match holds an arm that goes back to it.
    pub fn has_run(&self) -> (has: bool)
        requires
            self.well_formed(),
        ensures
            has == exists|index: int|
                0 <= index < self.spec_arena().spec_nodes().len() && #[trigger] loops(self.spec_arena().spec_nodes(), index)
                    && !ends_match(self.spec_arena().spec_nodes(), index),
    {
        let nodes = self.arena.nodes();
        let mut index: usize = 0;
        while index < nodes.len()
            invariant
                self.well_formed(),
                nodes@ == self.spec_arena().spec_nodes(),
                index <= nodes@.len(),
                forall|j: int| 0 <= j < index ==> !(#[trigger] loops(nodes@, j) && !ends_match(nodes@, j)),
            decreases nodes@.len() - index,
        {
            let looping = match &nodes[index] {
                Node::Fork(fork) => {
                    let mut found = false;
                    let mut k: usize = 0;
                    while k < fork.arms.len()
                        invariant
                            k <= fork.arms@.len(),
                            found == exists|m: int| 0 <= m < k && (#[trigger] fork.arms@[m]).edge.target@ == index,
                        decreases fork.arms@.len() - k,
                    {
                        if fork.arms[k].edge.target.index() == index {
                            found = true;
                        }
                        k = k + 1;
                    }
                    found
                },
                _ => false,
            };
            assert(looping == loops(nodes@, index as int));
            if looping && !self.ends_a_match(NodeId::new(index)) {
                return true;
            }
            index = index + 1;
        }
        false
    }

    /// Returns the rule at `index`, of a lexer that holds such a rule.
    pub fn rule(&self, index: u16) -> (rule: &Rule)
        requires
            index < self.spec_rules().len(),
        ensures
            *rule == self.spec_rules()[index as int],
    {
        &self.rules[index as usize]
    }

    /// Returns the parameters that the function of the node at `id` takes.
    ///
    /// A parameter that the node does not read costs a register at each
    /// call. Thus a node takes the text only if it reads a value, the marker
    /// only if it holds an accept behind it, and the resume only if it reaches
    /// an edge that closes a cycle.
    pub fn shape(&self, id: NodeId) -> (shape: Shape)
        requires
            self.well_formed(),
            id@ < self.spec_arena().spec_nodes().len(),
            self.spec_arena().spec_nodes()[id@ as int] matches Node::Leaf(leaf) ==> leaf.rule < self.spec_rules().len(),
        ensures
            shape == match self.spec_arena().spec_nodes()[id@ as int] {
                Node::Fork(_) | Node::Rope(_) => Shape {
                    input: true,
                    marker: self.spec_arena().spec_markers()[id@ as int],
                    resume: resume_nodes(self.spec_arena().spec_nodes()).contains(id@ as int),
                },
                Node::Leaf(leaf) => Shape {
                    input: self.spec_rules()[leaf.rule as int].value,
                    marker: !leaf.here,
                    resume: false,
                },
                Node::Fault => Shape { input: false, marker: false, resume: false },
            },
    {
        let resume = self.resumes[id.index()];
        proof {
            assert(flagged(self.spec_resumes()).contains(id@ as int) == resume);
        }
        match self.arena.node(id) {
            Node::Fork(_) | Node::Rope(_) => Shape {
                input: true,
                marker: self.arena.takes_marker(id),
                resume,
            },
            Node::Leaf(leaf) => Shape {
                input: self.rule(leaf.rule).value,
                marker: !leaf.here,
                resume: false,
            },
            Node::Fault => Shape { input: false, marker: false, resume: false },
        }
    }
}

} // verus!
