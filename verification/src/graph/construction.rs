//! Builds the rule graph of a lexer from its compilation.
use vstd::prelude::*;

use super::arena::Arena;
use super::id::NodeId;
use super::node::{Arm, Carry, Edge, Fork, Leaf, Node, Rope, alike, edges_of, same_shape};
use crate::automata::encoding::ByteRange;
use crate::automata::encoding::utf8::{divided, in_class, matched_by};
use crate::automata::nfa::Nfa;
use crate::automata::nfa::automaton::{lemma_moves, moves, moves_to};
use crate::automata::nfa::closure::{closure, epsilon_closure};
use crate::automata::state_set::{StateSet, ascending, id_set, lemma_ascending};
use crate::automata::{Label, Overflow, Part, StateId, Transition};
use crate::compiler::accepts::is_lowest;
use crate::code::emitter::{ranges_in_order, targets_inside};
use crate::compiler::{Accepts, Compilation};
use vstd::set_lib::{lemma_int_range, lemma_len_subset, set_int_range};

verus! {

/// The maximum number of the nodes of a rule graph.
///
/// One node gives one function of the emitted source. A lexer above this
/// limit gives a source that the compiler of the author reads slowly.
pub const MAX_NODES: usize = 2048;

/// The maximum number of the bytes of one rope.
///
/// A comparison of a longer sequence costs more than one comparison, and a
/// mismatch reads the whole sequence a second time. The limit keeps both
/// costs bounded.
pub const MAX_ROPE: usize = 16;

/// Whether `positions` are states below `count`, in strictly ascending
/// sequence.
pub open spec fn valid_positions(positions: Seq<StateId>, count: nat) -> bool {
    &&& forall|k: int| 0 <= k < positions.len() ==> (#[trigger] positions[k])@ < count
    &&& forall|k: int, m: int|
        0 <= k < m < positions.len() ==> (#[trigger] positions[k])@ < (#[trigger] positions[m])@
}

/// Whether each edge that leaves `node` goes to a node below `count`.
pub open spec fn edges_below(node: Node, count: nat) -> bool {
    forall|k: int| 0 <= k < edges_of(node).len() ==> (#[trigger] edges_of(node)[k]).target@ < count
}

/// Whether each edge of each node of `nodes` goes to a node of `nodes`.
pub open spec fn edges_inside(nodes: Seq<Node>) -> bool {
    forall|i: int| 0 <= i < nodes.len() ==> edges_below(#[trigger] nodes[i], nodes.len())
}

/// Whether a state of `accepts` accepts with `rule`.
pub open spec fn accepted(accepts: Seq<Option<u16>>, rule: u16) -> bool {
    exists|s: int| 0 <= s < accepts.len() && accepts[s] == Some(rule)
}

/// Whether `rule` is no rule, or a rule that a state of `accepts` accepts
/// with.
pub open spec fn known(accepts: Seq<Option<u16>>, rule: Option<u16>) -> bool {
    rule matches Some(r) ==> accepted(accepts, r)
}

/// Whether each leaf of `nodes` gives a rule that a state of `accepts`
/// accepts with.
pub open spec fn leaves_accepted(nodes: Seq<Node>, accepts: Seq<Option<u16>>) -> bool {
    forall|i: int| 0 <= i < nodes.len() ==> ((#[trigger] nodes[i]) matches Node::Leaf(leaf) ==> accepted(accepts, leaf.rule))
}

/// Whether each range of each arm of `node`, where it is a fork, holds its
/// low end first.
pub open spec fn ordered_ranges(node: Node) -> bool {
    match node {
        Node::Fork(fork) => forall|k: int, m: int|
            0 <= k < fork.arms@.len() && 0 <= m < fork.arms@[k].ranges@.len() ==> (
            #[trigger] fork.arms@[k].ranges@[m]).low <= fork.arms@[k].ranges@[m].high,
        _ => true,
    }
}

/// Whether each node of `nodes` holds its ranges in order.
pub open spec fn all_ordered(nodes: Seq<Node>) -> bool {
    forall|i: int| 0 <= i < nodes.len() ==> ordered_ranges(#[trigger] nodes[i])
}

/// A node of one shape with a node of ordered ranges holds its ranges in
/// order.
proof fn lemma_shape_ordered(a: Node, b: Node)
    requires
        same_shape(a, b),
        ordered_ranges(a),
    ensures
        ordered_ranges(b),
{
    match (a, b) {
        (Node::Fork(x), Node::Fork(y)) => {
            assert forall|k: int, m: int|
                0 <= k < y.arms@.len() && 0 <= m < y.arms@[k].ranges@.len() implies (
                #[trigger] y.arms@[k].ranges@[m]).low <= y.arms@[k].ranges@[m].high by {
                assert(x.arms@[k].ranges@ == y.arms@[k].ranges@);
                assert(x.arms@[k].ranges@[m] == y.arms@[k].ranges@[m]);
            }
        },
        _ => {},
    }
}

/// Nodes of ordered ranges, with each edge inside, are what the emitter
/// reads.
proof fn lemma_emitter_ready(nodes: Seq<Node>)
    requires
        all_ordered(nodes),
        edges_inside(nodes),
    ensures
        ranges_in_order(nodes),
        targets_inside(nodes),
{
    assert forall|i: int, k: int|
        0 <= i < nodes.len() && 0 <= k < edges_of(nodes[i]).len() implies (#[trigger] edges_of(
            nodes[i],
        )[k]).target@ < nodes.len() by {
        assert(edges_below(nodes[i], nodes.len()));
    }
    assert forall|index: int| 0 <= index < nodes.len() implies match #[trigger] nodes[index] {
        Node::Fork(fork) => forall|k: int, m: int|
            0 <= k < fork.arms@.len() && 0 <= m < fork.arms@[k].ranges@.len() ==> (
            #[trigger] fork.arms@[k].ranges@[m]).low <= fork.arms@[k].ranges@[m].high,
        _ => true,
    } by {
        assert(ordered_ranges(nodes[index]));
    }
}

/// Whether no edge that leaves `node` is marked as one that closes a cycle.
pub open spec fn unflagged(node: Node) -> bool {
    forall|k: int| 0 <= k < edges_of(node).len() ==> !(#[trigger] edges_of(node)[k]).back
}

/// Whether no edge of `nodes` is marked as one that closes a cycle.
pub open spec fn none_flagged(nodes: Seq<Node>) -> bool {
    forall|i: int| 0 <= i < nodes.len() ==> unflagged(#[trigger] nodes[i])
}

/// One set of positions of the automaton, and the accept behind them.
///
/// Two scans that reach the same positions with the same accept behind them
/// read the rest of the input in the same manner. Thus the state is the
/// identity of a node.
///
/// `pending` is empty when a position of the state accepts. That accept is
/// longer than the one behind it, thus it wins and the one behind it changes
/// nothing.
#[derive(Debug)]
struct State {
    /// The positions of the automaton, in ascending sequence and with no
    /// duplicate.
    positions: Vec<StateId>,
    /// The rule that accepted before this offset, or `None`.
    pending: Option<u16>,
}

/// What tells one state from another: its positions and its pending rule.
spec fn key(state: State) -> (Seq<StateId>, Option<u16>) {
    (state.positions@, state.pending)
}

/// Returns a copy of `positions`.
fn copied(positions: &[StateId]) -> (copy: Vec<StateId>)
    ensures
        copy@ == positions@,
{
    let mut copy: Vec<StateId> = Vec::new();
    let mut k: usize = 0;
    while k < positions.len()
        invariant
            k <= positions@.len(),
            copy@ == positions@.take(k as int),
        decreases positions@.len() - k,
    {
        copy.push(positions[k]);
        k = k + 1;
        proof {
            assert(copy@ =~= positions@.take(k as int));
        }
    }
    proof {
        assert(positions@.take(k as int) =~= positions@);
    }
    copy
}

/// Returns a copy of `state`.
fn copy_state(state: &State) -> (copy: State)
    ensures
        key(copy) == key(*state),
{
    State { positions: copied(state.positions.as_slice()), pending: state.pending }
}

/// Returns whether `a` and `b` hold the same states in the same sequence.
fn same_positions(a: &[StateId], b: &[StateId]) -> (same: bool)
    ensures
        same == (a@ == b@),
{
    if a.len() != b.len() {
        return false;
    }
    let mut k: usize = 0;
    while k < a.len()
        invariant
            a@.len() == b@.len(),
            k <= a@.len(),
            forall|m: int| 0 <= m < k ==> a@[m] == b@[m],
        decreases a@.len() - k,
    {
        if a[k].0 != b[k].0 {
            return false;
        }
        k = k + 1;
    }
    proof {
        assert(a@ =~= b@);
    }
    true
}

/// Returns whether `a` and `b` are the same rule, or both no rule.
fn same_rule(a: Option<u16>, b: Option<u16>) -> (same: bool)
    ensures
        same == (a == b),
{
    match (a, b) {
        (Some(x), Some(y)) => x == y,
        (None, None) => true,
        _ => false,
    }
}

/// Returns whether `a` and `b` are the same state.
fn same_state(a: &State, b: &State) -> (same: bool)
    ensures
        same == (key(*a) == key(*b)),
{
    same_positions(a.positions.as_slice(), b.positions.as_slice()) && same_rule(a.pending, b.pending)
}

/// The state that an edge goes to, and the marker that the edge carries.
struct Step {
    state: State,
    carry: Carry,
}

/// Where the accept that a step carries comes from.
#[derive(Debug, Clone, Copy)]
enum Origin {
    /// The accept is this number of bytes after the offset of the node.
    Ahead(usize),
    /// The accept is at the offset that the node took as its marker.
    Marker,
}

/// Whether `keys` are the keys of distinct scan states: positions of the
/// `count` states of the automaton, in strictly ascending sequence, and a
/// pending rule that a state of `accepts` accepts with, or none.
pub open spec fn met_apart(keys: Seq<(Seq<StateId>, Option<u16>)>, count: nat, accepts: Seq<Option<u16>>) -> bool {
    &&& forall|i: int|
        0 <= i < keys.len() ==> valid_positions((#[trigger] keys[i]).0, count) && known(accepts, keys[i].1)
    &&& forall|i: int, j: int| 0 <= i < j < keys.len() ==> #[trigger] keys[i] != #[trigger] keys[j]
}

/// Whether `leaves` are distinct leaves: a rule that a state of `accepts`
/// accepts with, and whether the match ends at the leaf.
pub open spec fn leaves_apart(leaves: Seq<(u16, bool)>, accepts: Seq<Option<u16>>) -> bool {
    &&& forall|i: int| 0 <= i < leaves.len() ==> accepted(accepts, (#[trigger] leaves[i]).0)
    &&& forall|i: int, j: int| 0 <= i < j < leaves.len() ==> #[trigger] leaves[i] != #[trigger] leaves[j]
}

/// Whether the scan states `keys`, the leaves `leaves` and one fault make at
/// least `total` distinct nodes of the graph of a lexer whose automaton has
/// `count` states and accepts as `accepts` does.
pub open spec fn distinct_parts(
    keys: Seq<(Seq<StateId>, Option<u16>)>,
    leaves: Seq<(u16, bool)>,
    count: nat,
    accepts: Seq<Option<u16>>,
    total: nat,
) -> bool {
    &&& met_apart(keys, count, accepts)
    &&& leaves_apart(leaves, accepts)
    &&& keys.len() + leaves.len() + 1 >= total
}

/// The key of each state of `states`.
spec fn state_keys(states: Seq<(State, NodeId)>) -> Seq<(Seq<StateId>, Option<u16>)> {
    states.map_values(|entry: (State, NodeId)| key(entry.0))
}

/// The rule of each leaf of `leaves`, and whether its match ends there.
spec fn leaf_keys(leaves: Seq<(u16, bool, NodeId)>) -> Seq<(u16, bool)> {
    leaves.map_values(|entry: (u16, bool, NodeId)| (entry.0, entry.1))
}

/// Builds the nodes of a rule graph, one state at a time.
struct Builder<'a> {
    nfa: &'a Nfa<ByteRange>,
    accepts: &'a Accepts<u16>,
    owners: &'a [Option<usize>],
    nodes: Vec<Node>,
    markers: Vec<bool>,
    /// The node of each state that the builder reached.
    states: Vec<(State, NodeId)>,
    /// The node of each leaf, by its rule and whether it ends here.
    leaves: Vec<(u16, bool, NodeId)>,
    fault: Option<NodeId>,
    /// The states whose nodes wait for their expansion.
    queue: Vec<(State, NodeId)>,
    /// The scratch set of the epsilon closures.
    set: StateSet,
}

impl<'a> Builder<'a> {
    /// The number of the states of the automaton.
    spec fn count(&self) -> nat {
        self.nfa.spec_state_count()
    }

    /// Whether the builder is consistent: its tables hold one entry for each
    /// state of the automaton, each edge and each identifier refers to a node
    /// that it built, and each state holds valid positions.
    spec fn inv(&self) -> bool {
        &&& self.inv_but_count()
        &&& self.nodes@.len() == self.states@.len() + self.leaves@.len() + if self.fault is Some {
            1int
        } else {
            0int
        }
    }

    /// The consistency of the builder, but for the number of its nodes.
    spec fn inv_but_count(&self) -> bool {
        &&& self.nfa.well_formed()
        &&& self.accepts.spec_accepts().len() == self.count()
        &&& self.owners@.len() == self.count()
        &&& self.set.well_formed()
        &&& self.set.spec_bound() == self.count()
        &&& self.nodes@.len() == self.markers@.len()
        &&& self.nodes@.len() <= MAX_NODES
        &&& edges_inside(self.nodes@)
        &&& none_flagged(self.nodes@)
        &&& leaves_accepted(self.nodes@, self.accepts.spec_accepts())
        &&& all_ordered(self.nodes@)
        &&& forall|i: int|
            0 <= i < self.states@.len() ==> {
                &&& (#[trigger] self.states@[i]).1@ < self.nodes@.len()
                &&& valid_positions(self.states@[i].0.positions@, self.count())
                &&& known(self.accepts.spec_accepts(), self.states@[i].0.pending)
            }
        &&& forall|i: int| 0 <= i < self.leaves@.len() ==> (#[trigger] self.leaves@[i]).2@ < self.nodes@.len()
        &&& (self.fault matches Some(id) ==> id@ < self.nodes@.len())
        &&& met_apart(state_keys(self.states@), self.count(), self.accepts.spec_accepts())
        &&& leaves_apart(leaf_keys(self.leaves@), self.accepts.spec_accepts())
        &&& forall|i: int|
            0 <= i < self.queue@.len() ==> {
                &&& (#[trigger] self.queue@[i]).1@ < self.nodes@.len()
                &&& valid_positions(self.queue@[i].0.positions@, self.count())
                &&& known(self.accepts.spec_accepts(), self.queue@[i].0.pending)
            }
    }

    /// Whether this builder came from `old` by adding nodes, and added no
    /// more states to its queue than nodes.
    spec fn grew_from(&self, old: &Self) -> bool {
        &&& self.nfa == old.nfa
        &&& self.accepts == old.accepts
        &&& self.owners == old.owners
        &&& old.nodes@.len() <= self.nodes@.len()
        &&& old.queue@.len() <= self.queue@.len()
        &&& self.queue@.len() - old.queue@.len() <= self.nodes@.len() - old.nodes@.len()
    }
}

/// Edges to the nodes below `count` stay below a larger count.
proof fn lemma_edges_grow(nodes: Seq<Node>, node: Node, count: nat, accepts: Seq<Option<u16>>)
    requires
        edges_inside(nodes),
        none_flagged(nodes),
        leaves_accepted(nodes, accepts),
        all_ordered(nodes),
        edges_below(node, nodes.len()),
        unflagged(node),
        ordered_ranges(node),
        node matches Node::Leaf(leaf) ==> accepted(accepts, leaf.rule),
        nodes.len() <= count,
    ensures
        edges_inside(nodes.push(node)),
        none_flagged(nodes.push(node)),
        leaves_accepted(nodes.push(node), accepts),
        all_ordered(nodes.push(node)),
{
    let pushed = nodes.push(node);
    assert forall|i: int| 0 <= i < pushed.len() implies edges_below(#[trigger] pushed[i], pushed.len()) && unflagged(pushed[i]) && ordered_ranges(pushed[i]) by {
        if i < nodes.len() {
            assert(pushed[i] == nodes[i]);
            assert(edges_below(nodes[i], nodes.len()));
        }
    }
}

impl<'a> Builder<'a> {
    /// Adds `node` to the arena, then returns its identifier.
    ///
    /// The result is an [`Overflow`] above [`MAX_NODES`] nodes.
    fn push(&mut self, node: Node, marker: bool) -> (pushed: Result<NodeId, Overflow>)
        requires
            old(self).inv(),
            edges_below(node, old(self).nodes@.len()),
            unflagged(node),
            ordered_ranges(node),
            node matches Node::Leaf(leaf) ==> accepted(old(self).accepts.spec_accepts(), leaf.rule),
        ensures
            final(self).inv_but_count(),
            pushed is Err ==> final(self).inv(),
            final(self).grew_from(old(self)),
            final(self).queue@ == old(self).queue@,
            final(self).states@ == old(self).states@,
            final(self).leaves@ == old(self).leaves@,
            final(self).fault == old(self).fault,
            match pushed {
                Ok(id) => {
                    &&& old(self).nodes@.len() < MAX_NODES
                    &&& id@ == old(self).nodes@.len()
                    &&& final(self).nodes@ == old(self).nodes@.push(node)
                    &&& final(self).markers@ == old(self).markers@.push(marker)
                },
                Err(overflow) => {
                    &&& old(self).nodes@.len() >= MAX_NODES
                    &&& overflow == (Overflow { part: Part::States, maximum: MAX_NODES })
                    &&& final(self).nodes@.len() == MAX_NODES
                },
            },
    {
        if self.nodes.len() >= MAX_NODES {
            return Err(Overflow::new(Part::States, MAX_NODES));
        }
        let id = NodeId::new(self.nodes.len());
        proof {
            lemma_edges_grow(self.nodes@, node, self.nodes@.len() + 1, self.accepts.spec_accepts());
        }
        self.nodes.push(node);
        self.markers.push(marker);
        Ok(id)
    }
}


impl<'a> Builder<'a> {
    /// Returns the node of `state`, if the builder reached that state.
    fn find(&self, state: &State) -> (found: Option<NodeId>)
        requires
            self.inv(),
        ensures
            found matches Some(id) ==> id@ < self.nodes@.len() && exists|i: int|
                0 <= i < self.states@.len() && key((#[trigger] self.states@[i]).0) == key(*state)
                    && self.states@[i].1 == id,
            found is None ==> forall|i: int|
                0 <= i < self.states@.len() ==> key((#[trigger] self.states@[i]).0) != key(*state),
    {
        let mut i: usize = 0;
        while i < self.states.len()
            invariant
                self.inv(),
                i <= self.states@.len(),
                forall|k: int| 0 <= k < i ==> key((#[trigger] self.states@[k]).0) != key(*state),
            decreases self.states@.len() - i,
        {
            if same_state(&self.states[i].0, state) {
                let id = self.states[i].1;
                proof {
                    assert(self.states@[i as int].1@ < self.nodes@.len());
                }
                return Some(id);
            }
            i = i + 1;
        }
        None
    }

    /// Returns the node of `state`, and adds that node to the queue if it is
    /// new.
    ///
    /// The result is an [`Overflow`] above [`MAX_NODES`] nodes.
    fn node_of(&mut self, state: State) -> (node: Result<NodeId, Overflow>)
        requires
            old(self).inv(),
            valid_positions(state.positions@, old(self).count()),
            known(old(self).accepts.spec_accepts(), state.pending),
        ensures
            final(self).inv(),
            final(self).grew_from(old(self)),
            node matches Ok(id) ==> id@ < final(self).nodes@.len(),
            node matches Err(overflow) ==> overflow == (Overflow { part: Part::States, maximum: MAX_NODES })
                && final(self).nodes@.len() == MAX_NODES,
    {
        if let Some(id) = self.find(&state) {
            return Ok(id);
        }
        let marker = state.pending.is_some();
        let ghost old_keys = state_keys(self.states@);
        let id = self.push(Node::Fault, marker)?;
        let copy = copy_state(&state);
        self.states.push((copy, id));
        self.queue.push((state, id));
        proof {
            let keys = state_keys(self.states@);
            assert(keys =~= old_keys.push(key(state)));
            assert forall|i: int, j: int| 0 <= i < j < keys.len() implies #[trigger] keys[i] != #[trigger] keys[j] by {
                if j == old_keys.len() {
                    assert(keys[i] == key(old(self).states@[i].0));
                }
            }
        }
        Ok(id)
    }

    /// Returns the node that gives the token of `rule`.
    ///
    /// A leaf of `here` ends its match at the offset of the leaf. Each other
    /// leaf takes the offset of the match as its marker.
    fn leaf(&mut self, rule: u16, here: bool) -> (node: Result<NodeId, Overflow>)
        requires
            old(self).inv(),
            accepted(old(self).accepts.spec_accepts(), rule),
        ensures
            final(self).inv(),
            final(self).grew_from(old(self)),
            final(self).queue@ == old(self).queue@,
            node matches Ok(id) ==> id@ < final(self).nodes@.len(),
            node matches Err(overflow) ==> overflow == (Overflow { part: Part::States, maximum: MAX_NODES })
                && final(self).nodes@.len() == MAX_NODES,
    {
        let mut i: usize = 0;
        while i < self.leaves.len()
            invariant
                self.inv(),
                i <= self.leaves@.len(),
                forall|k: int| 0 <= k < i ==> (#[trigger] leaf_keys(self.leaves@)[k]) != (rule, here),
            decreases self.leaves@.len() - i,
        {
            let (leaf_rule, leaf_here, id) = self.leaves[i];
            if leaf_rule == rule && leaf_here == here {
                proof {
                    assert(self.leaves@[i as int].2@ < self.nodes@.len());
                }
                return Ok(id);
            }
            i = i + 1;
        }
        let ghost old_keys = leaf_keys(self.leaves@);
        let id = self.push(Node::Leaf(Leaf { rule, here }), !here)?;
        self.leaves.push((rule, here, id));
        proof {
            let keys = leaf_keys(self.leaves@);
            assert(keys =~= old_keys.push((rule, here)));
            assert forall|j: int, k: int| 0 <= j < k < keys.len() implies #[trigger] keys[j] != #[trigger] keys[k] by {
                if k == old_keys.len() {
                    assert(keys[j] == old_keys[j]);
                }
            }
        }
        Ok(id)
    }

    /// Returns the node that reports that no rule matched.
    fn fault(&mut self) -> (node: Result<NodeId, Overflow>)
        requires
            old(self).inv(),
        ensures
            final(self).inv(),
            final(self).grew_from(old(self)),
            final(self).queue@ == old(self).queue@,
            node matches Ok(id) ==> id@ < final(self).nodes@.len(),
            node matches Err(overflow) ==> overflow == (Overflow { part: Part::States, maximum: MAX_NODES })
                && final(self).nodes@.len() == MAX_NODES,
    {
        if let Some(id) = self.fault {
            return Ok(id);
        }
        let id = self.push(Node::Fault, false)?;
        self.fault = Some(id);
        Ok(id)
    }
}

/// The labels of the transitions of each state of `positions`, those of the
/// first state first.
pub open spec fn position_labels(
    groups: Seq<Seq<Transition<ByteRange>>>,
    positions: Seq<StateId>,
) -> Seq<ByteRange>
    decreases positions.len(),
{
    if positions.len() == 0 {
        Seq::empty()
    } else {
        position_labels(groups, positions.drop_last()) + groups[positions.last()@ as int].map_values(
            |transition: Transition<ByteRange>| transition.label,
        )
    }
}

/// The states of `positions` that the rule at `rule` owns where `keep`
/// holds, or that it does not own where `keep` does not hold, in their
/// sequence.
pub open spec fn owned_by(
    owners: Seq<Option<usize>>,
    positions: Seq<StateId>,
    rule: usize,
    keep: bool,
) -> Seq<StateId>
    decreases positions.len(),
{
    if positions.len() == 0 {
        Seq::empty()
    } else {
        let last = positions.last();
        owned_by(owners, positions.drop_last(), rule, keep) + if (owners[last@ as int] == Some(rule))
            == keep {
            seq![last]
        } else {
            Seq::empty()
        }
    }
}

/// The positions that `positions` reach after they read `byte`, with each
/// position that those reach with no byte, in ascending sequence.
pub open spec fn stepped(nfa: &Nfa<ByteRange>, positions: Seq<StateId>, byte: u8) -> Seq<StateId> {
    ascending(
        closure(nfa.spec_epsilons(), id_set(moves(nfa.spec_transitions(), positions, byte))),
        nfa.spec_state_count(),
    )
}

/// Each state that `moves` reaches is below the number of the states.
proof fn lemma_moves_below(nfa: &Nfa<ByteRange>, positions: Seq<StateId>, byte: u8)
    requires
        nfa.well_formed(),
        forall|k: int| 0 <= k < positions.len() ==> (#[trigger] positions[k])@ < nfa.spec_state_count(),
    ensures
        forall|k: int|
            0 <= k < moves(nfa.spec_transitions(), positions, byte).len() ==> (#[trigger] moves(
                nfa.spec_transitions(),
                positions,
                byte,
            )[k])@ < nfa.spec_state_count(),
{
    let groups = nfa.spec_transitions();
    let targets = moves(groups, positions, byte);
    lemma_moves(groups, positions, byte);
    assert forall|k: int| 0 <= k < targets.len() implies (#[trigger] targets[k])@ < nfa.spec_state_count() by {
        assert(id_set(targets).contains(targets[k]@));
        assert(moves_to(groups, id_set(positions), byte, targets[k]@));
        let (source, m) = choose|source: nat, m: int|
            #![trigger id_set(positions).contains(source), groups[source as int][m]]
            id_set(positions).contains(source) && 0 <= m < groups[source as int].len()
                && groups[source as int][m].label.spec_matches(byte) && groups[source as int][m].target@
                == targets[k]@;
        let j = choose|j: int| 0 <= j < positions.len() && (#[trigger] positions[j])@ == source;
        assert(source < nfa.spec_state_count());
    }
}

impl<'a> Builder<'a> {
    /// Whether this builder holds what `old` holds, but for its scratch set.
    spec fn same_as(&self, old: &Self) -> bool {
        &&& self.nfa == old.nfa
        &&& self.accepts == old.accepts
        &&& self.owners == old.owners
        &&& self.nodes == old.nodes
        &&& self.markers == old.markers
        &&& self.states == old.states
        &&& self.leaves == old.leaves
        &&& self.fault == old.fault
        &&& self.queue == old.queue
    }

    /// Returns `seeds` and each position that they reach with no byte, in
    /// ascending sequence.
    fn closure(&mut self, seeds: &[StateId]) -> (positions: Vec<StateId>)
        requires
            old(self).inv(),
            forall|k: int| 0 <= k < seeds@.len() ==> (#[trigger] seeds@[k])@ < old(self).count(),
        ensures
            final(self).inv(),
            final(self).same_as(old(self)),
            positions@ == ascending(closure(old(self).nfa.spec_epsilons(), id_set(seeds@)), old(self).count()),
            valid_positions(positions@, old(self).count()),
    {
        let nfa = self.nfa;
        epsilon_closure(nfa, seeds, &mut self.set);
        let positions = copied(self.set.members());
        proof {
            lemma_ascending(closure(nfa.spec_epsilons(), id_set(seeds@)), nfa.spec_state_count());
        }
        positions
    }

    /// Returns the positions that `positions` reach after they read `byte`.
    fn step(&mut self, positions: &[StateId], byte: u8) -> (reached: Vec<StateId>)
        requires
            old(self).inv(),
            valid_positions(positions@, old(self).count()),
        ensures
            final(self).inv(),
            final(self).same_as(old(self)),
            reached@ == stepped(old(self).nfa, positions@, byte),
            valid_positions(reached@, old(self).count()),
    {
        let nfa = self.nfa;
        let targets = nfa.step(positions, byte);
        proof {
            lemma_moves_below(nfa, positions@, byte);
        }
        self.closure(targets.as_slice())
    }

    /// Returns the rule of the highest precedence that accepts at
    /// `positions`.
    fn own(&self, positions: &[StateId]) -> (rule: Option<u16>)
        requires
            self.inv(),
            valid_positions(positions@, self.count()),
        ensures
            is_lowest(self.accepts.spec_accepts(), positions@, rule),
            known(self.accepts.spec_accepts(), rule),
    {
        let rule = self.accepts.lowest(positions);
        proof {
            if let Some(value) = rule {
                let k = choose|k: int|
                    0 <= k < positions@.len() && #[trigger] self.accepts.spec_accepts()[positions@[k]@ as int] == Some(value);
                assert(positions@[k]@ < self.count());
            }
        }
        rule
    }

    /// Returns the byte ranges that `positions` read, divided into disjoint
    /// classes.
    fn classes(&self, positions: &[StateId]) -> (classes: Vec<(ByteRange, u8)>)
        requires
            self.inv(),
            valid_positions(positions@, self.count()),
        ensures
            divided(position_labels(self.nfa.spec_transitions(), positions@), classes@),
    {
        let ghost groups = self.nfa.spec_transitions();
        let mut labels: Vec<ByteRange> = Vec::new();
        let mut k: usize = 0;
        proof {
            assert(positions@.take(0) =~= Seq::<StateId>::empty());
        }
        while k < positions.len()
            invariant
                self.inv(),
                groups == self.nfa.spec_transitions(),
                valid_positions(positions@, self.count()),
                k <= positions@.len(),
                labels@ == position_labels(groups, positions@.take(k as int)),
            decreases positions@.len() - k,
        {
            let transitions = self.nfa.transitions(positions[k]);
            let ghost before = labels@;
            let mut t: usize = 0;
            while t < transitions.len()
                invariant
                    t <= transitions@.len(),
                    labels@ == before + transitions@.take(t as int).map_values(
                        |transition: Transition<ByteRange>| transition.label,
                    ),
                decreases transitions@.len() - t,
            {
                labels.push(transitions[t].label);
                t = t + 1;
                proof {
                    assert(labels@ =~= before + transitions@.take(t as int).map_values(
                        |transition: Transition<ByteRange>| transition.label,
                    ));
                }
            }
            proof {
                assert(transitions@.take(t as int) =~= transitions@);
                assert(positions@.take(k + 1).drop_last() =~= positions@.take(k as int));
                assert(positions@.take(k + 1).last() == positions@[k as int]);
            }
            k = k + 1;
        }
        proof {
            assert(positions@.take(k as int) =~= positions@);
        }
        ByteRange::divide(labels.as_slice())
    }
}

/// Whether `values` are in strictly ascending sequence.
pub open spec fn strictly_ascending(values: Seq<usize>) -> bool {
    forall|k: int, m: int| 0 <= k < m < values.len() ==> (#[trigger] values[k]) < (#[trigger] values[m])
}

/// Whether a state of `positions` has the owner `rule`.
pub open spec fn owns_one(owners: Seq<Option<usize>>, positions: Seq<StateId>, rule: usize) -> bool {
    exists|k: int| 0 <= k < positions.len() && owners[(#[trigger] positions[k])@ as int] == Some(rule)
}

/// Inserts `rule` into the strictly ascending `rules`, where it is not there
/// yet.
pub(crate) fn insert_ascending(rules: &mut Vec<usize>, rule: usize)
    requires
        strictly_ascending(old(rules)@),
    ensures
        strictly_ascending(final(rules)@),
        forall|r: usize| #[trigger] final(rules)@.contains(r) <==> old(rules)@.contains(r) || r == rule,
{
    let mut i: usize = 0;
    while i < rules.len() && rules[i] < rule
        invariant
            strictly_ascending(rules@),
            i <= rules@.len(),
            forall|k: int| 0 <= k < i ==> rules@[k] < rule,
        decreases rules@.len() - i,
    {
        i = i + 1;
    }
    if i < rules.len() && rules[i] == rule {
        return;
    }
    let ghost before = rules@;
    rules.insert(i, rule);
    proof {
        before.insert_ensures(i as int, rule);
        let after = rules@;
        assert forall|k: int, m: int| 0 <= k < m < after.len() implies (#[trigger] after[k]) < (
        #[trigger] after[m]) by {
            if m < i {
            } else if m == i {
            } else if k < i {
                assert(after[m] == before[m - 1]);
            } else if k == i {
                assert(after[m] == before[m - 1]);
                assert(before[i as int] > rule);
                if m - 1 > i {
                    assert(before[i as int] < before[m - 1]);
                }
            } else {
                assert(after[m] == before[m - 1]);
                assert(after[k] == before[k - 1]);
            }
        }
        assert forall|r: usize| #[trigger] after.contains(r) <==> before.contains(r) || r == rule by {
            if after.contains(r) {
                let k = choose|k: int| 0 <= k < after.len() && after[k] == r;
                if k < i {
                    assert(before[k] == r);
                } else if k > i {
                    assert(before[k - 1] == r);
                }
            }
            if before.contains(r) {
                let k = choose|k: int| 0 <= k < before.len() && before[k] == r;
                if k < i {
                    assert(after[k] == r);
                } else {
                    assert(after[k + 1] == r);
                }
            }
            if r == rule {
                assert(after[i as int] == r);
            }
        }
    }
}

impl<'a> Builder<'a> {
    /// Returns the index of each rule that owns a position of `positions`,
    /// in ascending sequence.
    fn rules(&self, positions: &[StateId]) -> (rules: Vec<usize>)
        requires
            self.inv(),
            valid_positions(positions@, self.count()),
        ensures
            strictly_ascending(rules@),
            forall|rule: usize| #[trigger] rules@.contains(rule) <==> owns_one(self.owners@, positions@, rule),
    {
        let mut rules: Vec<usize> = Vec::new();
        let mut k: usize = 0;
        while k < positions.len()
            invariant
                self.inv(),
                valid_positions(positions@, self.count()),
                k <= positions@.len(),
                strictly_ascending(rules@),
                forall|rule: usize| #[trigger] rules@.contains(rule) <==> owns_one(
                    self.owners@,
                    positions@.take(k as int),
                    rule,
                ),
            decreases positions@.len() - k,
        {
            let ghost before = positions@.take(k as int);
            let ghost after = positions@.take(k + 1);
            let owner = self.owners[positions[k].index()];
            if let Some(rule) = owner {
                insert_ascending(&mut rules, rule);
            }
            proof {
                assert forall|rule: usize| owns_one(self.owners@, after, rule) <==> owns_one(
                    self.owners@,
                    before,
                    rule,
                ) || owner == Some(rule) by {
                    if owns_one(self.owners@, after, rule) {
                        let j = choose|j: int|
                            0 <= j < after.len() && self.owners@[(#[trigger] after[j])@ as int] == Some(rule);
                        if j < k {
                            assert(before[j] == after[j]);
                        }
                    }
                    if owns_one(self.owners@, before, rule) {
                        let j = choose|j: int|
                            0 <= j < before.len() && self.owners@[(#[trigger] before[j])@ as int] == Some(rule);
                        assert(after[j] == before[j]);
                    }
                    if owner == Some(rule) {
                        assert(after[k as int] == positions@[k as int]);
                    }
                }
            }
            k = k + 1;
        }
        proof {
            assert(positions@.take(k as int) =~= positions@);
        }
        rules
    }

    /// Returns the positions of `positions` that the rule at `rule` owns
    /// where `keep` holds, or that it does not own where `keep` does not
    /// hold.
    fn owned(&self, positions: &[StateId], rule: usize, keep: bool) -> (owned: Vec<StateId>)
        requires
            self.inv(),
            valid_positions(positions@, self.count()),
        ensures
            owned@ == owned_by(self.owners@, positions@, rule, keep),
            valid_positions(owned@, self.count()),
    {
        let mut owned: Vec<StateId> = Vec::new();
        let mut k: usize = 0;
        proof {
            assert(positions@.take(0) =~= Seq::<StateId>::empty());
        }
        while k < positions.len()
            invariant
                self.inv(),
                valid_positions(positions@, self.count()),
                k <= positions@.len(),
                owned@ == owned_by(self.owners@, positions@.take(k as int), rule, keep),
                valid_positions(owned@, self.count()),
                owned@.len() > 0 && k < positions@.len() ==> owned@.last()@ < positions@[k as int]@,
            decreases positions@.len() - k,
        {
            let id = positions[k];
            let matches = match self.owners[id.index()] {
                Some(owner) => owner == rule,
                None => false,
            };
            let ghost before = owned@;
            if matches == keep {
                owned.push(id);
                proof {
                    assert forall|a: int, b: int| 0 <= a < b < owned@.len() implies (#[trigger] owned@[a])@
                        < (#[trigger] owned@[b])@ by {
                        if b == before.len() && a < b {
                            assert(before.last() == before[before.len() - 1]);
                            assert(before[a]@ <= before.last()@);
                        }
                    }
                }
            }
            proof {
                assert(positions@.take(k + 1).drop_last() =~= positions@.take(k as int));
                assert(positions@.take(k + 1).last() == positions@[k as int]);
                assert(matches == (self.owners@[id@ as int] == Some(rule)));
                if k + 1 < positions@.len() {
                    assert(positions@[k as int]@ < positions@[k + 1]@);
                }
            }
            k = k + 1;
        }
        proof {
            assert(positions@.take(k as int) =~= positions@);
        }
        owned
    }
}

/// Whether a state of `positions` accepts.
pub open spec fn accepting(accepts: Seq<Option<u16>>, positions: Seq<StateId>) -> bool {
    exists|k: int| 0 <= k < positions.len() && (#[trigger] accepts[positions[k]@ as int]) is Some
}

/// Whether a label of `labels` matches `byte`, and no label matches another
/// byte.
pub open spec fn forced(labels: Seq<ByteRange>, byte: u8) -> bool {
    &&& matched_by(labels, byte)
    &&& forall|other: u8| #[trigger] matched_by(labels, other) ==> other == byte
}

/// The bytes that `positions` read with no choice, at most `fuel` of them.
///
/// The chain stops at a position that accepts, and where the positions read
/// more than one byte or none.
pub open spec fn chained(
    nfa: &Nfa<ByteRange>,
    accepts: Seq<Option<u16>>,
    positions: Seq<StateId>,
    fuel: nat,
) -> Seq<u8>
    decreases fuel,
{
    let labels = position_labels(nfa.spec_transitions(), positions);
    if fuel == 0 || positions.len() == 0 || accepting(accepts, positions) || !(exists|byte: u8|
        #[trigger] forced(labels, byte)) {
        Seq::empty()
    } else {
        let byte = choose|byte: u8| #[trigger] forced(labels, byte);
        seq![byte] + chained(nfa, accepts, stepped(nfa, positions, byte), (fuel - 1) as nat)
    }
}

/// Labels read one forced byte exactly where their division holds one class
/// of one byte, and that byte is the byte of the class.
proof fn lemma_forced(labels: Seq<ByteRange>, classes: Seq<(ByteRange, u8)>)
    requires
        divided(labels, classes),
    ensures
        (exists|byte: u8| #[trigger] forced(labels, byte)) <==> (classes.len() == 1 && classes[0].0.low
            == classes[0].0.high),
        classes.len() == 1 && classes[0].0.low == classes[0].0.high ==> forced(labels, classes[0].1),
{
    if classes.len() == 1 && classes[0].0.low == classes[0].0.high {
        let low = classes[0].0.low;
        assert(classes[0].0.spec_matches(low));
        assert(in_class(classes, low));
        assert forall|other: u8| #[trigger] matched_by(labels, other) implies other == low by {
            assert(in_class(classes, other));
        }
        assert(forced(labels, classes[0].1));
    }
    if exists|byte: u8| #[trigger] forced(labels, byte) {
        let byte = choose|byte: u8| #[trigger] forced(labels, byte);
        assert(in_class(classes, byte));
        let c0 = choose|c: int| 0 <= c < classes.len() && #[trigger] classes[c].0.spec_matches(byte);
        assert forall|c: int| 0 <= c < classes.len() implies (#[trigger] classes[c]).0.low == byte
            && classes[c].0.high == byte by {
            let low = classes[c].0.low;
            let high = classes[c].0.high;
            assert(classes[c].0.spec_matches(low));
            assert(in_class(classes, low));
            assert(matched_by(labels, low));
            assert(classes[c].0.spec_matches(high));
            assert(in_class(classes, high));
            assert(matched_by(labels, high));
        }
        if classes.len() > 1 {
            assert(classes[0].0.high < classes[1].0.low);
        }
    }
}

impl<'a> Builder<'a> {
    /// Returns the bytes that `positions` read with no choice.
    ///
    /// The chain stops at a position that accepts, at a position that reads
    /// more than one byte, and at [`MAX_ROPE`] bytes.
    fn chain(&mut self, positions: &[StateId]) -> (bytes: Vec<u8>)
        requires
            old(self).inv(),
            valid_positions(positions@, old(self).count()),
        ensures
            final(self).inv(),
            final(self).same_as(old(self)),
            bytes@ == chained(old(self).nfa, old(self).accepts.spec_accepts(), positions@, MAX_ROPE as nat),
            bytes@.len() <= MAX_ROPE,
    {
        let ghost start = *self;
        let ghost nfa = self.nfa;
        let ghost accepts = self.accepts.spec_accepts();
        let mut bytes: Vec<u8> = Vec::new();
        let mut current = copied(positions);
        while bytes.len() < MAX_ROPE
            invariant
                self.inv(),
                self.same_as(&start),
                nfa == self.nfa,
                accepts == self.accepts.spec_accepts(),
                valid_positions(current@, self.count()),
                bytes@.len() <= MAX_ROPE,
                bytes@ + chained(nfa, accepts, current@, (MAX_ROPE - bytes@.len()) as nat) == chained(
                    nfa,
                    accepts,
                    positions@,
                    MAX_ROPE as nat,
                ),
            ensures
                self.inv(),
                self.same_as(&start),
                bytes@.len() <= MAX_ROPE,
                bytes@ == chained(nfa, accepts, positions@, MAX_ROPE as nat),
            decreases MAX_ROPE - bytes@.len(),
        {
            let ghost fuel = (MAX_ROPE - bytes@.len()) as nat;
            let ghost labels = position_labels(nfa.spec_transitions(), current@);
            if current.len() == 0 {
                proof {
                    assert(chained(nfa, accepts, current@, fuel) == Seq::<u8>::empty());
                    assert(bytes@ + Seq::<u8>::empty() =~= bytes@);
                }
                break;
            }
            let own = self.own(current.as_slice());
            if own.is_some() {
                proof {
                    let k = choose|k: int| 0 <= k < current@.len() && #[trigger] accepts[current@[k]@ as int] == Some(own.unwrap());
                    assert(accepting(accepts, current@));
                    assert(bytes@ + Seq::<u8>::empty() =~= bytes@);
                }
                break;
            }
            let classes = self.classes(current.as_slice());
            proof {
                lemma_forced(labels, classes@);
                assert(!accepting(accepts, current@)) by {
                    if accepting(accepts, current@) {
                        let k = choose|k: int| 0 <= k < current@.len() && (#[trigger] accepts[current@[k]@ as int]) is Some;
                    }
                }
            }
            if classes.len() != 1 {
                proof {
                    assert(bytes@ + Seq::<u8>::empty() =~= bytes@);
                }
                break;
            }
            let (range, symbol) = classes[0];
            if range.low != range.high {
                proof {
                    assert(bytes@ + Seq::<u8>::empty() =~= bytes@);
                }
                break;
            }
            let ghost before = bytes@;
            let ghost previous = current@;
            bytes.push(symbol);
            current = self.step(current.as_slice(), symbol);
            proof {
                let chosen = choose|byte: u8| #[trigger] forced(labels, byte);
                assert(forced(labels, symbol));
                assert(matched_by(labels, symbol));
                assert(chosen == symbol);
                assert(chained(nfa, accepts, previous, fuel) == seq![symbol] + chained(
                    nfa,
                    accepts,
                    current@,
                    (fuel - 1) as nat,
                ));
                assert(bytes@ + chained(nfa, accepts, current@, (fuel - 1) as nat) =~= before + chained(
                    nfa,
                    accepts,
                    previous,
                    fuel,
                ));
            }
        }
        proof {
            if bytes@.len() == MAX_ROPE {
                assert(bytes@ + Seq::<u8>::empty() =~= bytes@);
            }
        }
        bytes
    }
}

/// The positions that `positions` reach after they read `bytes`.
pub open spec fn walked(nfa: &Nfa<ByteRange>, positions: Seq<StateId>, bytes: Seq<u8>) -> Seq<StateId>
    decreases bytes.len(),
{
    if bytes.len() == 0 {
        positions
    } else {
        stepped(nfa, walked(nfa, positions, bytes.drop_last()), bytes.last())
    }
}

impl<'a> Builder<'a> {
    /// Returns the edge that a byte of no arm takes.
    fn miss(&mut self, own: Option<u16>, pending: Option<u16>) -> (edge: Result<Edge, Overflow>)
        requires
            old(self).inv(),
            known(old(self).accepts.spec_accepts(), own),
            known(old(self).accepts.spec_accepts(), pending),
        ensures
            final(self).inv(),
            final(self).grew_from(old(self)),
            final(self).queue@ == old(self).queue@,
            edge matches Ok(edge) ==> edge.target@ < final(self).nodes@.len() && !edge.back,
            edge matches Err(overflow) ==> overflow == (Overflow { part: Part::States, maximum: MAX_NODES })
                && final(self).nodes@.len() == MAX_NODES,
    {
        let (target, carry) = match (own, pending) {
            (Some(rule), _) => (self.leaf(rule, true)?, Carry::Nothing),
            (None, Some(rule)) => (self.leaf(rule, false)?, Carry::Marker),
            (None, None) => (self.fault()?, Carry::Nothing),
        };
        Ok(Edge { target, carry, back: false })
    }

    /// Returns the state that `state` reaches after it reads `bytes`, and the
    /// marker that the edge carries.
    fn advance(&mut self, state: &State, own: Option<u16>, bytes: &[u8]) -> (step: Step)
        requires
            old(self).inv(),
            valid_positions(state.positions@, old(self).count()),
            known(old(self).accepts.spec_accepts(), own),
            known(old(self).accepts.spec_accepts(), state.pending),
        ensures
            final(self).inv(),
            final(self).same_as(old(self)),
            known(old(self).accepts.spec_accepts(), step.state.pending),
            step.state.positions@ == walked(old(self).nfa, state.positions@, bytes@),
            valid_positions(step.state.positions@, old(self).count()),
    {
        let ghost start = *self;
        let mut positions = copied(state.positions.as_slice());
        let mut origin: Option<(u16, Origin)> = match own {
            Some(rule) => Some((rule, Origin::Ahead(0))),
            None => match state.pending {
                Some(rule) => Some((rule, Origin::Marker)),
                None => None,
            },
        };
        let mut offset: usize = 0;
        proof {
            assert(bytes@.take(0) =~= Seq::<u8>::empty());
        }
        while offset < bytes.len()
            invariant
                self.inv(),
                self.same_as(&start),
                offset <= bytes@.len(),
                valid_positions(positions@, self.count()),
                positions@ == walked(self.nfa, state.positions@, bytes@.take(offset as int)),
                origin matches Some((rule, _)) ==> accepted(self.accepts.spec_accepts(), rule),
            decreases bytes@.len() - offset,
        {
            let byte = bytes[offset];
            positions = self.step(positions.as_slice(), byte);
            if let Some(rule) = self.own(positions.as_slice()) {
                origin = Some((rule, Origin::Ahead(offset + 1)));
            }
            proof {
                assert(bytes@.take(offset + 1).drop_last() =~= bytes@.take(offset as int));
                assert(bytes@.take(offset + 1).last() == byte);
            }
            offset = offset + 1;
        }
        proof {
            assert(bytes@.take(offset as int) =~= bytes@);
        }
        let reached = self.own(positions.as_slice());
        let pending = if reached.is_some() {
            None
        } else {
            match origin {
                Some((rule, _)) => Some(rule),
                None => None,
            }
        };
        let carry = match (pending, origin) {
            (Some(_), Some((_, Origin::Ahead(ahead)))) => Carry::Ahead(ahead),
            (Some(_), Some((_, Origin::Marker))) => Carry::Marker,
            _ => Carry::Nothing,
        };
        Step { state: State { positions, pending }, carry }
    }

    /// Returns the rope of `state`, which reads `bytes` and which leaves the
    /// rule at `rule` out of its miss.
    fn rope(&mut self, state: &State, own: Option<u16>, bytes: &[u8], rule: Option<usize>) -> (node: Result<Node, Overflow>)
        requires
            old(self).inv(),
            valid_positions(state.positions@, old(self).count()),
            known(old(self).accepts.spec_accepts(), own),
            known(old(self).accepts.spec_accepts(), state.pending),
        ensures
            final(self).inv(),
            final(self).grew_from(old(self)),
            node matches Ok(node) ==> edges_below(node, final(self).nodes@.len()) && unflagged(node) && ordered_ranges(node),
            node matches Ok(node) ==> node matches Node::Rope(rope) && rope.bytes@ == bytes@,
            node matches Err(overflow) ==> overflow == (Overflow { part: Part::States, maximum: MAX_NODES })
                && final(self).nodes@.len() == MAX_NODES,
    {
        let step = self.advance(state, own, bytes);
        let carry = step.carry;
        let then = self.node_of(step.state)?;
        let positions = match rule {
            Some(rule) => self.owned(state.positions.as_slice(), rule, false),
            None => Vec::new(),
        };
        let rest = self.own(positions.as_slice());
        let pending = if rest.is_some() {
            None
        } else {
            match own {
                Some(rule) => Some(rule),
                None => state.pending,
            }
        };
        let miss = if pending.is_none() {
            Carry::Nothing
        } else if own.is_some() {
            Carry::Ahead(0)
        } else {
            Carry::Marker
        };
        let target = self.node_of(State { positions, pending })?;
        let node = Node::Rope(Rope {
            bytes: copied_bytes(bytes),
            matched: Edge { target: then, carry, back: false },
            miss: Edge { target, carry: miss, back: false },
        });
        proof {
            assert(edges_of(node) =~= seq![
                Edge { target: then, carry, back: false },
                Edge { target, carry: miss, back: false },
            ]);
        }
        Ok(node)
    }
}

/// Returns a copy of `bytes`.
fn copied_bytes(bytes: &[u8]) -> (copy: Vec<u8>)
    ensures
        copy@ == bytes@,
{
    let mut copy: Vec<u8> = Vec::new();
    let mut k: usize = 0;
    while k < bytes.len()
        invariant
            k <= bytes@.len(),
            copy@ == bytes@.take(k as int),
        decreases bytes@.len() - k,
    {
        copy.push(bytes[k]);
        k = k + 1;
        proof {
            assert(copy@ =~= bytes@.take(k as int));
        }
    }
    proof {
        assert(bytes@.take(k as int) =~= bytes@);
    }
    copy
}

/// The bytes that the states of `positions` that the rule at `rule` owns
/// read with no choice, at most [`MAX_ROPE`] of them.
pub open spec fn rule_chain(
    nfa: &Nfa<ByteRange>,
    accepts: Seq<Option<u16>>,
    owners: Seq<Option<usize>>,
    positions: Seq<StateId>,
    rule: usize,
) -> Seq<u8> {
    chained(nfa, accepts, owned_by(owners, positions, rule, true), MAX_ROPE as nat)
}

/// Whether the rule at `rule` owns a state of `positions`, and its states
/// read two bytes or more with no choice.
pub open spec fn ropes(
    nfa: &Nfa<ByteRange>,
    accepts: Seq<Option<u16>>,
    owners: Seq<Option<usize>>,
    positions: Seq<StateId>,
    rule: usize,
) -> bool {
    owns_one(owners, positions, rule) && rule_chain(nfa, accepts, owners, positions, rule).len() >= 2
}

/// Whether the rule at `rule` is the one rule of `positions` that ropes.
pub open spec fn sole_rope(
    nfa: &Nfa<ByteRange>,
    accepts: Seq<Option<u16>>,
    owners: Seq<Option<usize>>,
    positions: Seq<StateId>,
    rule: usize,
) -> bool {
    &&& ropes(nfa, accepts, owners, positions, rule)
    &&& forall|other: usize| #[trigger] ropes(nfa, accepts, owners, positions, other) ==> other == rule
}

impl<'a> Builder<'a> {
    /// Returns the bytes of the rope of `state`, and the rule that the rope
    /// reads.
    ///
    /// The result is `None` if no rope is applicable. A rope of one rule
    /// leaves the rules that remain in its miss, thus it names that rule. A
    /// rope that each rule reads together leaves nothing, thus it names none.
    fn rope_of(&mut self, state: &State, classes: &[(ByteRange, u8)], own: Option<u16>) -> (rope: Option<(Vec<u8>, Option<usize>)>)
        requires
            old(self).inv(),
            valid_positions(state.positions@, old(self).count()),
        ensures
            final(self).inv(),
            final(self).same_as(old(self)),
            rope matches Some((bytes, _)) ==> 2 <= bytes@.len() <= MAX_ROPE,
            ({
                let nfa = old(self).nfa;
                let accepts = old(self).accepts.spec_accepts();
                let owners = old(self).owners@;
                let positions = state.positions@;
                let single = own is None && classes@.len() == 1 && classes@[0].0.low == classes@[0].0.high;
                match rope {
                    Some((bytes, Some(rule))) => sole_rope(nfa, accepts, owners, positions, rule)
                        && bytes@ == rule_chain(nfa, accepts, owners, positions, rule),
                    Some((bytes, None)) => {
                        &&& !exists|rule: usize| #[trigger] sole_rope(nfa, accepts, owners, positions, rule)
                        &&& single
                        &&& bytes@ == chained(nfa, accepts, positions, MAX_ROPE as nat)
                    },
                    None => {
                        &&& !exists|rule: usize| #[trigger] sole_rope(nfa, accepts, owners, positions, rule)
                        &&& !(single && chained(nfa, accepts, positions, MAX_ROPE as nat).len() >= 2)
                    },
                }
            }),
    {
        let ghost nfa = self.nfa;
        let ghost accepts = self.accepts.spec_accepts();
        let ghost owners = self.owners@;
        let ghost positions = state.positions@;
        let mut found: Option<(Vec<u8>, Option<usize>)> = None;
        let mut count: usize = 0;
        let ghost mut found_at: int = 0;
        let ghost start = *self;
        let rules = self.rules(state.positions.as_slice());
        let mut i: usize = 0;
        while i < rules.len()
            invariant
                self.inv(),
                self.same_as(&start),
                nfa == self.nfa,
                accepts == self.accepts.spec_accepts(),
                owners == self.owners@,
                positions == state.positions@,
                valid_positions(state.positions@, self.count()),
                strictly_ascending(rules@),
                forall|rule: usize| #[trigger] rules@.contains(rule) <==> owns_one(owners, positions, rule),
                i <= rules@.len(),
                count <= i,
                found matches Some((bytes, _)) ==> 2 <= bytes@.len() <= MAX_ROPE,
                count == 0 ==> forall|k: int| 0 <= k < i ==> !ropes(nfa, accepts, owners, positions, #[trigger] rules@[k]),
                count >= 1 ==> (0 <= found_at < i && (found matches Some((_, Some(rule))) && rules@[found_at] == rule)),
                count >= 1 ==> (found matches Some((bytes, Some(rule))) && ropes(nfa, accepts, owners, positions, rule)
                    && bytes@ == rule_chain(nfa, accepts, owners, positions, rule)
                    && (count == 1 ==> forall|k: int| 0 <= k < i && ropes(nfa, accepts, owners, positions, #[trigger] rules@[k]) ==> rules@[k] == rule)),
                count >= 2 ==> exists|k: int, m: int|
                    0 <= k < m < i && ropes(nfa, accepts, owners, positions, #[trigger] rules@[k]) && ropes(nfa, accepts, owners, positions, #[trigger] rules@[m]),
            decreases rules@.len() - i,
        {
            let rule = rules[i];
            proof {
                assert(rules@.contains(rule));
            }
            let owned = self.owned(state.positions.as_slice(), rule, true);
            let bytes = self.chain(owned.as_slice());
            let ghost previous = found;
            let ghost previous_count = count;
            if bytes.len() >= 2 {
                count = count + 1;
                found = Some((bytes, Some(rule)));
                proof {
                    assert(ropes(nfa, accepts, owners, positions, rules@[i as int]));
                    if previous_count == 1 {
                        let k = found_at;
                        assert(ropes(nfa, accepts, owners, positions, rules@[k]));
                        assert(0 <= k < i as int);
                    } else if previous_count >= 2 {
                        let (k, m) = choose|k: int, m: int|
                            0 <= k < m < i && ropes(nfa, accepts, owners, positions, #[trigger] rules@[k]) && ropes(nfa, accepts, owners, positions, #[trigger] rules@[m]);
                        assert(0 <= k < m < i + 1);
                    }
                    found_at = i as int;
                }
            } else {
                proof {
                    assert(!ropes(nfa, accepts, owners, positions, rules@[i as int]));
                }
            }
            i = i + 1;
        }
        proof {
            assert forall|rule: usize| #[trigger] ropes(nfa, accepts, owners, positions, rule) implies exists|k: int|
                0 <= k < rules@.len() && rules@[k] == rule by {
                assert(rules@.contains(rule));
            }
        }
        if count == 1 {
            proof {
                let (_, r) = found->Some_0;
                let rule = r->Some_0;
                assert forall|other: usize| #[trigger] ropes(nfa, accepts, owners, positions, other) implies other == rule by {
                    let k = choose|k: int| 0 <= k < rules@.len() && rules@[k] == other;
                    assert(ropes(nfa, accepts, owners, positions, rules@[k]));
                }
            }
            return found;
        }
        proof {
            assert(!exists|rule: usize| #[trigger] sole_rope(nfa, accepts, owners, positions, rule)) by {
                if exists|rule: usize| #[trigger] sole_rope(nfa, accepts, owners, positions, rule) {
                    let rule = choose|rule: usize| #[trigger] sole_rope(nfa, accepts, owners, positions, rule);
                    assert(ropes(nfa, accepts, owners, positions, rule));
                    let j = choose|j: int| 0 <= j < rules@.len() && rules@[j] == rule;
                    if count == 0 {
                        assert(ropes(nfa, accepts, owners, positions, rules@[j]));
                    } else {
                        let (k, m) = choose|k: int, m: int|
                            0 <= k < m < rules@.len() && ropes(nfa, accepts, owners, positions, #[trigger] rules@[k]) && ropes(nfa, accepts, owners, positions, #[trigger] rules@[m]);
                        assert(rules@[k] < rules@[m]);
                        assert(rules@[k] == rule);
                        assert(rules@[m] == rule);
                    }
                }
            }
        }
        if own.is_none() && classes.len() == 1 && classes[0].0.low == classes[0].0.high {
            let bytes = self.chain(state.positions.as_slice());
            if bytes.len() >= 2 {
                return Some((bytes, None));
            }
        }
        None
    }

    /// Returns the node of `state`.
    fn expand(&mut self, state: &State) -> (node: Result<Node, Overflow>)
        requires
            old(self).inv(),
            valid_positions(state.positions@, old(self).count()),
            known(old(self).accepts.spec_accepts(), state.pending),
        ensures
            final(self).inv(),
            final(self).grew_from(old(self)),
            node matches Ok(node) ==> (node matches Node::Leaf(leaf) ==> accepted(old(self).accepts.spec_accepts(), leaf.rule)),
            node matches Ok(node) ==> edges_below(node, final(self).nodes@.len()) && unflagged(node) && ordered_ranges(node),
            node matches Err(overflow) ==> overflow == (Overflow { part: Part::States, maximum: MAX_NODES })
                && final(self).nodes@.len() == MAX_NODES,
    {
        let own = self.own(state.positions.as_slice());
        let classes = self.classes(state.positions.as_slice());
        if classes.len() == 0 {
            return Ok(
                match own {
                    Some(rule) => Node::Leaf(Leaf { rule, here: true }),
                    None => match state.pending {
                        Some(rule) => Node::Leaf(Leaf { rule, here: false }),
                        None => Node::Fault,
                    },
                },
            );
        }
        if let Some((bytes, rule)) = self.rope_of(state, classes.as_slice(), own) {
            return self.rope(state, own, bytes.as_slice(), rule);
        }
        // The edge of each class, in the sequence of the classes.
        let mut edges: Vec<Edge> = Vec::new();
        let mut c: usize = 0;
        while c < classes.len()
            invariant
                self.inv(),
                self.grew_from(old(self)),
                valid_positions(state.positions@, self.count()),
                known(self.accepts.spec_accepts(), own),
                known(self.accepts.spec_accepts(), state.pending),
                c <= classes@.len(),
                edges@.len() == c,
                forall|k: int| 0 <= k < c ==> (#[trigger] edges@[k]).target@ < self.nodes@.len() && !edges@[k].back,
            decreases classes@.len() - c,
        {
            let symbol = classes[c].1;
            let step = self.advance(state, own, &[symbol]);
            let carry = step.carry;
            let target = self.node_of(step.state)?;
            edges.push(Edge { target, carry, back: false });
            c = c + 1;
        }
        // One arm for each target, with the ranges of each class that goes
        // there, in the sequence of the first class of each target.
        let mut arms: Vec<Arm> = Vec::new();
        let mut c: usize = 0;
        while c < classes.len()
            invariant
                self.inv(),
                c <= classes@.len(),
                edges@.len() == classes@.len(),
                forall|k: int| 0 <= k < edges@.len() ==> (#[trigger] edges@[k]).target@ < self.nodes@.len() && !edges@[k].back,
                forall|k: int| 0 <= k < arms@.len() ==> (#[trigger] arms@[k]).edge.target@ < self.nodes@.len() && !arms@[k].edge.back,
                forall|k: int| 0 <= k < classes@.len() ==> (#[trigger] classes@[k]).0.low <= classes@[k].0.high,
                forall|k: int, m: int|
                    0 <= k < arms@.len() && 0 <= m < arms@[k].ranges@.len() ==> (#[trigger] arms@[k].ranges@[m]).low
                        <= arms@[k].ranges@[m].high,
            decreases classes@.len() - c,
        {
            let target = edges[c].target;
            let mut earlier = false;
            let mut d: usize = 0;
            while d < c
                invariant
                    c < edges@.len(),
                    d <= c,
                decreases c - d,
            {
                if edges[d].target.0 == target.0 {
                    earlier = true;
                }
                d = d + 1;
            }
            if !earlier {
                let mut ranges: Vec<ByteRange> = Vec::new();
                let mut d: usize = c;
                while d < classes.len()
                    invariant
                        c <= d <= classes@.len(),
                        edges@.len() == classes@.len(),
                        forall|k: int| 0 <= k < classes@.len() ==> (#[trigger] classes@[k]).0.low <= classes@[k].0.high,
                        forall|m: int| 0 <= m < ranges@.len() ==> (#[trigger] ranges@[m]).low <= ranges@[m].high,
                    decreases classes@.len() - d,
                {
                    if edges[d].target.0 == target.0 {
                        ranges.push(classes[d].0);
                    }
                    d = d + 1;
                }
                arms.push(Arm { ranges, edge: edges[c] });
            }
            c = c + 1;
        }
        let miss = self.miss(own, state.pending)?;
        let fork = Fork { arms, miss };
        let node = Node::Fork(fork);
        proof {
            let arm_edges = fork.arms@.map_values(|arm: Arm| arm.edge);
            assert forall|k: int| 0 <= k < edges_of(node).len() implies (#[trigger] edges_of(node)[k]).target@
                < self.nodes@.len() && !edges_of(node)[k].back by {
                if k < arm_edges.len() {
                    assert(edges_of(node)[k] == fork.arms@[k].edge);
                } else {
                    assert(edges_of(node)[k] == miss);
                }
            }
        }
        Ok(node)
    }

    /// Builds one node for each state that a start condition reaches.
    fn explore(&mut self) -> (starts: Result<Vec<NodeId>, Overflow>)
        requires
            old(self).inv(),
        ensures
            final(self).inv(),
            final(self).nfa == old(self).nfa,
            final(self).accepts == old(self).accepts,
            starts matches Ok(starts) ==> {
                &&& starts@.len() == old(self).nfa.spec_starts().len()
                &&& forall|k: int| 0 <= k < starts@.len() ==> (#[trigger] starts@[k])@ < final(self).nodes@.len()
            },
            starts matches Err(overflow) ==> overflow == (Overflow { part: Part::States, maximum: MAX_NODES })
                && final(self).nodes@.len() == MAX_NODES,
    {
        let ghost start = *self;
        let nfa = self.nfa;
        let entries = nfa.start_states();
        let mut starts: Vec<NodeId> = Vec::new();
        let mut k: usize = 0;
        while k < entries.len()
            invariant
                self.inv(),
                self.nfa == nfa,
                nfa == old(self).nfa,
                self.accepts == old(self).accepts,
                entries@ == nfa.spec_starts(),
                k <= entries@.len(),
                starts@.len() == k,
                forall|j: int| 0 <= j < k ==> (#[trigger] starts@[j])@ < self.nodes@.len(),
            decreases entries@.len() - k,
        {
            let seed = [entries[k]];
            proof {
                assert(nfa.spec_starts()[k as int]@ < nfa.spec_state_count());
            }
            let positions = self.closure(&seed);
            let id = self.node_of(State { positions, pending: None })?;
            starts.push(id);
            k = k + 1;
        }
        while self.queue.len() > 0
            invariant
                self.inv(),
                self.nfa == nfa,
                nfa == old(self).nfa,
                self.accepts == old(self).accepts,
                starts@.len() == nfa.spec_starts().len(),
                forall|j: int| 0 <= j < starts@.len() ==> (#[trigger] starts@[j])@ < self.nodes@.len(),
            decreases 2 * (MAX_NODES - self.nodes@.len()) + self.queue@.len(),
        {
            let ghost before = *self;
            let (state, id) = self.queue.pop().unwrap();
            proof {
                assert(before.queue@[before.queue@.len() - 1] == (state, id));
            }
            let node = self.expand(&state)?;
            proof {
                lemma_edges_set(self.nodes@, id@ as int, node, self.accepts.spec_accepts());
            }
            self.nodes.set(id.index(), node);
        }
        Ok(starts)
    }
}

/// Setting a node whose edges lie inside keeps each edge inside.
proof fn lemma_edges_set(nodes: Seq<Node>, index: int, node: Node, accepts: Seq<Option<u16>>)
    requires
        edges_inside(nodes),
        none_flagged(nodes),
        leaves_accepted(nodes, accepts),
        all_ordered(nodes),
        0 <= index < nodes.len(),
        edges_below(node, nodes.len()),
        unflagged(node),
        ordered_ranges(node),
        node matches Node::Leaf(leaf) ==> accepted(accepts, leaf.rule),
    ensures
        edges_inside(nodes.update(index, node)),
        none_flagged(nodes.update(index, node)),
        leaves_accepted(nodes.update(index, node), accepts),
        all_ordered(nodes.update(index, node)),
{
    let updated = nodes.update(index, node);
    assert forall|i: int| 0 <= i < updated.len() implies edges_below(#[trigger] updated[i], updated.len()) && unflagged(updated[i]) && ordered_ranges(updated[i]) by {
        if i != index {
            assert(updated[i] == nodes[i]);
            assert(edges_below(nodes[i], nodes.len()));
        }
    }
}

/// Whether the nodes at `i` and `j` of `nodes` are alike and take the same
/// marker.
pub open spec fn same_kind(nodes: Seq<Node>, markers: Seq<bool>, i: int, j: int) -> bool {
    alike(nodes[i], nodes[j]) && markers[i] == markers[j]
}

/// Whether no node before the node at `t` of `nodes` is of its kind.
pub open spec fn first_of_kind(nodes: Seq<Node>, markers: Seq<bool>, t: int) -> bool {
    forall|j: int| 0 <= j < t ==> !#[trigger] same_kind(nodes, markers, j, t)
}

/// `edge` with its target changed by `map`.
pub open spec fn moved(edge: Edge, map: Seq<NodeId>) -> Edge {
    Edge { target: map[edge.target@ as int], ..edge }
}

/// Whether `new` is `old` with the target of each edge changed by `map`.
pub open spec fn renamed(old: Node, new: Node, map: Seq<NodeId>) -> bool {
    &&& same_shape(old, new)
    &&& edges_of(new).len() == edges_of(old).len()
    &&& forall|k: int|
        0 <= k < edges_of(old).len() ==> #[trigger] edges_of(new)[k] == moved(edges_of(old)[k], map)
}

/// Two nodes of one shape with a third are of one shape.
proof fn lemma_shape_chain(a: Node, b: Node, c: Node)
    requires
        same_shape(a, b),
        same_shape(b, c),
    ensures
        same_shape(a, c),
        same_shape(c, a),
{
    match (a, b, c) {
        (Node::Fork(x), Node::Fork(y), Node::Fork(z)) => {
            assert forall|k: int| 0 <= k < x.arms@.len() implies (#[trigger] x.arms@[k]).ranges@ == z.arms@[k].ranges@ by {
                assert(x.arms@[k].ranges@ == y.arms@[k].ranges@);
            }
            assert forall|k: int| 0 <= k < z.arms@.len() implies (#[trigger] z.arms@[k]).ranges@ == x.arms@[k].ranges@ by {
                assert(x.arms@[k].ranges@ == y.arms@[k].ranges@);
            }
        },
        _ => {},
    }
}

/// A node is of its own shape, and one shape is one shape both ways.
proof fn lemma_shape_same(a: Node, b: Node)
    ensures
        same_shape(a, a),
        same_shape(a, b) ==> same_shape(b, a),
{
    match (a, b) {
        (Node::Fork(x), Node::Fork(y)) => {
            if same_shape(a, b) {
                assert forall|k: int| 0 <= k < y.arms@.len() implies (#[trigger] y.arms@[k]).ranges@ == x.arms@[k].ranges@ by {
                    assert(x.arms@[k].ranges@ == y.arms@[k].ranges@);
                }
            }
        },
        _ => {},
    }
}

/// Renaming alike nodes by one map gives alike nodes.
proof fn lemma_renamed_alike(a: Node, b: Node, a2: Node, b2: Node, map: Seq<NodeId>)
    requires
        alike(a, b),
        renamed(a, a2, map),
        renamed(b, b2, map),
    ensures
        alike(a2, b2),
{
    lemma_shape_same(a, a2);
    lemma_shape_chain(a2, a, b);
    lemma_shape_chain(a2, b, b2);
    assert(edges_of(a2) =~= edges_of(b2)) by {
        assert forall|k: int| 0 <= k < edges_of(a2).len() implies edges_of(a2)[k] == edges_of(b2)[k] by {
            assert(edges_of(a2)[k] == moved(edges_of(a)[k], map));
            assert(edges_of(b2)[k] == moved(edges_of(b)[k], map));
        }
    }
}

/// Alike is an equivalence.
proof fn lemma_alike(a: Node, b: Node, c: Node)
    ensures
        alike(a, a),
        alike(a, b) ==> alike(b, a),
        alike(a, b) && alike(b, c) ==> alike(a, c),
{
    lemma_shape_same(a, b);
    if alike(a, b) && alike(b, c) {
        lemma_shape_chain(a, b, c);
    }
}

/// Returns whether `a` and `b` hold the same ranges.
fn same_ranges(a: &[ByteRange], b: &[ByteRange]) -> (same: bool)
    ensures
        same == (a@ == b@),
{
    if a.len() != b.len() {
        return false;
    }
    let mut k: usize = 0;
    while k < a.len()
        invariant
            a@.len() == b@.len(),
            k <= a@.len(),
            forall|m: int| 0 <= m < k ==> a@[m] == b@[m],
        decreases a@.len() - k,
    {
        if a[k] != b[k] {
            return false;
        }
        k = k + 1;
    }
    proof {
        assert(a@ =~= b@);
    }
    true
}

/// Returns whether `a` and `b` hold the same edges.
fn same_edges(a: &[Edge], b: &[Edge]) -> (same: bool)
    ensures
        same == (a@ == b@),
{
    if a.len() != b.len() {
        return false;
    }
    let mut k: usize = 0;
    while k < a.len()
        invariant
            a@.len() == b@.len(),
            k <= a@.len(),
            forall|m: int| 0 <= m < k ==> a@[m] == b@[m],
        decreases a@.len() - k,
    {
        if a[k] != b[k] {
            return false;
        }
        k = k + 1;
    }
    proof {
        assert(a@ =~= b@);
    }
    true
}

/// Returns whether `a` and `b` hold the same bytes.
fn same_bytes(a: &[u8], b: &[u8]) -> (same: bool)
    ensures
        same == (a@ == b@),
{
    if a.len() != b.len() {
        return false;
    }
    let mut k: usize = 0;
    while k < a.len()
        invariant
            a@.len() == b@.len(),
            k <= a@.len(),
            forall|m: int| 0 <= m < k ==> a@[m] == b@[m],
        decreases a@.len() - k,
    {
        if a[k] != b[k] {
            return false;
        }
        k = k + 1;
    }
    proof {
        assert(a@ =~= b@);
    }
    true
}

/// Returns whether `a` and `b` are the same node.
fn same_node(a: &Node, b: &Node) -> (same: bool)
    ensures
        same == alike(*a, *b),
{
    let shape = match (a, b) {
        (Node::Fork(x), Node::Fork(y)) => {
            if x.arms.len() != y.arms.len() {
                false
            } else {
                let mut k: usize = 0;
                let mut all = true;
                while k < x.arms.len()
                    invariant
                        x.arms@.len() == y.arms@.len(),
                        k <= x.arms@.len(),
                        all == forall|m: int| 0 <= m < k ==> (#[trigger] x.arms@[m]).ranges@ == y.arms@[m].ranges@,
                    decreases x.arms@.len() - k,
                {
                    let same = same_ranges(x.arms[k].ranges.as_slice(), y.arms[k].ranges.as_slice());
                    proof {
                        if !same {
                            assert(!(x.arms@[k as int].ranges@ == y.arms@[k as int].ranges@));
                        }
                    }
                    all = all && same;
                    k = k + 1;
                }
                all
            }
        },
        (Node::Rope(x), Node::Rope(y)) => same_bytes(x.bytes.as_slice(), y.bytes.as_slice()),
        (Node::Leaf(x), Node::Leaf(y)) => *x == *y,
        (Node::Fault, Node::Fault) => true,
        _ => false,
    };
    if !shape {
        return false;
    }
    let a_edges = a.edges();
    let b_edges = b.edges();
    same_edges(a_edges.as_slice(), b_edges.as_slice())
}

/// Whether `map` sends each node of `nodes` to the first node of its kind.
pub open spec fn canonical_map(nodes: Seq<Node>, markers: Seq<bool>, map: Seq<NodeId>) -> bool {
    &&& map.len() == nodes.len()
    &&& forall|i: int|
        0 <= i < nodes.len() ==> {
            &&& (#[trigger] map[i])@ <= i
            &&& same_kind(nodes, markers, map[i]@ as int, i)
            &&& forall|j: int| 0 <= j < map[i]@ ==> !same_kind(nodes, markers, j, i)
        }
}

/// Returns the first node of the kind of each node of `nodes`.
fn canonical(nodes: &Vec<Node>, markers: &[bool]) -> (map: Vec<NodeId>)
    requires
        markers@.len() == nodes@.len(),
        nodes@.len() <= MAX_NODES,
    ensures
        canonical_map(nodes@, markers@, map@),
{
    let mut map: Vec<NodeId> = Vec::new();
    let mut i: usize = 0;
    while i < nodes.len()
        invariant
            markers@.len() == nodes@.len(),
            nodes@.len() <= MAX_NODES,
            i <= nodes@.len(),
            map@.len() == i,
            forall|k: int|
                0 <= k < i ==> {
                    &&& (#[trigger] map@[k])@ <= k
                    &&& same_kind(nodes@, markers@, map@[k]@ as int, k)
                    &&& forall|j: int| 0 <= j < map@[k]@ ==> !same_kind(nodes@, markers@, j, k)
                },
        decreases nodes@.len() - i,
    {
        let mut j: usize = 0;
        while j < i
            invariant
                markers@.len() == nodes@.len(),
                i < nodes@.len(),
                j <= i,
                forall|m: int| 0 <= m < j ==> !same_kind(nodes@, markers@, m, i as int),
            ensures
                j <= i,
                forall|m: int| 0 <= m < j ==> !same_kind(nodes@, markers@, m, i as int),
                j < i ==> same_kind(nodes@, markers@, j as int, i as int),
            decreases i - j,
        {
            if markers[j] == markers[i] && same_node(&nodes[j], &nodes[i]) {
                break;
            }
            j = j + 1;
        }
        proof {
            lemma_alike(nodes@[i as int], nodes@[i as int], nodes@[i as int]);
        }
        map.push(NodeId::new(j));
        i = i + 1;
    }
    map
}

/// The sum of the identifiers of `ids`.
spec fn total(ids: Seq<NodeId>) -> nat
    decreases ids.len(),
{
    if ids.len() == 0 {
        0
    } else {
        total(ids.drop_last()) + ids.last()@
    }
}

/// Identifiers no larger at each index, and smaller at one, sum to less.
proof fn lemma_total(a: Seq<NodeId>, b: Seq<NodeId>)
    requires
        a.len() == b.len(),
        forall|i: int| 0 <= i < a.len() ==> (#[trigger] a[i])@ <= b[i]@,
    ensures
        total(a) <= total(b),
        a != b ==> total(a) < total(b),
    decreases a.len(),
{
    if a.len() > 0 {
        let n = a.len() - 1;
        assert forall|i: int| 0 <= i < n implies (#[trigger] a.drop_last()[i])@ <= b.drop_last()[i]@ by {
            assert(a[i]@ <= b[i]@);
        }
        lemma_total(a.drop_last(), b.drop_last());
        assert(a[n]@ <= b[n]@);
        if a != b && a.drop_last() == b.drop_last() {
            assert(a[n] != b[n]) by {
                if a[n] == b[n] {
                    assert(a =~= b) by {
                        assert forall|i: int| 0 <= i < a.len() implies a[i] == b[i] by {
                            if i < n {
                                assert(a[i] == a.drop_last()[i]);
                                assert(b[i] == b.drop_last()[i]);
                            }
                        }
                    }
                }
            }
        }
    } else {
        assert(a =~= b);
    }
}

/// Changes the target of each edge of `node` by `map`.
fn rename(node: &mut Node, map: &[NodeId])
    requires
        edges_below(*old(node), map@.len()),
    ensures
        renamed(*old(node), *final(node), map@),
{
    let count = node.edges().len();
    let mut k: usize = 0;
    proof {
        lemma_shape_same(*node, *node);
    }
    while k < count
        invariant
            edges_below(*old(node), map@.len()),
            count == edges_of(*old(node)).len(),
            k <= count,
            same_shape(*old(node), *node),
            edges_of(*node).len() == count,
            forall|j: int| 0 <= j < k ==> #[trigger] edges_of(*node)[j] == moved(edges_of(*old(node))[j], map@),
            forall|j: int| k <= j < count ==> #[trigger] edges_of(*node)[j] == edges_of(*old(node))[j],
        decreases count - k,
    {
        let ghost before = *node;
        let edge = node.edges_mut(k);
        assert(edge.target@ < map@.len()) by {
            assert(edges_of(*old(node))[k as int] == edges_of(before)[k as int]);
        }
        edge.target = map[edge.target.index()];
        proof {
            lemma_shape_chain(*old(node), before, *node);
        }
        k = k + 1;
    }
}

/// Whether `a` and `b` hold the same identifiers.
fn same_ids(a: &[NodeId], b: &[NodeId]) -> (same: bool)
    ensures
        same == (a@ == b@),
{
    if a.len() != b.len() {
        return false;
    }
    let mut k: usize = 0;
    while k < a.len()
        invariant
            a@.len() == b@.len(),
            k <= a@.len(),
            forall|m: int| 0 <= m < k ==> a@[m] == b@[m],
        decreases a@.len() - k,
    {
        if a[k].0 != b[k].0 {
            return false;
        }
        k = k + 1;
    }
    proof {
        assert(a@ =~= b@);
    }
    true
}

/// Nodes of one kind with a third are of one kind.
proof fn lemma_kind_chain(nodes: Seq<Node>, markers: Seq<bool>, a: int, b: int, c: int)
    requires
        same_kind(nodes, markers, a, b),
        same_kind(nodes, markers, b, c),
    ensures
        same_kind(nodes, markers, a, c),
        same_kind(nodes, markers, c, a),
{
    lemma_alike(nodes[a], nodes[b], nodes[c]);
    lemma_alike(nodes[c], nodes[b], nodes[a]);
    lemma_alike(nodes[b], nodes[c], nodes[a]);
    lemma_alike(nodes[b], nodes[a], nodes[c]);
}

/// The first node of the kind of the first node of a kind is that node.
proof fn lemma_canonical_fixed(nodes: Seq<Node>, markers: Seq<bool>, map: Seq<NodeId>, x: int)
    requires
        canonical_map(nodes, markers, map),
        0 <= x < nodes.len(),
    ensures
        map[map[x]@ as int] == map[x],
{
    let m = map[x]@ as int;
    let mm = map[m]@ as int;
    assert(same_kind(nodes, markers, m, x));
    assert(same_kind(nodes, markers, mm, m));
    lemma_kind_chain(nodes, markers, mm, m, x);
    if mm < m {
        assert(!same_kind(nodes, markers, mm, x));
    }
}

/// Joins each two nodes that read the same input into one node.
///
/// The construction makes one node for each state that it reaches, and two
/// states can give the same node. A join can make two more nodes equal, thus
/// the pass repeats until nothing changes.
#[verifier::rlimit(30)]
fn dedupe(nodes: &mut Vec<Node>, markers: &[bool], starts: &mut Vec<NodeId>)
    requires
        markers@.len() == old(nodes)@.len(),
        old(nodes)@.len() <= MAX_NODES,
        edges_inside(old(nodes)@),
        none_flagged(old(nodes)@),
        forall|k: int| 0 <= k < old(starts)@.len() ==> (#[trigger] old(starts)@[k])@ < old(nodes)@.len(),
    ensures
        final(nodes)@.len() == old(nodes)@.len(),
        edges_inside(final(nodes)@),
        none_flagged(final(nodes)@),
        forall|i: int| 0 <= i < old(nodes)@.len() ==> same_shape(old(nodes)@[i], #[trigger] final(nodes)@[i]),
        final(starts)@.len() == old(starts)@.len(),
        forall|k: int|
            0 <= k < final(starts)@.len() ==> (#[trigger] final(starts)@[k])@ < final(nodes)@.len()
                && first_of_kind(final(nodes)@, markers@, final(starts)@[k]@ as int),
        forall|i: int, k: int|
            0 <= i < final(nodes)@.len() && 0 <= k < edges_of(final(nodes)@[i]).len() ==> first_of_kind(
                final(nodes)@,
                markers@,
                (#[trigger] edges_of(#[trigger] final(nodes)@[i])[k]).target@ as int,
            ),
{
    let n = nodes.len();
    let ghost initial = nodes@;
    let mut previous: Vec<NodeId> = Vec::new();
    let mut i: usize = 0;
    while i < n
        invariant
            n == nodes@.len(),
            n <= MAX_NODES,
            i <= n,
            previous@.len() == i,
            forall|k: int| 0 <= k < i ==> (#[trigger] previous@[k])@ == k,
        decreases n - i,
    {
        previous.push(NodeId::new(i));
        i = i + 1;
    }
    proof {
        assert forall|k: int| 0 <= k < n implies same_kind(nodes@, markers@, (#[trigger] previous@[k])@ as int, k) by {
            lemma_alike(nodes@[k], nodes@[k], nodes@[k]);
        }
        assert forall|i: int| 0 <= i < n implies same_shape(initial[i], #[trigger] nodes@[i]) by {
            lemma_shape_same(initial[i], initial[i]);
        }
    }
    loop
        invariant
            n == nodes@.len(),
            markers@.len() == n,
            n <= MAX_NODES,
            edges_inside(nodes@),
            none_flagged(nodes@),
            initial.len() == n,
            forall|i: int| 0 <= i < n ==> same_shape(initial[i], #[trigger] nodes@[i]),
            starts@.len() == old(starts)@.len(),
            forall|k: int| 0 <= k < starts@.len() ==> (#[trigger] starts@[k])@ < n,
            previous@.len() == n,
            forall|k: int|
                0 <= k < n ==> (#[trigger] previous@[k])@ < n && same_kind(nodes@, markers@, previous@[k]@ as int, k),
            forall|k: int| 0 <= k < starts@.len() ==> previous@[(#[trigger] starts@[k])@ as int] == starts@[k],
            forall|x: int, k: int|
                0 <= x < n && 0 <= k < edges_of(nodes@[x]).len() ==> previous@[(#[trigger] edges_of(
                    #[trigger] nodes@[x],
                )[k]).target@ as int] == edges_of(nodes@[x])[k].target,
        ensures
            n == nodes@.len(),
            edges_inside(nodes@),
            none_flagged(nodes@),
            forall|i: int| 0 <= i < n ==> same_shape(initial[i], #[trigger] nodes@[i]),
            starts@.len() == old(starts)@.len(),
            forall|k: int|
                0 <= k < starts@.len() ==> (#[trigger] starts@[k])@ < n && first_of_kind(
                    nodes@,
                    markers@,
                    starts@[k]@ as int,
                ),
            forall|x: int, k: int|
                0 <= x < n && 0 <= k < edges_of(nodes@[x]).len() ==> first_of_kind(
                    nodes@,
                    markers@,
                    (#[trigger] edges_of(#[trigger] nodes@[x])[k]).target@ as int,
                ),
        decreases total(previous@),
    {
        let map = canonical(nodes, markers);
        proof {
            assert forall|k: int| 0 <= k < n implies (#[trigger] map@[k])@ <= previous@[k]@ by {
                if previous@[k]@ < map@[k]@ {
                    assert(same_kind(nodes@, markers@, previous@[k]@ as int, k));
                }
            }
            lemma_total(map@, previous@);
        }
        if same_ids(map.as_slice(), previous.as_slice()) {
            proof {
                assert forall|t: int| 0 <= t < n && previous@[t]@ == t implies first_of_kind(nodes@, markers@, t) by {
                    assert(map@[t]@ == t);
                }
                assert forall|x: int, k: int|
                    0 <= x < n && 0 <= k < edges_of(nodes@[x]).len() implies first_of_kind(
                        nodes@,
                        markers@,
                        (#[trigger] edges_of(#[trigger] nodes@[x])[k]).target@ as int,
                    ) by {
                    let t = edges_of(nodes@[x])[k].target@ as int;
                    assert(edges_below(nodes@[x], n as nat));
                    assert(previous@[t] == edges_of(nodes@[x])[k].target);
                }
                assert forall|k: int| 0 <= k < starts@.len() implies (#[trigger] starts@[k])@ < n && first_of_kind(
                    nodes@,
                    markers@,
                    starts@[k]@ as int,
                ) by {
                    assert(previous@[starts@[k]@ as int] == starts@[k]);
                }
            }
            break;
        }
        let ghost before = nodes@;
        let mut i: usize = 0;
        while i < n
            invariant
                n == nodes@.len(),
                before.len() == n,
                edges_inside(before),
                canonical_map(before, markers@, map@),
                i <= n,
                forall|j: int| 0 <= j < i ==> renamed(before[j], #[trigger] nodes@[j], map@),
                forall|j: int| i <= j < n ==> #[trigger] nodes@[j] == before[j],
            decreases n - i,
        {
            proof {
                assert(edges_below(before[i as int], n as nat));
            }
            rename(&mut nodes[i], map.as_slice());
            i = i + 1;
        }
        let mut k: usize = 0;
        while k < starts.len()
            invariant
                n == nodes@.len(),
                before.len() == n,
                canonical_map(before, markers@, map@),
                starts@.len() == old(starts)@.len(),
                k <= starts@.len(),
                forall|j: int| 0 <= j < starts@.len() ==> (#[trigger] starts@[j])@ < n,
                forall|j: int| 0 <= j < k ==> map@[(#[trigger] starts@[j])@ as int] == starts@[j],
            decreases starts@.len() - k,
        {
            let start = starts[k];
            let target = map[start.index()];
            proof {
                lemma_canonical_fixed(before, markers@, map@, start@ as int);
            }
            starts.set(k, target);
            k = k + 1;
        }
        proof {
            assert forall|x: int| 0 <= x < n implies same_shape(initial[x], #[trigger] nodes@[x]) by {
                assert(renamed(before[x], nodes@[x], map@));
                lemma_shape_chain(initial[x], before[x], nodes@[x]);
            }
            assert forall|x: int| 0 <= x < n implies edges_below(#[trigger] nodes@[x], n as nat) && unflagged(nodes@[x]) by {
                assert(renamed(before[x], nodes@[x], map@));
                assert(edges_below(before[x], n as nat));
                assert(unflagged(before[x]));
                assert forall|k: int| 0 <= k < edges_of(nodes@[x]).len() implies (#[trigger] edges_of(nodes@[x])[k]).target@ < n && !edges_of(nodes@[x])[k].back by {
                    assert(edges_of(nodes@[x])[k] == moved(edges_of(before[x])[k], map@));
                }
            }
            assert forall|k: int|
                0 <= k < n implies (#[trigger] map@[k])@ < n && same_kind(nodes@, markers@, map@[k]@ as int, k) by {
                let m = map@[k]@ as int;
                assert(same_kind(before, markers@, m, k));
                lemma_renamed_alike(before[m], before[k], nodes@[m], nodes@[k], map@);
            }
            assert forall|x: int, k: int|
                0 <= x < n && 0 <= k < edges_of(nodes@[x]).len() implies map@[(#[trigger] edges_of(
                    #[trigger] nodes@[x],
                )[k]).target@ as int] == edges_of(nodes@[x])[k].target by {
                assert(renamed(before[x], nodes@[x], map@));
                assert(edges_below(before[x], n as nat));
                let t = edges_of(before[x])[k].target@ as int;
                assert(edges_of(nodes@[x])[k] == moved(edges_of(before[x])[k], map@));
                lemma_canonical_fixed(before, markers@, map@, t);
            }
        }
        previous = map;
    }
}

/// Whether `node` has an edge to `target`.
pub open spec fn goes_to(node: Node, target: nat) -> bool {
    exists|e: int| 0 <= e < edges_of(node).len() && (#[trigger] edges_of(node)[e]).target@ == target
}

/// Whether `id` is one of `starts`.
pub open spec fn is_start(starts: Seq<NodeId>, id: nat) -> bool {
    exists|s: int| 0 <= s < starts.len() && (#[trigger] starts[s])@ == id
}

/// Whether each node of `nodes` is a start, or the target of an edge of a
/// node before it: thus a start reaches each node.
pub open spec fn reached(nodes: Seq<Node>, starts: Seq<NodeId>) -> bool {
    forall|k: nat| k < nodes.len() ==> #[trigger] entered(nodes, starts, k)
}

/// Whether the node at `k` of `nodes` is a start, or the target of an edge
/// of a node before it.
pub open spec fn entered(nodes: Seq<Node>, starts: Seq<NodeId>, k: nat) -> bool {
    is_start(starts, k) || exists|j: int| 0 <= j < k && #[trigger] goes_to(nodes[j], k)
}

/// Distinct identifiers below `n`, with one more below `n` that is none of
/// them, are fewer than `n`.
proof fn lemma_room(order: Seq<NodeId>, n: nat, id: nat)
    requires
        forall|k: int| 0 <= k < order.len() ==> (#[trigger] order[k])@ < n,
        forall|a: int, b: int| 0 <= a < b < order.len() ==> (#[trigger] order[a])@ != (#[trigger] order[b])@,
        forall|a: int| 0 <= a < order.len() ==> (#[trigger] order[a])@ != id,
        id < n,
    ensures
        order.len() < n,
{
    let ids = order.map_values(|x: NodeId| x@ as int).push(id as int);
    assert forall|i: int, j: int| 0 <= i < ids.len() && 0 <= j < ids.len() && i != j implies ids[i] != ids[j] by {
        if i < order.len() && j < order.len() {
            if i < j {
                assert(order[i]@ != order[j]@);
            } else {
                assert(order[j]@ != order[i]@);
            }
        } else if i < order.len() {
            assert(order[i]@ != id);
        } else if j < order.len() {
            assert(order[j]@ != id);
        }
    }
    ids.unique_seq_to_set();
    assert forall|v: int| #[trigger] ids.to_set().contains(v) implies set_int_range(0, n as int).contains(v) by {
        let k = choose|k: int| 0 <= k < ids.len() && ids[k] == v;
        if k < order.len() {
            assert(order[k]@ < n);
        }
    }
    lemma_int_range(0, n as int);
    lemma_len_subset(ids.to_set(), set_int_range(0, n as int));
}

/// Whether no two nodes of `nodes` are alike and take the same marker.
pub open spec fn distinct_nodes(nodes: Seq<Node>, markers: Seq<bool>) -> bool {
    forall|a: int, b: int| 0 <= a < b < nodes.len() ==> !#[trigger] same_kind(nodes, markers, a, b)
}

/// Nodes that renaming turns into alike nodes were alike, where the renaming
/// tells the targets of their edges apart.
proof fn lemma_unrenamed(x: Node, y: Node, x2: Node, y2: Node, map: Seq<NodeId>)
    requires
        renamed(x, x2, map),
        renamed(y, y2, map),
        alike(x2, y2),
        forall|e: int|
            0 <= e < edges_of(x).len() && e < edges_of(y).len() && map[edges_of(x)[e].target@ as int]
                == map[(#[trigger] edges_of(y)[e]).target@ as int] ==> edges_of(x)[e].target == edges_of(y)[e].target,
    ensures
        alike(x, y),
{
    lemma_shape_same(x, x2);
    lemma_shape_same(y, y2);
    lemma_shape_chain(x, x2, y2);
    lemma_shape_chain(x, y2, y);
    assert(edges_of(x) =~= edges_of(y)) by {
        assert forall|e: int| 0 <= e < edges_of(x).len() implies edges_of(x)[e] == edges_of(y)[e] by {
            assert(edges_of(x2)[e] == moved(edges_of(x)[e], map));
            assert(edges_of(y2)[e] == moved(edges_of(y)[e], map));
            assert(edges_of(x2)[e] == edges_of(y2)[e]);
        }
    }
}

/// Removes each node that no start reaches, then numbers the nodes that
/// remain from zero.
#[verifier::rlimit(30)]
fn compact(
    nodes: Vec<Node>,
    markers: Vec<bool>,
    starts: &[NodeId],
    Ghost(accepts): Ghost<Seq<Option<u16>>>,
) -> (kept: (
    Vec<Node>,
    Vec<bool>,
    Vec<NodeId>,
))
    requires
        markers@.len() == nodes@.len(),
        nodes@.len() <= MAX_NODES,
        edges_inside(nodes@),
        none_flagged(nodes@),
        leaves_accepted(nodes@, accepts),
        all_ordered(nodes@),
        forall|k: int|
            0 <= k < starts@.len() ==> (#[trigger] starts@[k])@ < nodes@.len() && first_of_kind(
                nodes@,
                markers@,
                starts@[k]@ as int,
            ),
        forall|i: int, k: int|
            0 <= i < nodes@.len() && 0 <= k < edges_of(nodes@[i]).len() ==> first_of_kind(
                nodes@,
                markers@,
                (#[trigger] edges_of(#[trigger] nodes@[i])[k]).target@ as int,
            ),
    ensures
        kept.0@.len() == kept.1@.len(),
        kept.0@.len() <= nodes@.len(),
        edges_inside(kept.0@),
        none_flagged(kept.0@),
        leaves_accepted(kept.0@, accepts),
        all_ordered(kept.0@),
        distinct_nodes(kept.0@, kept.1@),
        kept.2@.len() == starts@.len(),
        forall|k: int| 0 <= k < kept.2@.len() ==> (#[trigger] kept.2@[k])@ < kept.0@.len(),
        reached(kept.0@, kept.2@),
{
    let n = nodes.len();
    let ghost incoming = nodes@;
    let mut nodes = nodes;
    let mut map: Vec<Option<NodeId>> = Vec::new();
    let mut i: usize = 0;
    while i < n
        invariant
            i <= n,
            map@.len() == i,
            forall|x: int| 0 <= x < i ==> (#[trigger] map@[x]) is None,
        decreases n - i,
    {
        map.push(None);
        i = i + 1;
    }
    let mut stack: Vec<NodeId> = Vec::new();
    let mut s: usize = starts.len();
    while s > 0
        invariant
            s <= starts@.len(),
            forall|k: int| 0 <= k < starts@.len() ==> (#[trigger] starts@[k])@ < n,
            stack@.len() == starts@.len() - s,
            forall|p: int| 0 <= p < stack@.len() ==> (#[trigger] stack@[p]) == starts@[starts@.len() - 1 - p],
        decreases s,
    {
        s = s - 1;
        stack.push(starts[s]);
    }
    let mut order: Vec<NodeId> = Vec::new();
    proof {
        assert forall|k: int| 0 <= k < starts@.len() implies (#[trigger] map@[starts@[k]@ as int]) is Some
            || stack@.contains(starts@[k]) by {
            assert(stack@[starts@.len() - 1 - k] == starts@[k]);
        }
        assert forall|p: int| 0 <= p < stack@.len() implies is_start(starts@, (#[trigger] stack@[p])@) by {
            assert(starts@[starts@.len() - 1 - p] == stack@[p]);
        }
    }
    while stack.len() > 0
        invariant
            n == nodes@.len(),
            nodes@ == incoming,
            n <= MAX_NODES,
            edges_inside(incoming),
            map@.len() == n,
            order@.len() <= n,
            forall|k: int| 0 <= k < starts@.len() ==> (#[trigger] starts@[k])@ < n,
            forall|p: int| 0 <= p < stack@.len() ==> (#[trigger] stack@[p])@ < n,
            forall|x: int| 0 <= x < n ==> ((#[trigger] map@[x]) matches Some(k) ==> k@ < order@.len() && order@[k@ as int]@ == x),
            forall|k: int| 0 <= k < order@.len() ==> (#[trigger] order@[k])@ < n && map@[order@[k]@ as int] == Some(NodeId(k as u32)),
            forall|k: int, e: int|
                0 <= k < order@.len() && 0 <= e < edges_of(incoming[order@[k]@ as int]).len() ==> (#[trigger] map@[(#[trigger] edges_of(incoming[order@[k]@ as int])[e]).target@ as int]) is Some
                    || stack@.contains(edges_of(incoming[order@[k]@ as int])[e].target),
            forall|k: int| 0 <= k < starts@.len() ==> (#[trigger] map@[starts@[k]@ as int]) is Some
                || stack@.contains(starts@[k]),
            forall|p: int|
                0 <= p < stack@.len() ==> is_start(starts@, (#[trigger] stack@[p])@) || exists|j: int|
                    0 <= j < order@.len() && #[trigger] goes_to(incoming[order@[j]@ as int], stack@[p]@),
            forall|k: int|
                0 <= k < order@.len() ==> is_start(starts@, (#[trigger] order@[k])@) || exists|j: int|
                    0 <= j < k && #[trigger] goes_to(incoming[order@[j]@ as int], order@[k]@),
        decreases n - order@.len(), stack@.len(),
    {
        let ghost before_stack = stack@;
        let ghost head_map = map@;
        let ghost head_order = order@;
        let id = stack.pop().unwrap();
        proof {
            assert(before_stack == stack@.push(id));
            assert forall|t: NodeId| #[trigger] before_stack.contains(t) && t != id implies stack@.contains(t) by {
                let p = choose|p: int| 0 <= p < before_stack.len() && before_stack[p] == t;
                assert(stack@[p] == t);
            }
        }
        if map[id.index()].is_some() {
            proof {
                assert forall|p: int| 0 <= p < stack@.len() implies is_start(starts@, (#[trigger] stack@[p])@) || exists|j: int|
                    0 <= j < order@.len() && #[trigger] goes_to(incoming[order@[j]@ as int], stack@[p]@) by {
                    assert(before_stack[p] == stack@[p]);
                }
            }
            continue;
        }
        let number = order.len();
        proof {
            assert(number < n) by {
                assert forall|a: int, b: int| 0 <= a < b < order@.len() implies order@[a]@ != order@[b]@ by {
                    assert(map@[order@[a]@ as int] == Some(NodeId(a as u32)));
                    assert(map@[order@[b]@ as int] == Some(NodeId(b as u32)));
                }
                assert forall|a: int| 0 <= a < order@.len() implies (#[trigger] order@[a])@ != id@ by {
                    assert(map@[order@[a]@ as int] == Some(NodeId(a as u32)));
                }
                assert(before_stack[before_stack.len() - 1] == id);
                lemma_room(order@, n as nat, id@);
            }
        }
        map.set(id.index(), Some(NodeId::new(number)));
        order.push(id);
        let edges = nodes[id.index()].edges();
        let ghost pushed_from = stack@;
        let mut e: usize = 0;
        while e < edges.len()
            invariant
                edges@ == edges_of(incoming[id@ as int]),
                edges_below(incoming[id@ as int], n as nat),
                e <= edges@.len(),
                stack@.len() == pushed_from.len() + e,
                forall|p: int| 0 <= p < pushed_from.len() ==> #[trigger] stack@[p] == pushed_from[p],
                forall|q: int| 0 <= q < e ==> stack@[pushed_from.len() + q] == #[trigger] edges@[q].target,
            decreases edges@.len() - e,
        {
            stack.push(edges[e].target);
            e = e + 1;
        }
        proof {
            let k = number as int;
            assert(order@[k] == id);
            assert forall|p: int| 0 <= p < stack@.len() implies (#[trigger] stack@[p])@ < n by {
                if p >= pushed_from.len() {
                    let q = p - pushed_from.len();
                    assert(stack@[p] == edges@[q].target);
                }
            }
            assert forall|x: int| 0 <= x < n implies ((#[trigger] map@[x]) matches Some(j) ==> j@ < order@.len()
                && order@[j@ as int]@ == x) by {}
            assert forall|j: int| 0 <= j < order@.len() implies (#[trigger] order@[j])@ < n && map@[order@[j]@ as int]
                == Some(NodeId(j as u32)) by {
                if j < k {
                    assert(order@[j]@ != id@);
                }
            }
            assert forall|j: int, f: int|
                0 <= j < order@.len() && 0 <= f < edges_of(incoming[order@[j]@ as int]).len() implies (#[trigger] map@[(#[trigger] edges_of(incoming[order@[j]@ as int])[f]).target@ as int]) is Some
                    || stack@.contains(edges_of(incoming[order@[j]@ as int])[f].target) by {
                let t = edges_of(incoming[order@[j]@ as int])[f].target;
                if j == k {
                    assert(stack@[pushed_from.len() + f] == edges@[f].target);
                } else if map@[t@ as int] is None {
                    assert(order@[j] == head_order[j]);
                    assert(head_map[t@ as int] is Some || before_stack.contains(t));
                    assert(before_stack.contains(t));
                    if t != id {
                        let p = choose|p: int| 0 <= p < pushed_from.len() && pushed_from[p] == t;
                        assert(stack@[p] == t);
                    }
                }
            }
            assert forall|j: int| 0 <= j < starts@.len() implies (#[trigger] map@[starts@[j]@ as int]) is Some
                || stack@.contains(starts@[j]) by {
                let t = starts@[j];
                if map@[t@ as int] is None {
                    assert(head_map[starts@[j]@ as int] is Some || before_stack.contains(starts@[j]));
                    assert(t@ != id@);
                    assert(map@[t@ as int] == head_map[t@ as int]);
                    assert(before_stack.contains(t));
                    if t != id {
                        let p = choose|p: int| 0 <= p < pushed_from.len() && pushed_from[p] == t;
                        assert(stack@[p] == t);
                    }
                }
            }
            assert forall|p: int| 0 <= p < stack@.len() implies is_start(starts@, (#[trigger] stack@[p])@) || exists|j: int|
                0 <= j < order@.len() && #[trigger] goes_to(incoming[order@[j]@ as int], stack@[p]@) by {
                if p < pushed_from.len() {
                    assert(stack@[p] == before_stack[p]);
                    if !is_start(starts@, stack@[p]@) {
                        let j = choose|j: int| 0 <= j < k && #[trigger] goes_to(incoming[head_order[j]@ as int], before_stack[p]@);
                        assert(head_order[j] == order@[j]);
                        assert(goes_to(incoming[order@[j]@ as int], stack@[p]@));
                    }
                } else {
                    let q = p - pushed_from.len();
                    assert(edges_of(incoming[order@[k]@ as int])[q].target@ == stack@[p]@);
                    assert(goes_to(incoming[order@[k]@ as int], stack@[p]@));
                }
            }
            assert forall|j: int| 0 <= j < order@.len() implies is_start(starts@, (#[trigger] order@[j])@) || exists|m: int|
                0 <= m < j && #[trigger] goes_to(incoming[order@[m]@ as int], order@[j]@) by {
                if j == k {
                    let last = before_stack.len() - 1;
                    assert(before_stack[last] == id);
                    if !is_start(starts@, id@) {
                        let m = choose|m: int| 0 <= m < head_order.len() && #[trigger] goes_to(incoming[head_order[m]@ as int], before_stack[last]@);
                        assert(head_order[m] == order@[m]);
                        assert(goes_to(incoming[order@[m]@ as int], order@[j]@));
                    }
                } else {
                    assert(order@[j] == head_order[j]);
                    if !is_start(starts@, order@[j]@) {
                        let m = choose|m: int| 0 <= m < j && #[trigger] goes_to(incoming[head_order[m]@ as int], head_order[j]@);
                        assert(head_order[m] == order@[m]);
                        assert(goes_to(incoming[order@[m]@ as int], order@[j]@));
                    }
                }
            }
        }
    }
    proof {
        assert forall|k: int, e: int|
            0 <= k < order@.len() && 0 <= e < edges_of(incoming[order@[k]@ as int]).len() implies (#[trigger] map@[(#[trigger] edges_of(incoming[order@[k]@ as int])[e]).target@ as int]) is Some by {
            if !(map@[edges_of(incoming[order@[k]@ as int])[e].target@ as int] is Some) {
                let t = edges_of(incoming[order@[k]@ as int])[e].target;
                assert(stack@.contains(t));
            }
        }
        assert forall|k: int| 0 <= k < starts@.len() implies (#[trigger] map@[starts@[k]@ as int]) is Some by {
            if !(map@[starts@[k]@ as int] is Some) {
                assert(stack@.contains(starts@[k]));
            }
        }
    }
    // The new number of each node, for the nodes that remain.
    let mut numbers: Vec<NodeId> = Vec::new();
    let mut x: usize = 0;
    while x < n
        invariant
            map@.len() == n,
            x <= n,
            numbers@.len() == x,
            forall|y: int| 0 <= y < x ==> ((#[trigger] map@[y]) matches Some(k) ==> numbers@[y] == k),
        decreases n - x,
    {
        let number = match map[x] {
            Some(k) => k,
            None => NodeId(0),
        };
        numbers.push(number);
        x = x + 1;
    }
    let mut kept: Vec<Node> = Vec::new();
    let mut flags: Vec<bool> = Vec::new();
    let mut k: usize = 0;
    while k < order.len()
        invariant
            n == nodes@.len(),
            incoming.len() == n,
            markers@.len() == n,
            edges_inside(incoming),
            map@.len() == n,
            numbers@.len() == n,
            forall|y: int| 0 <= y < n ==> ((#[trigger] map@[y]) matches Some(j) ==> numbers@[y] == j),
            forall|y: int| 0 <= y < n ==> ((#[trigger] map@[y]) matches Some(j) ==> j@ < order@.len() && order@[j@ as int]@ == y),
            forall|j: int| 0 <= j < order@.len() ==> (#[trigger] order@[j])@ < n && map@[order@[j]@ as int] == Some(NodeId(j as u32)),
            forall|j: int, e: int|
                0 <= j < order@.len() && 0 <= e < edges_of(incoming[order@[j]@ as int]).len() ==> (#[trigger] map@[(#[trigger] edges_of(incoming[order@[j]@ as int])[e]).target@ as int]) is Some,
            k <= order@.len(),
            order@.len() <= n,
            n <= MAX_NODES,
            kept@.len() == k,
            flags@.len() == k,
            forall|j: int| k <= j < order@.len() ==> #[trigger] nodes@[order@[j]@ as int] == incoming[order@[j]@ as int],
            forall|j: int| 0 <= j < k ==> renamed(incoming[order@[j]@ as int], #[trigger] kept@[j], numbers@),
            forall|j: int| 0 <= j < k ==> #[trigger] flags@[j] == markers@[order@[j]@ as int],
        decreases order@.len() - k,
    {
        let id = order[k];
        let mut node = Node::Fault;
        std::mem::swap(&mut node, &mut nodes[id.index()]);
        proof {
            assert(node == incoming[id@ as int]);
            assert(edges_below(incoming[id@ as int], n as nat));
        }
        rename(&mut node, numbers.as_slice());
        kept.push(node);
        flags.push(markers[id.index()]);
        let ghost taken = k;
        k = k + 1;
        proof {
            assert(map@[order@[taken as int]@ as int] == Some(NodeId(taken as u32)));
            assert forall|j: int| k <= j < order@.len() implies #[trigger] nodes@[order@[j]@ as int] == incoming[order@[j]@ as int] by {
                assert(order@[j]@ != id@) by {
                    assert(map@[order@[j]@ as int] == Some(NodeId(j as u32)));
                }
            }
        }
    }
    let mut new_starts: Vec<NodeId> = Vec::new();
    let mut s: usize = 0;
    while s < starts.len()
        invariant
            numbers@.len() == n,
            forall|k: int| 0 <= k < starts@.len() ==> (#[trigger] starts@[k])@ < n,
            s <= starts@.len(),
            new_starts@.len() == s,
            forall|j: int| 0 <= j < s ==> #[trigger] new_starts@[j] == numbers@[starts@[j]@ as int],
        decreases starts@.len() - s,
    {
        new_starts.push(numbers[starts[s].index()]);
        s = s + 1;
    }
    proof {
        let count = kept@.len();
        assert forall|j: int| 0 <= j < count implies edges_below(#[trigger] kept@[j], count) by {
            assert(renamed(incoming[order@[j]@ as int], kept@[j], numbers@));
            assert forall|e: int| 0 <= e < edges_of(kept@[j]).len() implies (#[trigger] edges_of(kept@[j])[e]).target@ < count by {
                let t = edges_of(incoming[order@[j]@ as int])[e].target;
                assert(edges_of(kept@[j])[e] == moved(edges_of(incoming[order@[j]@ as int])[e], numbers@));
                assert(map@[t@ as int] is Some);
            }
        }
        assert forall|j: int| 0 <= j < count implies ((#[trigger] kept@[j]) matches Node::Leaf(leaf) ==> accepted(accepts, leaf.rule)) by {
            assert(renamed(incoming[order@[j]@ as int], kept@[j], numbers@));
            assert(incoming[order@[j]@ as int] matches Node::Leaf(_) ==> true);
        }
        assert forall|j: int| 0 <= j < count implies ordered_ranges(#[trigger] kept@[j]) by {
            assert(renamed(incoming[order@[j]@ as int], kept@[j], numbers@));
            assert(ordered_ranges(incoming[order@[j]@ as int]));
            lemma_shape_ordered(incoming[order@[j]@ as int], kept@[j]);
        }
        assert forall|j: int| 0 <= j < count implies unflagged(#[trigger] kept@[j]) by {
            assert(renamed(incoming[order@[j]@ as int], kept@[j], numbers@));
            assert(unflagged(incoming[order@[j]@ as int]));
            assert forall|e: int| 0 <= e < edges_of(kept@[j]).len() implies !(#[trigger] edges_of(kept@[j])[e]).back by {
                assert(edges_of(kept@[j])[e] == moved(edges_of(incoming[order@[j]@ as int])[e], numbers@));
            }
        }
        assert forall|a: int, b: int| 0 <= a < b < count implies !#[trigger] same_kind(kept@, flags@, a, b) by {
            if same_kind(kept@, flags@, a, b) {
                let oa = order@[a]@ as int;
                let ob = order@[b]@ as int;
                assert forall|e: int|
                    0 <= e < edges_of(incoming[oa]).len() && e < edges_of(incoming[ob]).len() && numbers@[edges_of(incoming[oa])[e].target@ as int]
                        == numbers@[(#[trigger] edges_of(incoming[ob])[e]).target@ as int] implies edges_of(incoming[oa])[e].target
                        == edges_of(incoming[ob])[e].target by {
                    let ta = edges_of(incoming[oa])[e].target@ as int;
                    let tb = edges_of(incoming[ob])[e].target@ as int;
                    assert(map@[ta] is Some);
                    assert(map@[tb] is Some);
                }
                lemma_unrenamed(incoming[oa], incoming[ob], kept@[a], kept@[b], numbers@);
                assert(map@[oa] == Some(NodeId(a as u32)));
                assert(map@[ob] == Some(NodeId(b as u32)));
                assert(oa != ob);
                lemma_alike(incoming[ob], incoming[ob], incoming[ob]);
                lemma_kind_chain(incoming, markers@, oa, ob, ob);
                let (lo, hi, k) = if oa < ob { (oa, ob, b) } else { (ob, oa, a) };
                assert(same_kind(incoming, markers@, lo, hi));
                assert(order@[k]@ == hi);
                if is_start(starts@, hi as nat) {
                    let s = choose|s: int| 0 <= s < starts@.len() && (#[trigger] starts@[s])@ == hi;
                    assert(first_of_kind(incoming, markers@, starts@[s]@ as int));
                } else {
                    let j = choose|j: int| 0 <= j < k && #[trigger] goes_to(incoming[order@[j]@ as int], order@[k]@);
                    let x = order@[j]@ as int;
                    let e = choose|e: int| 0 <= e < edges_of(incoming[x]).len() && (#[trigger] edges_of(incoming[x])[e]).target@ == hi;
                    assert(first_of_kind(incoming, markers@, edges_of(incoming[x])[e].target@ as int));
                }
            }
        }
        assert forall|j: int| 0 <= j < new_starts@.len() implies (#[trigger] new_starts@[j])@ < count by {
            assert(map@[starts@[j]@ as int] is Some);
        }
        assert forall|jj: nat| jj < count implies #[trigger] entered(kept@, new_starts@, jj) by {
            let j = jj as int;
            let y = order@[j]@;
            assert(numbers@[y as int] == NodeId(j as u32));
            if is_start(starts@, y) {
                let s = choose|s: int| 0 <= s < starts@.len() && (#[trigger] starts@[s])@ == y;
                assert(new_starts@[s]@ == j);
            } else {
                let m = choose|m: int| 0 <= m < j && #[trigger] goes_to(incoming[order@[m]@ as int], y);
                let e = choose|e: int| 0 <= e < edges_of(incoming[order@[m]@ as int]).len() && (#[trigger] edges_of(incoming[order@[m]@ as int])[e]).target@ == y;
                assert(edges_of(kept@[m])[e] == moved(edges_of(incoming[order@[m]@ as int])[e], numbers@));
                assert(goes_to(kept@[m], j as nat));
            }
        }
    }
    (kept, flags, new_starts)
}

/// The colour of a node while the pass looks for the cycles of the graph.
#[derive(Clone, Copy, PartialEq, Eq, Structural)]
enum Colour {
    /// The pass has not reached the node.
    White,
    /// The pass is inside the node.
    Grey,
    /// The pass has left the node.
    Black,
}

/// The number of the white nodes of `colours`.
spec fn whites(colours: Seq<Colour>) -> nat
    decreases colours.len(),
{
    if colours.len() == 0 {
        0
    } else {
        whites(colours.drop_last()) + if colours.last() == Colour::White {
            1nat
        } else {
            0nat
        }
    }
}

/// Colouring a node other than white keeps the white nodes, but for that
/// node where it was white.
proof fn lemma_whites(colours: Seq<Colour>, index: int, colour: Colour)
    requires
        0 <= index < colours.len(),
        colour != Colour::White,
    ensures
        whites(colours.update(index, colour)) == whites(colours) - if colours[index] == Colour::White {
            1int
        } else {
            0int
        },
    decreases colours.len(),
{
    let updated = colours.update(index, colour);
    if index < colours.len() - 1 {
        assert(updated.drop_last() =~= colours.drop_last().update(index, colour));
        lemma_whites(colours.drop_last(), index, colour);
        assert(updated.last() == colours.last());
    } else {
        assert(updated.drop_last() =~= colours.drop_last());
        if colours.len() > 1 {
            lemma_whites(colours.drop_last(), 0, colour);
        }
    }
}

/// The edges of each frame of `stack` that the pass has not read yet, and
/// one more for the end of each frame.
spec fn work(nodes: Seq<Node>, stack: Seq<(NodeId, usize)>) -> nat
    decreases stack.len(),
{
    if stack.len() == 0 {
        0
    } else {
        let (id, cursor) = stack.last();
        work(nodes, stack.drop_last()) + (edges_of(nodes[id@ as int]).len() + 1 - cursor) as nat
    }
}

/// Whether `new` is `old` with the flags of some edges changed.
pub open spec fn flagged(old: Node, new: Node) -> bool {
    &&& same_shape(old, new)
    &&& edges_of(new).len() == edges_of(old).len()
    &&& forall|k: int|
        0 <= k < edges_of(old).len() ==> (#[trigger] edges_of(new)[k]).target == edges_of(old)[k].target
            && edges_of(new)[k].carry == edges_of(old)[k].carry
}

/// Returns `true` if the edge at `cursor` of `node` is an arm of a fork that
/// gives that same fork.
fn runs(node: &Node, cursor: usize, id: NodeId) -> (run: bool)
    ensures
        run == is_run(*node, cursor as int, id@),
{
    match node {
        Node::Fork(fork) => cursor < fork.arms.len() && fork.arms[cursor].edge.target.0 == id.0,
        _ => false,
    }
}

/// Whether the edge at `cursor` of `node`, the node at `id`, is an arm of a
/// fork that goes back to that fork.
pub open spec fn is_run(node: Node, cursor: int, id: nat) -> bool {
    node matches Node::Fork(fork) && 0 <= cursor < fork.arms@.len() && fork.arms@[cursor].edge.target@ == id
}

/// A frame pushed onto a stack adds its work.
proof fn lemma_work_push(nodes: Seq<Node>, stack: Seq<(NodeId, usize)>, frame: (NodeId, usize))
    ensures
        work(nodes, stack.push(frame)) == work(nodes, stack) + (edges_of(nodes[frame.0@ as int]).len() + 1
            - frame.1) as nat,
{
    assert(stack.push(frame).drop_last() =~= stack);
}

/// Whether the edge at `e` of the node at `i` of `nodes` is a call of the
/// emitted source: it closes no cycle, and it is no run of a fork.
pub open spec fn calls(nodes: Seq<Node>, i: int, e: int) -> bool {
    !edges_of(nodes[i])[e].back && !is_run(nodes[i], e, i as nat)
}

/// Whether `rank` falls along each call of `nodes`: the target of each call
/// ranks below its source.
pub open spec fn ranked(nodes: Seq<Node>, rank: Seq<nat>) -> bool {
    &&& rank.len() == nodes.len()
    &&& forall|i: int, e: int|
        0 <= i < nodes.len() && 0 <= e < edges_of(nodes[i]).len() && #[trigger] calls(nodes, i, e)
            ==> rank[edges_of(nodes[i])[e].target@ as int] < rank[i]
}

/// Whether the calls of `nodes` hold no cycle: some rank falls along each
/// call, thus a chain of calls is no longer than the number of the nodes.
pub open spec fn acyclic_calls(nodes: Seq<Node>) -> bool {
    exists|rank: Seq<nat>| ranked(nodes, rank)
}

/// Whether the frame at `p` of `stack` is consistent: each edge that it read
/// goes to a node that the pass reached, and each call that it read goes to
/// a node that the pass left, or to the node of the frame above it, which it
/// just entered.
spec fn frame_ok(nodes: Seq<Node>, colour: Seq<Colour>, stack: Seq<(NodeId, usize)>, p: int) -> bool {
    let (u, c) = stack[p];
    forall|e: int|
        0 <= e < c ==> {
            let t = (#[trigger] edges_of(nodes[u@ as int])[e]).target@ as int;
            &&& colour[t] != Colour::White
            &&& calls(nodes, u@ as int, e) ==> colour[t] == Colour::Black || (e == c - 1 && p + 1
                < stack.len() && stack[p + 1].0@ == t)
        }
}

/// Whether the node at `x` is consistent where the pass left it: it left it
/// before `clock`, each of its edges goes to a node that the pass reached,
/// and each of its calls to a node that the pass left before it.
spec fn black_ok(nodes: Seq<Node>, colour: Seq<Colour>, finish: Seq<nat>, clock: nat, x: int) -> bool {
    colour[x] == Colour::Black ==> {
        &&& finish[x] < clock
        &&& forall|e: int|
            0 <= e < edges_of(nodes[x]).len() ==> {
                let t = (#[trigger] edges_of(nodes[x])[e]).target@ as int;
                &&& colour[t] != Colour::White
                &&& calls(nodes, x, e) ==> colour[t] == Colour::Black && finish[t] < finish[x]
            }
    }
}

/// Whether `stack` holds the node `x` in one of its frames.
spec fn in_stack(stack: Seq<(NodeId, usize)>, x: int) -> bool {
    exists|p: int| 0 <= p < stack.len() && (#[trigger] stack[p]).0@ == x
}

/// Marks each edge that closes a cycle of the graph.
///
/// The emitted source calls the node of an edge that closes no cycle. Thus
/// the depth of the stack is the length of the longest path that holds no
/// cycle, and not the length of the input.
///
/// An arm of a fork that gives that same fork closes no cycle here. The
/// emitted source reads that arm as a run of bytes in one loop, thus it makes
/// no call.
#[verifier::rlimit(60)]
#[verifier::spinoff_prover]
fn cycles(nodes: &mut Vec<Node>, starts: &[NodeId])
    requires
        edges_inside(old(nodes)@),
        old(nodes)@.len() <= MAX_NODES,
        forall|k: int| 0 <= k < starts@.len() ==> (#[trigger] starts@[k])@ < old(nodes)@.len(),
        reached(old(nodes)@, starts@),
    ensures
        final(nodes)@.len() == old(nodes)@.len(),
        forall|i: int| 0 <= i < old(nodes)@.len() ==> flagged(old(nodes)@[i], #[trigger] final(nodes)@[i]),
        acyclic_calls(final(nodes)@),
{
    let n = nodes.len();
    let ghost incoming = nodes@;
    let mut colour: Vec<Colour> = Vec::new();
    let mut i: usize = 0;
    while i < n
        invariant
            i <= n,
            colour@.len() == i,
            forall|x: int| 0 <= x < i ==> colour@[x] == Colour::White,
        decreases n - i,
    {
        colour.push(Colour::White);
        i = i + 1;
    }
    let ghost mut finish: Seq<nat> = Seq::new(n as nat, |x: int| 0nat);
    let ghost mut clock: nat = 0;
    proof {
        assert forall|i: int| 0 <= i < n implies flagged(incoming[i], #[trigger] nodes@[i]) by {
            lemma_shape_same(incoming[i], incoming[i]);
        }
    }
    let mut s: usize = 0;
    while s < starts.len()
        invariant
            n == nodes@.len(),
            incoming.len() == n,
            n <= MAX_NODES,
            edges_inside(incoming),
            colour@.len() == n,
            finish.len() == n,
            s <= starts@.len(),
            forall|k: int| 0 <= k < starts@.len() ==> (#[trigger] starts@[k])@ < n,
            forall|i: int| 0 <= i < n ==> flagged(incoming[i], #[trigger] nodes@[i]),
            forall|x: int| 0 <= x < n ==> colour@[x] != Colour::Grey,
            forall|x: int| 0 <= x < n ==> #[trigger] black_ok(nodes@, colour@, finish, clock, x),
            forall|k: int| 0 <= k < s ==> colour@[(#[trigger] starts@[k])@ as int] == Colour::Black,
        decreases starts@.len() - s,
    {
        let start = starts[s];
        s = s + 1;
        if colour[start.index()] != Colour::White {
            continue;
        }
        let ghost colour_start = colour@;
        colour.set(start.index(), Colour::Grey);
        let mut stack: Vec<(NodeId, usize)> = Vec::new();
        stack.push((start, 0));
        proof {
            assert forall|x: int| 0 <= x < n implies #[trigger] black_ok(nodes@, colour@, finish, clock, x) by {
                assert(black_ok(nodes@, colour_start, finish, clock, x));
            }
            assert(in_stack(stack@, start@ as int)) by {
                assert(stack@[0].0 == start);
            }
        }
        while stack.len() > 0
            invariant
                n == nodes@.len(),
                incoming.len() == n,
                edges_inside(incoming),
                colour@.len() == n,
                finish.len() == n,
                1 <= s <= starts@.len(),
                forall|k: int| 0 <= k < starts@.len() ==> (#[trigger] starts@[k])@ < n,
                forall|k: int| 0 <= k < s - 1 ==> colour@[(#[trigger] starts@[k])@ as int] == Colour::Black,
                colour@[start@ as int] != Colour::White,
                start == starts@[s - 1],
                forall|i: int| 0 <= i < n ==> flagged(incoming[i], #[trigger] nodes@[i]),
                forall|p: int|
                    0 <= p < stack@.len() ==> (#[trigger] stack@[p]).0@ < n && stack@[p].1 <= edges_of(
                        incoming[stack@[p].0@ as int],
                    ).len(),
                forall|p: int| 0 <= p < stack@.len() ==> colour@[(#[trigger] stack@[p]).0@ as int] == Colour::Grey,
                forall|p: int, q: int| 0 <= p < q < stack@.len() ==> (#[trigger] stack@[p]).0 != (#[trigger] stack@[q]).0,
                forall|x: int| 0 <= x < n && colour@[x] == Colour::Grey ==> #[trigger] in_stack(stack@, x),
                forall|p: int| 0 <= p < stack@.len() ==> #[trigger] frame_ok(nodes@, colour@, stack@, p),
                forall|x: int| 0 <= x < n ==> #[trigger] black_ok(nodes@, colour@, finish, clock, x),
            decreases whites(colour@), work(incoming, stack@),
        {
            let ghost before = stack@;
            let ghost colour_before = colour@;
            let ghost nodes_before = nodes@;
            let ghost finish_before = finish;
            let ghost clock_before = clock;
            let (id, cursor) = stack.pop().unwrap();
            let ghost top = before.len() - 1;
            let ghost u = id@ as int;
            proof {
                assert(before == stack@.push((id, cursor)));
                assert(before[top] == (id, cursor));
                lemma_work_push(incoming, stack@, (id, cursor));
                assert(edges_of(nodes@[u]).len() == edges_of(incoming[u]).len());
                assert(frame_ok(nodes@, colour@, before, top));
                assert(colour@[u] == Colour::Grey);
            }
            let edges = nodes[id.index()].edges();
            if cursor >= edges.len() {
                proof {
                    lemma_whites(colour@, u, Colour::Black);
                }
                colour.set(id.index(), Colour::Black);
                proof {
                    finish = finish.update(u, clock);
                    clock = clock + 1;
                    assert forall|x: int| 0 <= x < n implies #[trigger] black_ok(nodes@, colour@, finish, clock, x) by {
                        if x == u {
                            assert forall|e: int| 0 <= e < edges_of(nodes@[x]).len() implies {
                                let t = (#[trigger] edges_of(nodes@[x])[e]).target@ as int;
                                &&& colour@[t] != Colour::White
                                &&& calls(nodes@, x, e) ==> colour@[t] == Colour::Black && finish[t] < finish[x]
                            } by {
                                let t = edges_of(nodes@[x])[e].target@ as int;
                                if calls(nodes@, x, e) && t != u {
                                    assert(colour_before[t] == Colour::Black);
                                    assert(black_ok(nodes_before, colour_before, finish_before, clock_before, t));
                                }
                            }
                        } else {
                            assert(black_ok(nodes_before, colour_before, finish_before, clock_before, x));
                        }
                    }
                    assert forall|x: int| 0 <= x < n && colour@[x] == Colour::Grey implies #[trigger] in_stack(stack@, x) by {
                        assert(in_stack(before, x));
                        let p = choose|p: int| 0 <= p < before.len() && (#[trigger] before[p]).0@ == x;
                        if p == top {
                        } else {
                            assert(stack@[p] == before[p]);
                        }
                    }
                    assert forall|p: int| 0 <= p < stack@.len() implies colour@[(#[trigger] stack@[p]).0@ as int] == Colour::Grey by {
                        assert(stack@[p] == before[p]);
                        assert(before[p].0 != before[top].0);
                    }
                    assert forall|p: int, q: int| 0 <= p < q < stack@.len() implies (#[trigger] stack@[p]).0 != (#[trigger] stack@[q]).0 by {
                        assert(stack@[p] == before[p]);
                        assert(stack@[q] == before[q]);
                    }
                    assert forall|p: int| 0 <= p < stack@.len() implies #[trigger] frame_ok(nodes@, colour@, stack@, p) by {
                        assert(frame_ok(nodes_before, colour_before, before, p));
                        assert(stack@[p] == before[p]);
                        let (v, c) = stack@[p];
                        assert forall|e: int| 0 <= e < c implies {
                            let t = (#[trigger] edges_of(nodes@[v@ as int])[e]).target@ as int;
                            &&& colour@[t] != Colour::White
                            &&& calls(nodes@, v@ as int, e) ==> colour@[t] == Colour::Black || (e == c - 1 && p + 1
                                < stack@.len() && stack@[p + 1].0@ == t)
                        } by {
                            let t = edges_of(nodes@[v@ as int])[e].target@ as int;
                            if calls(nodes@, v@ as int, e) && colour_before[t] != Colour::Black {
                                assert(e == c - 1 && p + 1 < before.len() && before[p + 1].0@ == t);
                                if p + 1 < stack@.len() {
                                    assert(stack@[p + 1] == before[p + 1]);
                                }
                            }
                        }
                    }
                }
            } else {
                let edge = edges[cursor];
                let target = edge.target;
                let ghost t = target@ as int;
                proof {
                    assert(edges_below(incoming[u], n as nat));
                    assert(edges_of(incoming[u])[cursor as int].target == edge.target);
                    lemma_work_push(incoming, stack@, (id, (cursor + 1) as usize));
                }
                let run = runs(&nodes[id.index()], cursor, id);
                stack.push((id, cursor + 1));
                let ghost pushed = stack@;
                let ghost middle_colour = colour@;
                if !run {
                    match colour[target.index()] {
                        Colour::Grey => {
                            let ghost prior = nodes@[u];
                            let flag = nodes[id.index()].edges_mut(cursor);
                            flag.back = true;
                            proof {
                                let now = nodes@[u];
                                lemma_shape_chain(incoming[u], prior, now);
                                assert forall|k: int| 0 <= k < edges_of(incoming[u]).len() implies (#[trigger] edges_of(now)[k]).target
                                    == edges_of(incoming[u])[k].target && edges_of(now)[k].carry
                                    == edges_of(incoming[u])[k].carry by {
                                    assert(edges_of(prior)[k].target == edges_of(incoming[u])[k].target);
                                }
                                assert forall|i: int| 0 <= i < n implies flagged(incoming[i], #[trigger] nodes@[i]) by {
                                    if i != u {
                                    }
                                }
                            }
                        },
                        Colour::White => {
                            proof {
                                lemma_whites(colour@, t, Colour::Grey);
                            }
                            colour.set(target.index(), Colour::Grey);
                            stack.push((target, 0));
                        },
                        Colour::Black => {},
                    }
                }
                proof {
                    // Each edge but the one at the cursor of the node at `u` stays as it was.
                    assert forall|x: int, e: int|
                        0 <= x < n && 0 <= e < edges_of(nodes@[x]).len() && (x != u || e != cursor) implies #[trigger] edges_of(nodes@[x])[e]
                        == edges_of(nodes_before[x])[e] by {}
                    assert forall|x: int| 0 <= x < n && x != u implies #[trigger] nodes@[x] == nodes_before[x] by {}
                    assert(pushed[top] == (id, (cursor + 1) as usize));
                    assert forall|p: int| 0 <= p < top implies #[trigger] stack@[p] == before[p] by {
                        assert(pushed[p] == before[p]);
                    }
                    assert(stack@[top] == (id, (cursor + 1) as usize));
                    assert(edges_of(nodes@[u])[cursor as int].target@ == t);
                    assert(edges_of(nodes@[u]).len() == edges_of(nodes_before[u]).len());
                    assert forall|x: int| 0 <= x < n implies #[trigger] black_ok(nodes@, colour@, finish, clock, x) by {
                        assert(black_ok(nodes_before, colour_before, finish, clock, x));
                        if colour@[x] == Colour::Black {
                            assert(x != u);
                            assert forall|e: int| 0 <= e < edges_of(nodes@[x]).len() implies {
                                let t2 = (#[trigger] edges_of(nodes@[x])[e]).target@ as int;
                                &&& colour@[t2] != Colour::White
                                &&& calls(nodes@, x, e) ==> colour@[t2] == Colour::Black && finish[t2] < finish[x]
                            } by {
                                assert(edges_of(nodes@[x])[e] == edges_of(nodes_before[x])[e]);
                            }
                        }
                    }
                    assert forall|p: int| 0 <= p < stack@.len() implies (#[trigger] stack@[p]).0@ < n && stack@[p].1 <= edges_of(
                        incoming[stack@[p].0@ as int],
                    ).len() && colour@[stack@[p].0@ as int] == Colour::Grey by {
                        if p < top {
                            assert(before[p].0 != before[top].0);
                        }
                    }
                    assert forall|p: int, q: int| 0 <= p < q < stack@.len() implies (#[trigger] stack@[p]).0 != (#[trigger] stack@[q]).0 by {
                        if q == top + 1 {
                            assert(middle_colour[t] == Colour::White);
                            assert(colour_before[stack@[p].0@ as int] == Colour::Grey) by {
                                if p < top {
                                    assert(stack@[p] == before[p]);
                                }
                            }
                        } else if q == top {
                            assert(before[p].0 != before[top].0);
                        }
                    }
                    assert forall|x: int| 0 <= x < n && colour@[x] == Colour::Grey implies #[trigger] in_stack(stack@, x) by {
                        if x == t && colour_before[x] == Colour::White {
                            assert(stack@[top + 1].0@ == x);
                        } else {
                            assert(in_stack(before, x));
                            let p = choose|p: int| 0 <= p < before.len() && (#[trigger] before[p]).0@ == x;
                            if p == top {
                                assert(stack@[top].0@ == x);
                            } else {
                                assert(stack@[p] == before[p]);
                            }
                        }
                    }
                    assert forall|p: int| 0 <= p < stack@.len() implies #[trigger] frame_ok(nodes@, colour@, stack@, p) by {
                        if p < top {
                            assert(frame_ok(nodes_before, colour_before, before, p));
                            assert(stack@[p] == before[p]);
                            assert(stack@[p + 1].0 == before[p + 1].0);
                            let (v, c) = stack@[p];
                            assert(v@ != u) by {
                                assert(before[p].0 != before[top].0);
                            }
                            assert forall|e: int| 0 <= e < c implies {
                                let t2 = (#[trigger] edges_of(nodes@[v@ as int])[e]).target@ as int;
                                &&& colour@[t2] != Colour::White
                                &&& calls(nodes@, v@ as int, e) ==> colour@[t2] == Colour::Black || (e == c - 1 && p + 1
                                    < stack@.len() && stack@[p + 1].0@ == t2)
                            } by {
                                assert(edges_of(nodes@[v@ as int])[e] == edges_of(nodes_before[v@ as int])[e]);
                            }
                        } else if p == top {
                            let c = (cursor + 1) as int;
                            assert forall|e: int| 0 <= e < c implies {
                                let t2 = (#[trigger] edges_of(nodes@[u])[e]).target@ as int;
                                &&& colour@[t2] != Colour::White
                                &&& calls(nodes@, u, e) ==> colour@[t2] == Colour::Black || (e == c - 1 && top + 1
                                    < stack@.len() && stack@[top + 1].0@ == t2)
                            } by {
                                if e < cursor {
                                    assert(edges_of(nodes@[u])[e] == edges_of(nodes_before[u])[e]);
                                } else {
                                    if run {
                                        assert(!calls(nodes@, u, e)) by {
                                            assert(is_run(nodes_before[u], e, u as nat));
                                        }
                                    }
                                }
                            }
                        } else {
                        }
                    }
                }
            }
        }
        proof {
            assert forall|x: int| 0 <= x < n implies colour@[x] != Colour::Grey by {
                if colour@[x] == Colour::Grey {
                    assert(in_stack(stack@, x));
                }
            }
            assert(colour@[start@ as int] == Colour::Black);
        }
    }
    proof {
        lemma_flagged(incoming, nodes@, starts@);
        assert forall|x: int, e: int|
            0 <= x < n && colour@[x] == Colour::Black && 0 <= e < edges_of(nodes@[x]).len()
                implies colour@[(#[trigger] edges_of(nodes@[x])[e]).target@ as int] != Colour::White by {
            assert(black_ok(nodes@, colour@, finish, clock, x));
        }
        lemma_all_black(nodes@, starts@, colour@);
        assert(ranked(nodes@, finish)) by {
            assert forall|i: int, e: int|
                0 <= i < n && 0 <= e < edges_of(nodes@[i]).len() && #[trigger] calls(nodes@, i, e)
                    implies finish[edges_of(nodes@[i])[e].target@ as int] < finish[i] by {
                assert(black_ok(nodes@, colour@, finish, clock, i));
                assert(colour@[i] == Colour::Black);
            }
        }
    }
}

/// Where each node lies below another that reaches it, each start is left,
/// no node is entered and not left, and each left node reaches only nodes
/// that the pass reached, each node is left.
proof fn lemma_all_black(nodes: Seq<Node>, starts: Seq<NodeId>, colour: Seq<Colour>)
    requires
        colour.len() == nodes.len(),
        reached(nodes, starts),
        forall|k: int| 0 <= k < starts.len() ==> colour[(#[trigger] starts[k])@ as int] == Colour::Black,
        forall|x: int| 0 <= x < nodes.len() ==> colour[x] != Colour::Grey,
        forall|x: int, e: int|
            0 <= x < nodes.len() && colour[x] == Colour::Black && 0 <= e < edges_of(nodes[x]).len()
                ==> colour[(#[trigger] edges_of(nodes[x])[e]).target@ as int] != Colour::White,
    ensures
        forall|x: int| 0 <= x < nodes.len() ==> colour[x] == Colour::Black,
{
    assert forall|x: int| 0 <= x < nodes.len() implies colour[x] == Colour::Black by {
        lemma_black_below(nodes, starts, colour, x as nat);
    }
}

/// The node at `k` is left, by induction on `k`.
proof fn lemma_black_below(nodes: Seq<Node>, starts: Seq<NodeId>, colour: Seq<Colour>, k: nat)
    requires
        colour.len() == nodes.len(),
        k < nodes.len(),
        reached(nodes, starts),
        forall|k: int| 0 <= k < starts.len() ==> colour[(#[trigger] starts[k])@ as int] == Colour::Black,
        forall|x: int| 0 <= x < nodes.len() ==> colour[x] != Colour::Grey,
        forall|x: int, e: int|
            0 <= x < nodes.len() && colour[x] == Colour::Black && 0 <= e < edges_of(nodes[x]).len()
                ==> colour[(#[trigger] edges_of(nodes[x])[e]).target@ as int] != Colour::White,
    ensures
        colour[k as int] == Colour::Black,
    decreases k,
{
    assert(entered(nodes, starts, k));
    if is_start(starts, k) {
        let s = choose|s: int| 0 <= s < starts.len() && (#[trigger] starts[s])@ == k;
        assert(colour[starts[s]@ as int] == Colour::Black);
    } else {
        let j = choose|j: int| 0 <= j < k && #[trigger] goes_to(nodes[j], k);
        lemma_black_below(nodes, starts, colour, j as nat);
        let e = choose|e: int| 0 <= e < edges_of(nodes[j]).len() && (#[trigger] edges_of(nodes[j])[e]).target@ == k;
        assert(colour[edges_of(nodes[j])[e].target@ as int] != Colour::White);
    }
}

/// Changing the flags of edges keeps each edge inside, and each node
/// reached.
proof fn lemma_flagged(old: Seq<Node>, new: Seq<Node>, starts: Seq<NodeId>)
    requires
        old.len() == new.len(),
        forall|i: int| 0 <= i < old.len() ==> flagged(old[i], #[trigger] new[i]),
        edges_inside(old),
        reached(old, starts),
    ensures
        edges_inside(new),
        reached(new, starts),
{
    assert forall|i: int| 0 <= i < new.len() implies edges_below(#[trigger] new[i], new.len()) by {
        assert(flagged(old[i], new[i]));
        assert(edges_below(old[i], old.len()));
        assert forall|k: int| 0 <= k < edges_of(new[i]).len() implies (#[trigger] edges_of(new[i])[k]).target@ < new.len() by {
            assert(edges_of(new[i])[k].target == edges_of(old[i])[k].target);
        }
    }
    assert forall|k: nat| k < new.len() implies #[trigger] entered(new, starts, k) by {
        assert(entered(old, starts, k));
        if !is_start(starts, k) {
            let j = choose|j: int| 0 <= j < k && #[trigger] goes_to(old[j], k);
            let e = choose|e: int| 0 <= e < edges_of(old[j]).len() && (#[trigger] edges_of(old[j])[e]).target@ == k;
            assert(flagged(old[j], new[j]));
            assert(edges_of(new[j])[e].target == edges_of(old[j])[e].target);
            assert(goes_to(new[j], k));
        }
    }
}

/// Changing the flags of edges that no flag marked keeps distinct nodes
/// distinct.
proof fn lemma_flags_distinct(old: Seq<Node>, new: Seq<Node>, markers: Seq<bool>)
    requires
        old.len() == new.len(),
        forall|i: int| 0 <= i < old.len() ==> flagged(old[i], #[trigger] new[i]),
        none_flagged(old),
        distinct_nodes(old, markers),
    ensures
        distinct_nodes(new, markers),
{
    assert forall|a: int, b: int| 0 <= a < b < new.len() implies !#[trigger] same_kind(new, markers, a, b) by {
        if same_kind(new, markers, a, b) {
            assert(flagged(old[a], new[a]));
            assert(flagged(old[b], new[b]));
            lemma_shape_same(old[b], new[b]);
            lemma_shape_chain(old[a], new[a], new[b]);
            lemma_shape_chain(old[a], new[b], old[b]);
            assert(unflagged(old[a]));
            assert(unflagged(old[b]));
            assert(edges_of(old[a]) =~= edges_of(old[b])) by {
                assert forall|e: int| 0 <= e < edges_of(old[a]).len() implies edges_of(old[a])[e] == edges_of(old[b])[e] by {
                    assert(edges_of(new[a])[e] == edges_of(new[b])[e]);
                    assert(edges_of(new[a])[e].target == edges_of(old[a])[e].target);
                    assert(edges_of(new[b])[e].target == edges_of(old[b])[e].target);
                }
            }
            assert(same_kind(old, markers, a, b));
        }
    }
}

/// Builds the rule graph of `compilation`.
///
/// The graph holds one node for each set of positions that the scan can
/// reach, exactly as a determinization does. It differs in one point: a rule
/// whose only continuation is a sequence of forced bytes becomes one rope,
/// and the rules that remain become the miss of that rope. Thus a literal
/// survives a rule that overlaps it, and the scan compares the whole literal
/// at one time.
///
/// The longest match wins, and the earliest rule wins a tie at the same
/// length.
///
/// The result is an [`Overflow`] if the lexer needs more than [`MAX_NODES`]
/// nodes: the exploration then met so many distinct scan states and leaves
/// that, with the fault node, they fill [`MAX_NODES`] nodes.
pub fn build(compilation: &Compilation<ByteRange, u16>) -> (built: Result<Arena, Overflow>)
    requires
        compilation.well_formed(),
    ensures
        built matches Ok(arena) ==> {
            &&& arena.spec_nodes().len() <= MAX_NODES
            &&& arena.spec_markers().len() == arena.spec_nodes().len()
            &&& arena.spec_starts().len() == compilation.nfa.spec_starts().len()
            &&& edges_inside(arena.spec_nodes())
            &&& reached(arena.spec_nodes(), arena.spec_starts())
            &&& acyclic_calls(arena.spec_nodes())
            &&& distinct_nodes(arena.spec_nodes(), arena.spec_markers())
            &&& leaves_accepted(arena.spec_nodes(), compilation.accepts.spec_accepts())
            &&& ranges_in_order(arena.spec_nodes())
            &&& targets_inside(arena.spec_nodes())
        },
        built matches Err(overflow) ==> overflow == (Overflow { part: Part::States, maximum: MAX_NODES }),
        built is Err ==> exists|keys: Seq<(Seq<StateId>, Option<u16>)>, leaves: Seq<(u16, bool)>|
            #[trigger] distinct_parts(
                keys,
                leaves,
                compilation.nfa.spec_state_count(),
                compilation.accepts.spec_accepts(),
                MAX_NODES as nat,
            ),
{
    let nfa = &compilation.nfa;
    let count = nfa.state_count();
    let mut builder = Builder {
        nfa,
        accepts: &compilation.accepts,
        owners: compilation.owners.as_slice(),
        nodes: Vec::new(),
        markers: Vec::new(),
        states: Vec::new(),
        leaves: Vec::new(),
        fault: None,
        queue: Vec::new(),
        set: StateSet::new(count),
    };
    let mut starts = match builder.explore() {
        Ok(starts) => starts,
        Err(overflow) => {
            proof {
                let keys = state_keys(builder.states@);
                let leaves = leaf_keys(builder.leaves@);
                assert(distinct_parts(
                    keys,
                    leaves,
                    compilation.nfa.spec_state_count(),
                    compilation.accepts.spec_accepts(),
                    MAX_NODES as nat,
                ));
            }
            return Err(overflow);
        },
    };
    let ghost explored = builder.nodes@;
    proof {
        assert(leaves_accepted(explored, compilation.accepts.spec_accepts()));
        assert(all_ordered(explored));
    }
    let mut nodes = builder.nodes;
    let markers = builder.markers;
    proof {
        assert(nfa.spec_starts().len() > 0);
    }
    dedupe(&mut nodes, markers.as_slice(), &mut starts);
    proof {
        assert forall|i: int| 0 <= i < nodes@.len() implies ((#[trigger] nodes@[i]) matches Node::Leaf(leaf) ==> accepted(
            compilation.accepts.spec_accepts(),
            leaf.rule,
        )) by {
            assert(same_shape(explored[i], nodes@[i]));
            if explored[i] is Leaf {
                assert(explored[i] matches Node::Leaf(leaf) ==> accepted(compilation.accepts.spec_accepts(), leaf.rule));
            }
        }
    }
    proof {
        assert forall|i: int| 0 <= i < nodes@.len() implies ordered_ranges(#[trigger] nodes@[i]) by {
            assert(same_shape(explored[i], nodes@[i]));
            assert(ordered_ranges(explored[i]));
            lemma_shape_ordered(explored[i], nodes@[i]);
        }
    }
    let (nodes, markers, starts) = compact(nodes, markers, starts.as_slice(), Ghost(compilation.accepts.spec_accepts()));
    let mut nodes = nodes;
    let ghost compacted = nodes@;
    cycles(&mut nodes, starts.as_slice());
    proof {
        lemma_flagged(compacted, nodes@, starts@);
        lemma_flags_distinct(compacted, nodes@, markers@);
        assert forall|i: int| 0 <= i < nodes@.len() implies ((#[trigger] nodes@[i]) matches Node::Leaf(leaf) ==> accepted(
            compilation.accepts.spec_accepts(),
            leaf.rule,
        )) by {
            assert(flagged(compacted[i], nodes@[i]));
        }
        assert forall|i: int| 0 <= i < nodes@.len() implies ordered_ranges(#[trigger] nodes@[i]) by {
            assert(flagged(compacted[i], nodes@[i]));
            assert(ordered_ranges(compacted[i]));
            lemma_shape_ordered(compacted[i], nodes@[i]);
        }
        lemma_emitter_ready(nodes@);
    }
    Ok(Arena::new(nodes, starts, markers))
}
} // verus!
