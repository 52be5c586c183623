//! The form of the body of the function of a fork in the emitted source.
use vstd::prelude::*;

use super::emitter::LARGE_GRAPH;
use super::pattern::{apart, byte_count, covers, in_some, lemma_covers_every_byte};
use crate::automata::encoding::ByteRange;
use crate::graph::arena::Arena;
use crate::graph::id::NodeId;
use crate::graph::node::{Arm, Node};

verus! {

/// How the body of a fork chooses the node after the byte that it reads.
#[derive(Debug, Clone, Copy, PartialEq, Eq, Structural)]
pub enum Dispatch {
    /// A table gives the arm of each byte: the fork is wide, in a large
    /// graph.
    Table,
    /// No arm goes to another node: the body reads the run, if any, then
    /// takes the miss.
    MissOnly,
    /// A `match` on the byte holds one arm for each other node, and an arm
    /// for the rest where `rest` holds, that is, where the ranges of those
    /// arms do not hold each byte.
    Match { rest: bool },
}

/// The form of the body of the function of a fork.
#[derive(Debug, Clone, Copy, PartialEq, Eq, Structural)]
pub struct ForkPlan {
    /// Whether an arm goes back to the fork itself, so that the body first
    /// reads the run of the bytes of that arm.
    pub run: bool,
    /// How the body chooses the node after the byte.
    pub dispatch: Dispatch,
}

/// The number of the arms of `arms` that go to a node other than `id`.
pub open spec fn other_count(arms: Seq<Arm>, id: NodeId) -> nat
    decreases arms.len(),
{
    if arms.len() == 0 {
        0
    } else {
        other_count(arms.drop_last(), id) + if arms.last().edge.target != id {
            1nat
        } else {
            0nat
        }
    }
}

/// The ranges of the arms of `arms` that go to a node other than `id`, in
/// the sequence of the arms.
pub open spec fn other_ranges(arms: Seq<Arm>, id: NodeId) -> Seq<ByteRange>
    decreases arms.len(),
{
    if arms.len() == 0 {
        Seq::empty()
    } else {
        other_ranges(arms.drop_last(), id) + if arms.last().edge.target != id {
            arms.last().ranges@
        } else {
            Seq::empty()
        }
    }
}

/// Whether each range of each arm of `arms` runs from its low byte up to its
/// high byte.
pub open spec fn ordered_ranges(arms: Seq<Arm>) -> bool {
    forall|a: int, r: int|
        0 <= a < arms.len() && 0 <= r < arms[a].ranges@.len() ==> (#[trigger] arms[a].ranges@[r]).low
            <= arms[a].ranges@[r].high
}

/// The form of the body of a fork of the arms `arms`, at `id` in a graph of
/// `count` nodes.
pub open spec fn fork_plan_of(count: nat, arms: Seq<Arm>, id: NodeId) -> ForkPlan {
    ForkPlan {
        run: exists|a: int| 0 <= a < arms.len() && (#[trigger] arms[a]).edge.target == id,
        dispatch: if count > LARGE_GRAPH && other_count(arms, id) > 2 {
            Dispatch::Table
        } else if other_ranges(arms, id).len() == 0 {
            Dispatch::MissOnly
        } else {
            Dispatch::Match { rest: byte_count(other_ranges(arms, id)) != 256 }
        },
    }
}

/// The arms that go to another node are at most all the arms, and all of
/// them exactly where no arm goes back to `id`.
pub proof fn lemma_other_count(arms: Seq<Arm>, id: NodeId)
    ensures
        other_count(arms, id) <= arms.len(),
        other_count(arms, id) == arms.len() <==> forall|a: int|
            0 <= a < arms.len() ==> (#[trigger] arms[a]).edge.target != id,
    decreases arms.len(),
{
    if arms.len() > 0 {
        let prefix = arms.drop_last();
        lemma_other_count(prefix, id);
        assert forall|a: int| 0 <= a < prefix.len() implies prefix[a] == arms[a] by {}
        if forall|a: int| 0 <= a < arms.len() ==> (#[trigger] arms[a]).edge.target != id {
            assert forall|a: int| 0 <= a < prefix.len() implies (#[trigger] prefix[a]).edge.target != id by {
                assert(arms[a].edge.target != id);
            }
            assert(arms[arms.len() - 1].edge.target != id);
        }
        if other_count(arms, id) == arms.len() {
            assert forall|a: int| 0 <= a < arms.len() implies (#[trigger] arms[a]).edge.target != id by {
                if a < prefix.len() {
                    assert(prefix[a].edge.target != id);
                }
            }
        }
    }
}

/// The run of a fork: the body reads a run exactly where some arm, at any
/// position, goes back to the fork, that is, exactly where fewer arms go to
/// other nodes than the fork holds.
pub proof fn lemma_fork_run(count: nat, arms: Seq<Arm>, id: NodeId)
    ensures
        forall|a: int| 0 <= a < arms.len() && (#[trigger] arms[a]).edge.target == id ==> fork_plan_of(
            count,
            arms,
            id,
        ).run,
        fork_plan_of(count, arms, id).run <==> other_count(arms, id) < arms.len(),
{
    lemma_other_count(arms, id);
    if other_count(arms, id) < arms.len() {
        let a = choose|a: int| !(0 <= a < arms.len() ==> (#[trigger] arms[a]).edge.target != id);
        assert(arms[a].edge.target == id);
    }
}

/// Whether an arm of `arms` that goes to a node other than `id` holds
/// `byte`.
pub open spec fn taken_by_other(arms: Seq<Arm>, id: NodeId, byte: u8) -> bool {
    exists|a: int, r: int|
        0 <= a < arms.len() && (#[trigger] arms[a]).edge.target != id && 0 <= r < arms[a].ranges@.len()
            && (#[trigger] arms[a].ranges@[r]).low <= byte <= arms[a].ranges@[r].high
}

/// The ranges of the other arms hold a byte exactly where an arm to another
/// node holds it; the arm that goes back to the fork adds none.
pub proof fn lemma_other_ranges_bytes(arms: Seq<Arm>, id: NodeId, byte: u8)
    ensures
        in_some(other_ranges(arms, id), byte) <==> taken_by_other(arms, id, byte),
    decreases arms.len(),
{
    if arms.len() > 0 {
        let prefix = arms.drop_last();
        let last = arms.last();
        lemma_other_ranges_bytes(prefix, id, byte);
        let before = other_ranges(prefix, id);
        let added = if last.edge.target != id { last.ranges@ } else { Seq::<ByteRange>::empty() };
        let all = other_ranges(arms, id);
        assert(all == before + added);
        if in_some(all, byte) {
            let i = choose|i: int| 0 <= i < all.len() && (#[trigger] all[i]).low <= byte <= all[i].high;
            if i < before.len() {
                assert(all[i] == before[i]);
                assert(in_some(before, byte));
                let (a, r) = choose|a: int, r: int|
                    0 <= a < prefix.len() && (#[trigger] prefix[a]).edge.target != id && 0 <= r
                        < prefix[a].ranges@.len() && (#[trigger] prefix[a].ranges@[r]).low <= byte
                        <= prefix[a].ranges@[r].high;
                assert(arms[a] == prefix[a]);
                assert(arms[a].ranges@[r] == prefix[a].ranges@[r]);
            } else {
                let r = i - before.len();
                assert(all[i] == added[r]);
                assert(arms[arms.len() - 1] == last);
                assert(arms[arms.len() - 1].ranges@[r] == added[r]);
            }
        }
        if taken_by_other(arms, id, byte) {
            let (a, r) = choose|a: int, r: int|
                0 <= a < arms.len() && (#[trigger] arms[a]).edge.target != id && 0 <= r < arms[a].ranges@.len()
                    && (#[trigger] arms[a].ranges@[r]).low <= byte <= arms[a].ranges@[r].high;
            if a < prefix.len() {
                assert(prefix[a] == arms[a]);
                assert(prefix[a].ranges@[r] == arms[a].ranges@[r]);
                assert(taken_by_other(prefix, id, byte));
                let i = choose|i: int| 0 <= i < before.len() && (#[trigger] before[i]).low <= byte <= before[i].high;
                assert(all[i] == before[i]);
            } else {
                assert(arms[a] == last);
                assert(all[before.len() + r] == added[r]);
            }
        }
    }
}

/// The rest arm of a `match`: where the ranges of the other arms share no
/// byte, the body adds an arm for the rest exactly where some byte is taken
/// by no arm to another node.
pub proof fn lemma_fork_rest(count: nat, arms: Seq<Arm>, id: NodeId)
    requires
        ordered_ranges(arms),
        apart(other_ranges(arms, id)),
    ensures
        fork_plan_of(count, arms, id).dispatch matches Dispatch::Match { rest } ==> (rest <==> exists|byte: u8|
            !#[trigger] taken_by_other(arms, id, byte)),
{
    let ranges = other_ranges(arms, id);
    lemma_other_ranges_ordered(arms, id);
    lemma_covers_every_byte(ranges);
    assert forall|byte: u8| #[trigger] in_some(ranges, byte) <==> taken_by_other(arms, id, byte) by {
        lemma_other_ranges_bytes(arms, id, byte);
    }
    if exists|byte: u8| !#[trigger] taken_by_other(arms, id, byte) {
        let byte = choose|byte: u8| !#[trigger] taken_by_other(arms, id, byte);
        assert(!in_some(ranges, byte));
    }
}

/// The ranges of the other arms run from their low byte up to their high
/// byte.
proof fn lemma_other_ranges_ordered(arms: Seq<Arm>, id: NodeId)
    requires
        ordered_ranges(arms),
    ensures
        forall|k: int| 0 <= k < other_ranges(arms, id).len() ==> (#[trigger] other_ranges(arms, id)[k]).low
            <= other_ranges(arms, id)[k].high,
    decreases arms.len(),
{
    if arms.len() > 0 {
        let prefix = arms.drop_last();
        assert(ordered_ranges(prefix)) by {
            assert forall|a: int, r: int| 0 <= a < prefix.len() && 0 <= r < prefix[a].ranges@.len() implies (
                #[trigger] prefix[a].ranges@[r]).low <= prefix[a].ranges@[r].high by {
                assert(prefix[a] == arms[a]);
            }
        }
        lemma_other_ranges_ordered(prefix, id);
        let before = other_ranges(prefix, id);
        let last = arms.last();
        let all = other_ranges(arms, id);
        assert forall|k: int| 0 <= k < all.len() implies (#[trigger] all[k]).low <= all[k].high by {
            if k < before.len() {
                assert(all[k] == before[k]);
            } else {
                assert(arms[arms.len() - 1] == last);
                assert(all[k] == last.ranges@[k - before.len()]);
                assert(arms[arms.len() - 1].ranges@[k - before.len()] == last.ranges@[k - before.len()]);
            }
        }
    }
}

/// Returns the form of the body of the fork at `id` in `arena`.
///
/// The body reads the run of an arm that goes back to the fork, if any. A
/// wide fork (more than two other arms) of a large graph takes a table. A
/// fork with no other arm takes the miss. Else a `match` holds one arm for
/// each other node, and an arm for the rest only where the bytes of the
/// other arms are not the whole alphabet.
pub fn fork_plan(arena: &Arena, id: NodeId) -> (plan: ForkPlan)
    requires
        id@ < arena.spec_nodes().len(),
        arena.spec_nodes()[id@ as int] is Fork,
        ordered_ranges(arena.spec_nodes()[id@ as int]->Fork_0.arms@),
    ensures
        plan == fork_plan_of(
            arena.spec_nodes().len(),
            arena.spec_nodes()[id@ as int]->Fork_0.arms@,
            id,
        ),
        forall|a: int|
            0 <= a < arena.spec_nodes()[id@ as int]->Fork_0.arms@.len()
                && (#[trigger] arena.spec_nodes()[id@ as int]->Fork_0.arms@[a]).edge.target == id ==> plan.run,
        plan.run <==> other_count(arena.spec_nodes()[id@ as int]->Fork_0.arms@, id)
            < arena.spec_nodes()[id@ as int]->Fork_0.arms@.len(),
        apart(other_ranges(arena.spec_nodes()[id@ as int]->Fork_0.arms@, id)) ==> (plan.dispatch matches Dispatch::Match {
            rest,
        } ==> (rest <==> exists|byte: u8|
            !#[trigger] taken_by_other(arena.spec_nodes()[id@ as int]->Fork_0.arms@, id, byte))),
{
    proof {
        let arms = arena.spec_nodes()[id@ as int]->Fork_0.arms@;
        lemma_fork_run(arena.spec_nodes().len(), arms, id);
        if apart(other_ranges(arms, id)) {
            lemma_fork_rest(arena.spec_nodes().len(), arms, id);
        }
    }
    let count = arena.node_count();
    let fork = match arena.node(id) {
        Node::Fork(fork) => fork,
        _ => {
            proof {
                assert(false);
            }
            return ForkPlan { run: false, dispatch: Dispatch::MissOnly };
        },
    };
    let arms = &fork.arms;
    let mut run = false;
    let mut others: usize = 0;
    let mut ranges: Vec<ByteRange> = Vec::new();
    let mut a: usize = 0;
    while a < arms.len()
        invariant
            a <= arms@.len(),
            ordered_ranges(arms@),
            run <==> exists|b: int| 0 <= b < a && (#[trigger] arms@[b]).edge.target == id,
            others == other_count(arms@.take(a as int), id),
            others <= a,
            ranges@ == other_ranges(arms@.take(a as int), id),
            forall|r: int| 0 <= r < ranges@.len() ==> (#[trigger] ranges@[r]).low <= ranges@[r].high,
        decreases arms@.len() - a,
    {
        let arm = &arms[a];
        proof {
            assert(arms@.take(a + 1).drop_last() =~= arms@.take(a as int));
            assert(arms@.take(a + 1).last() == arms@[a as int]);
        }
        if arm.edge.target == id {
            run = true;
        } else {
            others = others + 1;
            let ghost before = ranges@;
            let mut r: usize = 0;
            while r < arm.ranges.len()
                invariant
                    r <= arm.ranges@.len(),
                    ordered_ranges(arms@),
                    *arm == arms@[a as int],
                    a < arms@.len(),
                    ranges@ == before + arm.ranges@.take(r as int),
                    forall|k: int| 0 <= k < before.len() ==> (#[trigger] before[k]).low <= before[k].high,
                decreases arm.ranges@.len() - r,
            {
                ranges.push(arm.ranges[r]);
                proof {
                    assert(arm.ranges@.take(r + 1) =~= arm.ranges@.take(r as int).push(arm.ranges@[r as int]));
                }
                r = r + 1;
            }
            proof {
                assert(arm.ranges@.take(arm.ranges@.len() as int) =~= arm.ranges@);
                assert forall|k: int| 0 <= k < ranges@.len() implies (#[trigger] ranges@[k]).low <= ranges@[k].high by {
                    if k >= before.len() {
                        assert(ranges@[k] == arms@[a as int].ranges@[k - before.len()]);
                    }
                }
            }
        }
        proof {
            if run {
                if arms@[a as int].edge.target == id {
                    assert(0 <= a < a + 1 && arms@[a as int].edge.target == id);
                }
            }
        }
        a = a + 1;
    }
    proof {
        assert(arms@.take(arms@.len() as int) =~= arms@);
    }
    let dispatch = if count > LARGE_GRAPH && others > 2 {
        Dispatch::Table
    } else if ranges.len() == 0 {
        Dispatch::MissOnly
    } else {
        Dispatch::Match { rest: !covers(ranges.as_slice()) }
    };
    ForkPlan { run, dispatch }
}

} // verus!
