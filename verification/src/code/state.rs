//! The arms of the dispatch of one state in the `find` function of the
//! emitted source.
use vstd::prelude::*;

use crate::automata::automaton::Transition;
use crate::automata::encoding::ByteRange;
use crate::automata::id::StateId;

verus! {

/// The targets of the first `count` transitions of `transitions`, besides
/// `id`, each once, in the sequence in which they first come.
pub open spec fn first_targets(transitions: Seq<Transition<ByteRange>>, id: StateId, count: int) -> Seq<
    StateId,
>
    decreases count,
{
    if count <= 0 {
        Seq::empty()
    } else {
        let prior = first_targets(transitions, id, count - 1);
        let target = transitions[count - 1].target;
        if target == id || prior.contains(target) {
            prior
        } else {
            prior.push(target)
        }
    }
}

/// The labels of the first `count` transitions of `transitions` that go to
/// `target`, in their sequence.
pub open spec fn labels_to(transitions: Seq<Transition<ByteRange>>, target: StateId, count: int) -> Seq<
    ByteRange,
>
    decreases count,
{
    if count <= 0 {
        Seq::empty()
    } else {
        let prior = labels_to(transitions, target, count - 1);
        if transitions[count - 1].target == target {
            prior.push(transitions[count - 1].label)
        } else {
            prior
        }
    }
}

/// Returns the arms of the dispatch of the state `id`, whose transitions are
/// `transitions`: one arm for each state that the transitions reach, besides
/// `id` itself, with the labels that go there.
///
/// Two labels that give the same state share one arm, thus the source holds
/// one arm for each state that this state reaches. The arms come in the
/// sequence in which their states first come, and each holds its labels in
/// their sequence. A transition to `id` itself belongs to the run of the
/// state and gets no arm.
pub fn arms(transitions: &[Transition<ByteRange>], id: StateId) -> (arms: Vec<(StateId, Vec<ByteRange>)>)
    ensures
        arms@.len() == first_targets(transitions@, id, transitions@.len() as int).len(),
        forall|a: int|
            0 <= a < arms@.len() ==> (#[trigger] arms@[a]).0 == first_targets(
                transitions@,
                id,
                transitions@.len() as int,
            )[a] && arms@[a].1@ == labels_to(transitions@, arms@[a].0, transitions@.len() as int),
{
    let mut targets: Vec<StateId> = Vec::new();
    let mut i: usize = 0;
    while i < transitions.len()
        invariant
            i <= transitions@.len(),
            targets@ == first_targets(transitions@, id, i as int),
        decreases transitions@.len() - i,
    {
        let target = transitions[i].target;
        if target != id {
            let mut seen = false;
            let mut k: usize = 0;
            while k < targets.len()
                invariant
                    k <= targets@.len(),
                    seen <==> exists|m: int| 0 <= m < k && targets@[m] == target,
                decreases targets@.len() - k,
            {
                if targets[k] == target {
                    seen = true;
                }
                k = k + 1;
            }
            if !seen {
                targets.push(target);
            }
        }
        i = i + 1;
    }
    let mut arms: Vec<(StateId, Vec<ByteRange>)> = Vec::new();
    let mut a: usize = 0;
    while a < targets.len()
        invariant
            targets@ == first_targets(transitions@, id, transitions@.len() as int),
            a <= targets@.len(),
            arms@.len() == a,
            forall|b: int|
                0 <= b < a ==> (#[trigger] arms@[b]).0 == targets@[b] && arms@[b].1@ == labels_to(
                    transitions@,
                    targets@[b],
                    transitions@.len() as int,
                ),
        decreases targets@.len() - a,
    {
        let target = targets[a];
        let mut labels: Vec<ByteRange> = Vec::new();
        let mut j: usize = 0;
        while j < transitions.len()
            invariant
                j <= transitions@.len(),
                labels@ == labels_to(transitions@, target, j as int),
            decreases transitions@.len() - j,
        {
            if transitions[j].target == target {
                labels.push(transitions[j].label);
            }
            j = j + 1;
        }
        arms.push((target, labels));
        a = a + 1;
    }
    arms
}

} // verus!
