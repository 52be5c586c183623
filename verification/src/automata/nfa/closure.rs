//! Computes epsilon closures.
use vstd::prelude::*;

use super::automaton::Nfa;
use crate::automata::id::StateId;
use crate::automata::state_set::{StateSet, ascending, id_set, lemma_distinct_len};

verus! {

/// Whether each epsilon transition from a state of `set` goes to a state of `set`.
pub open spec fn closed_under(epsilons: Seq<Seq<StateId>>, set: Set<nat>) -> bool {
    forall|state: nat, k: int|
        #![trigger set.contains(state), epsilons[state as int][k]]
        set.contains(state) && state < epsilons.len() && 0 <= k < epsilons[state as int].len()
            ==> set.contains(epsilons[state as int][k]@)
}

/// The epsilon closure of `seeds`: the states that each set that holds the
/// seeds and is closed under the epsilon transitions holds, thus the smallest
/// such set.
pub open spec fn closure(epsilons: Seq<Seq<StateId>>, seeds: Set<nat>) -> Set<nat> {
    Set::new(
        |state: nat|
            forall|closed: Set<nat>|
                #![trigger closed_under(epsilons, closed)]
                seeds.subset_of(closed) && closed_under(epsilons, closed) ==> closed.contains(state),
    )
}

/// A set that holds the seeds, is closed, and lies in each closed set that
/// holds the seeds, is the closure of the seeds.
pub proof fn lemma_closure_is_least(
    epsilons: Seq<Seq<StateId>>,
    seeds: Set<nat>,
    set: Set<nat>,
)
    requires
        seeds.subset_of(set),
        closed_under(epsilons, set),
        forall|closed: Set<nat>|
            #![trigger closed_under(epsilons, closed)]
            seeds.subset_of(closed) && closed_under(epsilons, closed) ==> set.subset_of(closed),
    ensures
        set == closure(epsilons, seeds),
{
    assert(set =~= closure(epsilons, seeds));
}

/// Replaces `states` with the epsilon closure of `seeds`.
///
/// The result is sorted and contains no duplicates.
pub fn epsilon_closure<L, A>(nfa: &Nfa<L, A>, seeds: &[StateId], states: &mut StateSet)
    requires
        nfa.well_formed(),
        old(states).well_formed(),
        old(states).spec_bound() == nfa.spec_state_count(),
        forall|k: int| 0 <= k < seeds@.len() ==> (#[trigger] seeds@[k])@ < nfa.spec_state_count(),
    ensures
        final(states).well_formed(),
        final(states).spec_bound() == nfa.spec_state_count(),
        id_set(final(states).view()) == closure(nfa.spec_epsilons(), id_set(seeds@)),
        final(states).view() == ascending(
            closure(nfa.spec_epsilons(), id_set(seeds@)),
            nfa.spec_state_count(),
        ),
{
    let ghost epsilons = nfa.spec_epsilons();
    let ghost seed_set = id_set(seeds@);
    let count = nfa.state_count();
    states.clear();
    let mut i: usize = 0;
    while i < seeds.len()
        invariant
            nfa.well_formed(),
            epsilons == nfa.spec_epsilons(),
            count == nfa.spec_state_count(),
            seed_set == id_set(seeds@),
            states.well_formed(),
            states.spec_bound() == count,
            i <= seeds@.len(),
            forall|k: int| 0 <= k < seeds@.len() ==> (#[trigger] seeds@[k])@ < count,
            id_set(states.view()) == id_set(seeds@.take(i as int)),
        decreases seeds@.len() - i,
    {
        states.insert(seeds[i]);
        proof {
            let taken = seeds@.take(i + 1);
            assert(id_set(taken) =~= id_set(seeds@.take(i as int)).insert(seeds@[i as int]@)) by {
                assert forall|s: nat| #[trigger] id_set(taken).contains(s) implies id_set(
                    seeds@.take(i as int),
                ).insert(seeds@[i as int]@).contains(s) by {
                    let k = choose|k: int| 0 <= k < taken.len() && (#[trigger] taken[k])@ == s;
                    if k < i {
                        assert(seeds@.take(i as int)[k] == taken[k]);
                    }
                }
                assert forall|s: nat| id_set(seeds@.take(i as int)).insert(
                    seeds@[i as int]@,
                ).contains(s) implies #[trigger] id_set(taken).contains(s) by {
                    if s == seeds@[i as int]@ {
                        assert(taken[i as int] == seeds@[i as int]);
                    } else {
                        let k = choose|k: int|
                            0 <= k < i && (#[trigger] seeds@.take(i as int)[k])@ == s;
                        assert(taken[k] == seeds@.take(i as int)[k]);
                    }
                }
            }
        }
        i = i + 1;
    }
    proof {
        assert(seeds@.take(seeds@.len() as int) =~= seeds@);
        assert forall|closed: Set<nat>|
            #![trigger closed_under(epsilons, closed)]
            seed_set.subset_of(closed) && closed_under(epsilons, closed) implies id_set(
                states.view(),
            ).subset_of(closed) by {}
    }

    let mut pending: usize = 0;
    loop
        invariant
            nfa.well_formed(),
            epsilons == nfa.spec_epsilons(),
            count == nfa.spec_state_count(),
            states.well_formed(),
            states.spec_bound() == count,
            pending <= states.view().len(),
            seed_set.subset_of(id_set(states.view())),
            forall|closed: Set<nat>|
                #![trigger closed_under(epsilons, closed)]
                seed_set.subset_of(closed) && closed_under(epsilons, closed) ==> id_set(
                    states.view(),
                ).subset_of(closed),
            forall|k: int, j: int|
                #![trigger states.view()[k], epsilons[states.view()[k]@ as int][j]]
                0 <= k < pending && 0 <= j < epsilons[states.view()[k]@ as int].len() ==> id_set(
                    states.view(),
                ).contains(epsilons[states.view()[k]@ as int][j]@),
        ensures
            states.well_formed(),
            states.spec_bound() == count,
            seed_set.subset_of(id_set(states.view())),
            forall|closed: Set<nat>|
                #![trigger closed_under(epsilons, closed)]
                seed_set.subset_of(closed) && closed_under(epsilons, closed) ==> id_set(
                    states.view(),
                ).subset_of(closed),
            closed_under(epsilons, id_set(states.view())),
        decreases count - pending,
    {
        proof {
            lemma_distinct_len(states.view(), count as nat);
        }
        let state = match states.get(pending) {
            Some(state) => state,
            None => {
                proof {
                    let set = id_set(states.view());
                    assert forall|s: nat, j: int|
                        #![trigger set.contains(s), epsilons[s as int][j]]
                        set.contains(s) && s < epsilons.len() && 0 <= j < epsilons[s as int].len()
                            implies set.contains(epsilons[s as int][j]@) by {
                        let k = choose|k: int|
                            0 <= k < states.view().len() && (#[trigger] states.view()[k])@ == s;
                        assert(epsilons[states.view()[k]@ as int][j] == epsilons[s as int][j]);
                    }
                }
                break;
            },
        };
        let ghost before = states.view();
        let targets = nfa.epsilon_targets(state);
        let mut j: usize = 0;
        while j < targets.len()
            invariant
                nfa.well_formed(),
                epsilons == nfa.spec_epsilons(),
                count == nfa.spec_state_count(),
                targets@ == epsilons[state@ as int],
                state@ < count,
                states.well_formed(),
                states.spec_bound() == count,
                pending < before.len(),
                before[pending as int] == state,
                j <= targets@.len(),
                states.view().len() >= before.len(),
                forall|k: int| 0 <= k < before.len() ==> #[trigger] states.view()[k] == before[k],
                id_set(before).subset_of(id_set(states.view())),
                forall|m: int| 0 <= m < j ==> id_set(states.view()).contains(
                    (#[trigger] targets@[m])@,
                ),
                forall|closed: Set<nat>|
                    #![trigger closed_under(epsilons, closed)]
                    seed_set.subset_of(closed) && closed_under(epsilons, closed) ==> id_set(
                        states.view(),
                    ).subset_of(closed),
            decreases targets@.len() - j,
        {
            let ghost inner = states.view();
            states.insert(targets[j]);
            proof {
                assert forall|closed: Set<nat>|
                    #![trigger closed_under(epsilons, closed)]
                    seed_set.subset_of(closed) && closed_under(epsilons, closed) implies id_set(
                        states.view(),
                    ).subset_of(closed) by {
                    assert(id_set(inner).subset_of(closed));
                    assert(id_set(inner).contains(state@)) by {
                        assert(inner[pending as int] == state);
                    }
                    assert(closed.contains(state@));
                    assert(closed.contains(epsilons[state@ as int][j as int]@));
                }
                assert forall|k: int| 0 <= k < before.len() implies #[trigger] states.view()[k]
                    == before[k] by {
                    assert(states.view()[k] == inner[k]);
                }
            }
            j = j + 1;
        }
        proof {
            let after = states.view();
            assert forall|k: int, m: int|
                #![trigger after[k], epsilons[after[k]@ as int][m]]
                0 <= k < pending + 1 && 0 <= m < epsilons[after[k]@ as int].len() implies id_set(
                    after,
                ).contains(epsilons[after[k]@ as int][m]@) by {
                assert(after[k] == before[k]);
                if k < pending {
                    assert(id_set(before).contains(epsilons[before[k]@ as int][m]@));
                } else {
                    assert(targets@[m] == epsilons[state@ as int][m]);
                }
            }
        }
        pending = pending + 1;
    }
    proof {
        lemma_closure_is_least(epsilons, seed_set, id_set(states.view()));
    }
    states.sort();
}

} // verus!
