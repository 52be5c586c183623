use vstd::prelude::*;

use super::id::StateId;
use super::table::STATE_IDENTIFIERS;
use vstd::set_lib::{lemma_int_range, lemma_len_subset, set_int_range};

verus! {

/// The indexes of the states of `states`.
pub open spec fn id_set(states: Seq<StateId>) -> Set<nat> {
    Set::new(|index: nat| exists|k: int| 0 <= k < states.len() && (#[trigger] states[k])@ == index)
}

/// Whether no state occurs twice in `states`, and each is below `bound`.
pub open spec fn distinct_below(states: Seq<StateId>, bound: nat) -> bool {
    &&& forall|k: int| 0 <= k < states.len() ==> (#[trigger] states[k])@ < bound
    &&& forall|k: int, m: int|
        0 <= k < m < states.len() ==> (#[trigger] states[k])@ != (#[trigger] states[m])@
}

/// A sequence of distinct states below `bound` holds at most `bound` states.
pub proof fn lemma_distinct_len(states: Seq<StateId>, bound: nat)
    requires
        distinct_below(states, bound),
    ensures
        states.len() <= bound,
{
    let ids = states.map_values(|state: StateId| state@ as int);
    assert forall|i: int, j: int|
        0 <= i < ids.len() && 0 <= j < ids.len() && i != j implies ids[i] != ids[j] by {
        if i < j {
            assert(states[i]@ != states[j]@);
        } else {
            assert(states[j]@ != states[i]@);
        }
    }
    ids.unique_seq_to_set();
    assert forall|id: int| #[trigger] ids.to_set().contains(id) implies set_int_range(
        0,
        bound as int,
    ).contains(id) by {
        let k = choose|k: int| 0 <= k < ids.len() && ids[k] == id;
        assert(states[k]@ < bound);
    }
    lemma_int_range(0, bound as int);
    lemma_len_subset(ids.to_set(), set_int_range(0, bound as int));
}

/// The states of `set` below `bound`, in ascending sequence.
pub open spec fn ascending(set: Set<nat>, bound: nat) -> Seq<StateId>
    decreases bound,
{
    if bound == 0 {
        Seq::empty()
    } else {
        let last = (bound - 1) as nat;
        ascending(set, last) + if set.contains(last) {
            seq![StateId(last as u32)]
        } else {
            Seq::empty()
        }
    }
}

/// The sequence of `ascending(set, bound)` is strictly ascending, below
/// `bound`, and holds each state of `set` below `bound`.
pub proof fn lemma_ascending(set: Set<nat>, bound: nat)
    requires
        bound <= STATE_IDENTIFIERS,
    ensures
        forall|k: int|
            0 <= k < ascending(set, bound).len() ==> (#[trigger] ascending(set, bound)[k])@
                < bound && set.contains(ascending(set, bound)[k]@),
        forall|k: int, m: int|
            0 <= k < m < ascending(set, bound).len() ==> (#[trigger] ascending(set, bound)[k])@
                < (#[trigger] ascending(set, bound)[m])@,
        forall|index: nat|
            index < bound && set.contains(index) ==> #[trigger] id_set(ascending(set, bound)).contains(
                index,
            ),
        id_set(ascending(set, bound)) == set.filter(|index: nat| index < bound),
        distinct_below(ascending(set, bound), bound),
    decreases bound,
{
    if bound > 0 {
        let last = (bound - 1) as nat;
        lemma_ascending(set, last);
        let before = ascending(set, last);
        let after = ascending(set, bound);
        assert forall|index: nat|
            index < bound && set.contains(index) implies #[trigger] id_set(after).contains(index) by {
            if index < last {
                assert(id_set(before).contains(index));
                let k = choose|k: int| 0 <= k < before.len() && (#[trigger] before[k])@ == index;
                assert(after[k] == before[k]);
            } else {
                assert(after[before.len() as int]@ == index);
            }
        }
        assert(id_set(after) =~= set.filter(|index: nat| index < bound)) by {
            assert forall|index: nat| #[trigger] id_set(after).contains(index) implies index < bound
                && set.contains(index) by {
                let k = choose|k: int| 0 <= k < after.len() && (#[trigger] after[k])@ == index;
                if k < before.len() {
                    assert(after[k] == before[k]);
                }
            }
        }
    }
}

/// A set of states from one finite automaton.
///
/// The set keeps its members in a vector and uses a membership table to make
/// insertion constant time. It reuses both allocations after a clear.
#[derive(Debug)]
pub struct StateSet {
    members: Vec<StateId>,
    membership: Vec<bool>,
}

impl StateSet {
    /// The states of the set, in their current sequence.
    pub closed spec fn view(&self) -> Seq<StateId> {
        self.members@
    }

    /// The number of the states of the automaton of this set.
    pub closed spec fn spec_bound(&self) -> nat {
        self.membership@.len()
    }

    /// Whether the membership table holds exactly the members.
    pub closed spec fn storage_well_formed(&self) -> bool {
        &&& self.membership@.len() <= STATE_IDENTIFIERS
        &&& forall|index: int|
            0 <= index < self.membership@.len() ==> (#[trigger] self.membership@[index]
                <==> id_set(self.members@).contains(index as nat))
    }

    /// Whether the set is consistent: no state occurs twice, each is in the
    /// automaton, and the membership table agrees.
    pub open spec fn well_formed(&self) -> bool {
        &&& self.storage_well_formed()
        &&& distinct_below(self.view(), self.spec_bound())
    }

    /// Creates an empty set for an automaton with `state_count` states.
    pub fn new(state_count: usize) -> (set: Self)
        requires
            state_count <= STATE_IDENTIFIERS,
        ensures
            set.well_formed(),
            set.view() == Seq::<StateId>::empty(),
            set.spec_bound() == state_count,
    {
        let membership = vec![false; state_count];
        let set = StateSet { members: Vec::new(), membership };
        proof {
            assert forall|index: int| 0 <= index < set.membership@.len() implies (
            #[trigger] set.membership@[index] <==> id_set(set.members@).contains(index as nat)) by {
                assert(!id_set(set.members@).contains(index as nat));
            }
        }
        set
    }

    /// Adds `state` to the set and reports whether it was new.
    pub fn insert(&mut self, state: StateId) -> (added: bool)
        requires
            old(self).well_formed(),
            state@ < old(self).spec_bound(),
        ensures
            final(self).well_formed(),
            final(self).spec_bound() == old(self).spec_bound(),
            added == !id_set(old(self).view()).contains(state@),
            final(self).view() == if added {
                old(self).view().push(state)
            } else {
                old(self).view()
            },
            id_set(final(self).view()) == id_set(old(self).view()).insert(state@),
    {
        let index = state.index();
        if self.membership[index] {
            proof {
                assert(id_set(self.view()) =~= id_set(self.view()).insert(state@));
            }
            return false;
        }
        self.membership.set(index, true);
        self.members.push(state);
        proof {
            let before = old(self).members@;
            let after = self.members@;
            assert(id_set(after) =~= id_set(before).insert(state@)) by {
                assert forall|i: nat| #[trigger] id_set(after).contains(i) implies id_set(
                    before,
                ).insert(state@).contains(i) by {
                    let k = choose|k: int| 0 <= k < after.len() && (#[trigger] after[k])@ == i;
                    if k < before.len() {
                        assert(after[k] == before[k]);
                    }
                }
                assert forall|i: nat| id_set(before).insert(state@).contains(i) implies #[trigger] id_set(
                    after,
                ).contains(i) by {
                    if i == state@ {
                        assert(after[before.len() as int] == state);
                    } else {
                        let k = choose|k: int| 0 <= k < before.len() && (#[trigger] before[k])@ == i;
                        assert(after[k] == before[k]);
                    }
                }
            }
            assert forall|k: int, m: int| 0 <= k < m < after.len() implies (#[trigger] after[k])@
                != (#[trigger] after[m])@ by {
                if m == before.len() {
                    assert(after[k] == before[k]);
                    assert(id_set(before).contains(after[k]@));
                } else {
                    assert(after[k] == before[k] && after[m] == before[m]);
                }
            }
            assert forall|k: int| 0 <= k < after.len() implies (#[trigger] after[k])@ < self.spec_bound() by {
                if k < before.len() {
                    assert(after[k] == before[k]);
                }
            }
        }
        true
    }

    /// Removes all states and keeps the allocated storage.
    pub fn clear(&mut self)
        requires
            old(self).well_formed(),
        ensures
            final(self).well_formed(),
            final(self).spec_bound() == old(self).spec_bound(),
            final(self).view() == Seq::<StateId>::empty(),
    {
        while self.members.len() > 0
            invariant
                self.well_formed(),
                self.spec_bound() == old(self).spec_bound(),
            decreases self.members@.len(),
        {
            let ghost before = self.members@;
            let state = self.members.pop().unwrap();
            proof {
                assert(before.last() == state);
                assert(self.members@ =~= before.drop_last());
            }
            self.membership.set(state.index(), false);
            proof {
                let after = self.members@;
                assert forall|index: int| 0 <= index < self.membership@.len() implies (
                #[trigger] self.membership@[index] <==> id_set(after).contains(index as nat)) by {
                    if id_set(after).contains(index as nat) {
                        let k = choose|k: int|
                            0 <= k < after.len() && (#[trigger] after[k])@ == index as nat;
                        assert(before[k] == after[k]);
                        assert(id_set(before).contains(index as nat));
                        assert(k < before.len() - 1);
                        assert(before[k]@ != before[before.len() - 1]@);
                    }
                    if index != state@ && self.membership@[index] {
                        assert(old(self).spec_bound() == self.membership@.len());
                        assert(id_set(before).contains(index as nat));
                        let k = choose|k: int|
                            0 <= k < before.len() && (#[trigger] before[k])@ == index as nat;
                        assert(k != before.len() - 1);
                        assert(after[k] == before[k]);
                    }
                }
                assert forall|k: int, m: int| 0 <= k < m < after.len() implies (#[trigger] after[k])@
                    != (#[trigger] after[m])@ by {
                    assert(after[k] == before[k] && after[m] == before[m]);
                }
                assert forall|k: int| 0 <= k < after.len() implies (#[trigger] after[k])@
                    < self.spec_bound() by {
                    assert(after[k] == before[k]);
                }
            }
        }
    }

    /// Returns `true` if the set has no state.
    pub fn is_empty(&self) -> (empty: bool)
        ensures
            empty == (self.view().len() == 0),
    {
        self.members.len() == 0
    }

    /// Returns the states in their current sequence.
    pub fn members(&self) -> (members: &[StateId])
        ensures
            members@ == self.view(),
    {
        self.members.as_slice()
    }

    /// Returns the member at `index`, if it exists.
    pub fn get(&self, index: usize) -> (member: Option<StateId>)
        ensures
            index < self.view().len() ==> member == Some(self.view()[index as int]),
            index >= self.view().len() ==> member is None,
    {
        if index < self.members.len() {
            Some(self.members[index])
        } else {
            None
        }
    }

    /// Sorts the states by their identifiers.
    ///
    /// The set reads its membership table from the lowest state up, thus it
    /// sorts in one pass over the states of the automaton.
    pub fn sort(&mut self)
        requires
            old(self).well_formed(),
        ensures
            final(self).well_formed(),
            final(self).spec_bound() == old(self).spec_bound(),
            final(self).view() == ascending(id_set(old(self).view()), old(self).spec_bound()),
            id_set(final(self).view()) == id_set(old(self).view()),
    {
        let ghost set = id_set(self.members@);
        let ghost bound = self.spec_bound();
        self.members.clear();
        let count = self.membership.len();
        let mut index: usize = 0;
        while index < count
            invariant
                count == bound,
                bound <= STATE_IDENTIFIERS,
                index <= count,
                self.membership@ == old(self).membership@,
                self.membership@.len() == count,
                forall|i: int|
                    0 <= i < count ==> (#[trigger] self.membership@[i] <==> set.contains(i as nat)),
                self.members@ == ascending(set, index as nat),
            decreases count - index,
        {
            if self.membership[index] {
                self.members.push(StateId::new(index));
            }
            index = index + 1;
            proof {
                assert(self.members@ =~= ascending(set, index as nat));
            }
        }
        proof {
            lemma_ascending(set, bound);
            assert forall|i: nat| #[trigger] set.contains(i) implies i < bound by {
                let k = choose|k: int| 0 <= k < old(self).members@.len() && (
                #[trigger] old(self).members@[k])@ == i;
            }
            assert(set.filter(|i: nat| i < bound) =~= set);
            let after = self.members@;
            assert forall|i: int| 0 <= i < self.membership@.len() implies (
            #[trigger] self.membership@[i] <==> id_set(after).contains(i as nat)) by {}
        }
    }
}

} // verus!
