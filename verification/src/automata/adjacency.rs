use vstd::prelude::*;

use super::error::BuildError;
use super::id::StateId;

verus! {

/// The items of `entries` whose state is `state`, in the sequence in which
/// they arrived.
pub open spec fn group_of<T>(entries: Seq<(StateId, T)>, state: int) -> Seq<T>
    decreases entries.len(),
{
    if entries.len() == 0 {
        Seq::empty()
    } else {
        let last = entries.last();
        group_of(entries.drop_last(), state) + if last.0@ == state {
            seq![last.1]
        } else {
            Seq::empty()
        }
    }
}

/// The number of the items of `entries` whose state is below `bound`.
pub open spec fn count_below<T>(entries: Seq<(StateId, T)>, bound: int) -> int
    decreases entries.len(),
{
    if entries.len() == 0 {
        0
    } else {
        count_below(entries.drop_last(), bound) + if entries.last().0@ < bound {
            1int
        } else {
            0int
        }
    }
}

/// The items of each group, the items of the first group first.
pub open spec fn flatten<T>(groups: Seq<Seq<T>>) -> Seq<T>
    decreases groups.len(),
{
    if groups.len() == 0 {
        Seq::empty()
    } else {
        flatten(groups.drop_last()) + groups.last()
    }
}

/// Whether each item of `entries` belongs to a state below `state_count`.
pub open spec fn sources_below<T>(entries: Seq<(StateId, T)>, state_count: int) -> bool {
    forall|i: int| 0 <= i < entries.len() ==> (#[trigger] entries[i]).0@ < state_count
}

proof fn lemma_group_len<T>(entries: Seq<(StateId, T)>, state: int)
    ensures
        group_of(entries, state).len() <= entries.len(),
        group_of(entries, state).len() == count_below(entries, state + 1) - count_below(
            entries,
            state,
        ),
    decreases entries.len(),
{
    if entries.len() > 0 {
        lemma_group_len(entries.drop_last(), state);
    }
}

proof fn lemma_count_bounds<T>(entries: Seq<(StateId, T)>, low: int, high: int)
    requires
        low <= high,
    ensures
        0 <= count_below(entries, low) <= count_below(entries, high) <= entries.len(),
        low <= 0 ==> count_below(entries, low) == 0,
    decreases entries.len(),
{
    if entries.len() > 0 {
        lemma_count_bounds(entries.drop_last(), low, high);
    }
}

proof fn lemma_count_all<T>(entries: Seq<(StateId, T)>, state_count: int)
    requires
        sources_below(entries, state_count),
    ensures
        count_below(entries, state_count) == entries.len(),
    decreases entries.len(),
{
    if entries.len() > 0 {
        let prefix = entries.drop_last();
        assert forall|i: int| 0 <= i < prefix.len() implies (#[trigger] prefix[i]).0@
            < state_count by {
            assert(prefix[i] == entries[i]);
        }
        lemma_count_all(prefix, state_count);
        assert(entries.last() == entries[entries.len() - 1]);
    }
}

/// The groups of the states below `state_count` hold, together, each item of
/// `entries` that belongs to such a state.
pub proof fn lemma_groups_len<T>(entries: Seq<(StateId, T)>, state_count: int)
    requires
        0 <= state_count,
        sources_below(entries, state_count),
    ensures
        flatten(Seq::new(state_count as nat, |state: int| group_of(entries, state))).len()
            == entries.len(),
{
    lemma_groups_prefix_len(entries, state_count);
    lemma_count_all(entries, state_count);
}

proof fn lemma_groups_prefix_len<T>(entries: Seq<(StateId, T)>, count: int)
    requires
        0 <= count,
    ensures
        flatten(Seq::new(count as nat, |state: int| group_of(entries, state))).len()
            == count_below(entries, count),
    decreases count,
{
    let groups = Seq::new(count as nat, |state: int| group_of(entries, state));
    if count == 0 {
        lemma_count_bounds(entries, 0, 0);
    } else {
        lemma_groups_prefix_len(entries, count - 1);
        assert(groups.drop_last() =~= Seq::new((count - 1) as nat, |state: int| group_of(entries, state)));
        lemma_group_len(entries, count - 1);
    }
}

/// A state that no item of `entries` belongs to has an empty group.
pub proof fn lemma_group_empty<T>(entries: Seq<(StateId, T)>, state: int)
    requires
        forall|i: int| 0 <= i < entries.len() ==> (#[trigger] entries[i]).0@ != state,
    ensures
        group_of(entries, state).len() == 0,
    decreases entries.len(),
{
    if entries.len() > 0 {
        let prefix = entries.drop_last();
        assert forall|i: int| 0 <= i < prefix.len() implies (#[trigger] prefix[i]).0@ != state by {
            assert(prefix[i] == entries[i]);
        }
        lemma_group_empty(prefix, state);
        assert(entries.last() == entries[entries.len() - 1]);
    }
}

pub proof fn lemma_group_push<T>(entries: Seq<(StateId, T)>, entry: (StateId, T), state: int)
    ensures
        group_of(entries.push(entry), state) == group_of(entries, state) + if entry.0@
            == state {
            seq![entry.1]
        } else {
            Seq::empty()
        },
{
    assert(entries.push(entry).drop_last() =~= entries);
}

proof fn lemma_group_take<T>(entries: Seq<(StateId, T)>, k: int, state: int)
    requires
        0 <= k <= entries.len(),
    ensures
        group_of(entries.take(k), state).len() <= group_of(entries, state).len(),
        forall|t: int|
            0 <= t < group_of(entries.take(k), state).len() ==> group_of(entries.take(k), state)[t]
                == group_of(entries, state)[t],
    decreases entries.len() - k,
{
    if k < entries.len() {
        lemma_group_take(entries, k + 1, state);
        assert(entries.take(k + 1) =~= entries.take(k).push(entries[k]));
        lemma_group_push(entries.take(k), entries[k], state);
    } else {
        assert(entries.take(k) =~= entries);
    }
}

/// Finds the state whose slots hold `slot`, below `bound`.
proof fn lemma_slot_owner<T>(entries: Seq<(StateId, T)>, bound: int, slot: int) -> (state: int)
    requires
        0 <= slot < count_below(entries, bound),
        0 < bound,
    ensures
        0 <= state < bound,
        count_below(entries, state) <= slot < count_below(entries, state + 1),
    decreases bound,
{
    lemma_count_bounds(entries, 0, 0);
    if count_below(entries, bound - 1) <= slot {
        bound - 1
    } else {
        lemma_slot_owner(entries, bound - 1, slot)
    }
}

/// Stores one group of edges for each state.
///
/// Each group is a slice in one shared edge allocation.
#[derive(Debug, PartialEq, Eq)]
pub struct AdjacencyList<T> {
    offsets: Vec<u32>,
    edges: Vec<T>,
}

impl<T> AdjacencyList<T> {
    #[verifier::type_invariant]
    closed spec fn well_formed(self) -> bool {
        &&& self.offsets.len() >= 1
        &&& self.offsets[0] == 0
        &&& self.offsets@.last() == self.edges.len()
        &&& forall|i: int, j: int|
            0 <= i <= j < self.offsets.len() ==> self.offsets[i] <= self.offsets[j]
    }

    /// The groups of the list, one for each state.
    pub closed spec fn view(&self) -> Seq<Seq<T>> {
        Seq::new(
            (self.offsets.len() - 1) as nat,
            |state: int|
                self.edges@.subrange(self.offsets[state] as int, self.offsets[state + 1] as int),
        )
    }

    /// Returns the edges from `state`, or `None` if the list has no such state.
    pub fn get(&self, state: StateId) -> (group: Option<&[T]>)
        ensures
            state@ < self.view().len() <==> group is Some,
            group matches Some(items) ==> items@ == self.view()[state@ as int],
    {
        proof {
            use_type_invariant(self);
        }
        let index = state.index();
        if index >= self.offsets.len() - 1 {
            return None;
        }
        let start = self.offsets[index] as usize;
        let end = self.offsets[index + 1] as usize;
        Some(vstd::slice::slice_subrange(self.edges.as_slice(), start, end))
    }

    /// Returns the number of states in the list.
    pub fn state_count(&self) -> (count: usize)
        ensures
            count == self.view().len(),
    {
        proof {
            use_type_invariant(self);
        }
        self.offsets.len() - 1
    }

    /// Returns all edges in state sequence.
    pub fn edges(&self) -> (edges: &[T])
        ensures
            edges@ == flatten(self.view()),
    {
        proof {
            use_type_invariant(self);
            self.lemma_flatten_prefix((self.offsets.len() - 1) as int);
            assert(self.view().take((self.offsets.len() - 1) as int) =~= self.view());
            assert(self.edges@.subrange(0, self.edges@.len() as int) =~= self.edges@);
        }
        self.edges.as_slice()
    }

    proof fn lemma_flatten_prefix(&self, count: int)
        requires
            self.well_formed(),
            0 <= count < self.offsets.len(),
        ensures
            flatten(self.view().take(count)) == self.edges@.subrange(0, self.offsets[count] as int),
        decreases count,
    {
        if count == 0 {
            assert(self.edges@.subrange(0, 0) =~= Seq::<T>::empty());
        } else {
            self.lemma_flatten_prefix(count - 1);
            let groups = self.view().take(count);
            assert(groups.drop_last() =~= self.view().take(count - 1));
            assert(self.edges@.subrange(0, self.offsets[count] as int) =~= self.edges@.subrange(
                0,
                self.offsets[count - 1] as int,
            ) + self.view()[count - 1]);
        }
    }

    /// Creates a list from the offset at which each group starts, and the
    /// edges of each group, the first group first.
    ///
    /// The offsets end with the number of the edges.
    pub fn new(offsets: Vec<u32>, edges: Vec<T>) -> (list: Self)
        requires
            offsets@.len() >= 1,
            offsets@[0] == 0,
            offsets@.last() == edges@.len(),
            forall|i: int, j: int| 0 <= i <= j < offsets@.len() ==> offsets@[i] <= offsets@[j],
        ensures
            list.view().len() == offsets@.len() - 1,
            forall|state: int|
                0 <= state < list.view().len() ==> #[trigger] list.view()[state] == edges@.subrange(
                    offsets@[state] as int,
                    offsets@[state + 1] as int,
                ),
            flatten(list.view()) == edges@,
            flatten(list.view()).len() <= u32::MAX,
    {
        let list = AdjacencyList { offsets, edges };
        proof {
            list.lemma_flatten_prefix((list.offsets.len() - 1) as int);
            assert(list.view().take((list.offsets.len() - 1) as int) =~= list.view());
            assert(list.edges@.subrange(0, list.edges@.len() as int) =~= list.edges@);
        }
        list
    }
}

impl<T> Default for AdjacencyList<T> {
    /// Returns the list of no group.
    fn default() -> (list: Self)
        ensures
            list.view().len() == 0,
    {
        let offsets = vec![0u32];
        AdjacencyList { offsets, edges: Vec::new() }
    }
}

/// Collects edges before it builds an [`AdjacencyList`].
#[derive(Debug)]
pub struct AdjacencyListBuilder<T> {
    edges: Vec<(StateId, T)>,
    capacity: u32,
}

impl<T> AdjacencyListBuilder<T> {
    /// The edges that the builder holds, each with its source state, in the
    /// sequence in which they arrived.
    pub closed spec fn view(&self) -> Seq<(StateId, T)> {
        self.edges@
    }

    /// The maximum number of edges that a build accepts.
    pub closed spec fn capacity(&self) -> nat {
        self.capacity as nat
    }

    /// Creates an empty builder.
    pub fn new() -> (builder: Self)
        ensures
            builder.view() == Seq::<(StateId, T)>::empty(),
            builder.capacity() == u32::MAX,
    {
        AdjacencyListBuilder { edges: Vec::new(), capacity: 0xFFFF_FFFF }
    }

    /// Creates an empty builder that builds at most `capacity` edges.
    pub fn with_capacity(capacity: usize) -> (builder: Self)
        requires
            capacity <= u32::MAX,
        ensures
            builder.view() == Seq::<(StateId, T)>::empty(),
            builder.capacity() == capacity,
    {
        AdjacencyListBuilder { edges: Vec::new(), capacity: capacity as u32 }
    }

    /// Adds an outgoing edge to `state`.
    pub fn add(&mut self, state: StateId, edge: T)
        ensures
            final(self).view() == old(self).view().push((state, edge)),
            final(self).capacity() == old(self).capacity(),
    {
        self.edges.push((state, edge));
    }

    /// Builds a list with `state_count` groups.
    ///
    /// The group of a state holds the edges of that state in the sequence in
    /// which they arrived.
    pub fn build(self, state_count: usize) -> (result: Result<AdjacencyList<T>, BuildError>)
        requires
            self.view().len() <= self.capacity() ==> sources_below(self.view(), state_count as int),
        ensures
            self.view().len() > self.capacity() <==> result is Err,
            result matches Err(error) ==> error == (BuildError::TooManyTransitions {
                capacity: self.capacity() as usize,
            }),
            result matches Ok(list) ==> {
                &&& list.view().len() == state_count
                &&& flatten(list.view()).len() == self.view().len()
                &&& forall|state: int|
                    0 <= state < state_count ==> #[trigger] list.view()[state] == group_of(
                        self.view(),
                        state,
                    )
            },
    {
        let AdjacencyListBuilder { edges: mut entries, capacity } = self;
        let capacity = capacity as usize;
        if entries.len() > capacity {
            return Err(BuildError::TooManyTransitions { capacity });
        }
        proof {
            assert(sources_below(entries@, state_count as int));
        }
        let ghost all = entries@;
        let total = entries.len();

        // Count the edges of each state.
        let mut offsets: Vec<u32> = Vec::new();
        offsets.push(0);
        let mut i: usize = 0;
        while i < state_count
            invariant
                i <= state_count,
                offsets@.len() == i + 1,
                forall|j: int| 0 <= j <= i ==> offsets@[j] == 0,
            decreases state_count - i,
        {
            offsets.push(0);
            i = i + 1;
        }
        let group_bound = offsets.len();
        let mut k: usize = 0;
        while k < total
            invariant
                all == entries@,
                total == all.len(),
                total <= u32::MAX,
                k <= total,
                offsets@.len() == state_count + 1,
                sources_below(all, state_count as int),
                offsets@[0] == 0,
                forall|j: int|
                    1 <= j <= state_count ==> #[trigger] offsets@[j] == group_of(
                        all.take(k as int),
                        j - 1,
                    ).len(),
            decreases total - k,
        {
            let state = entries[k].0.index();
            proof {
                assert(all.take(k + 1) =~= all.take(k as int).push(all[k as int]));
                assert forall|j: int| 0 <= j < state_count + 1 implies group_of(
                    all.take(k + 1),
                    j,
                ).len() == group_of(all.take(k as int), j).len() + if all[k as int].0@ == j {
                    1int
                } else {
                    0int
                } by {
                    lemma_group_push(all.take(k as int), all[k as int], j);
                }
                lemma_group_len(all.take(k as int), state as int);
                assert(all.take(k as int).len() == k);
            }
            let count = offsets[state + 1];
            offsets.set(state + 1, count + 1);
            k = k + 1;
        }
        proof {
            assert(all.take(total as int) =~= all);
            lemma_count_bounds(all, 0, 0);
        }

        // Add up the counts, thus each state starts after the states below it.
        let mut i: usize = 1;
        while i < group_bound
            invariant
                group_bound == state_count + 1,
                total == all.len(),
                total <= u32::MAX,
                1 <= i <= state_count + 1,
                offsets@.len() == state_count + 1,
                forall|j: int| 0 <= j < i ==> #[trigger] offsets@[j] == count_below(all, j),
                forall|j: int|
                    i <= j <= state_count ==> #[trigger] offsets@[j] == group_of(all, j - 1).len(),
            decreases state_count + 1 - i,
        {
            proof {
                lemma_group_len(all, i - 1);
                lemma_count_bounds(all, i as int, i as int);
                lemma_count_bounds(all, 0, 0);
            }
            let sum = offsets[i] + offsets[i - 1];
            offsets.set(i, sum);
            i = i + 1;
        }
        proof {
            lemma_count_bounds(all, 0, 0);
            lemma_count_all(all, state_count as int);
        }

        // Place each edge, the last one first, at the end of the free slots of its state.
        let mut ends: Vec<u32> = Vec::new();
        let mut i: usize = 0;
        while i < state_count
            invariant
                i <= state_count,
                ends@.len() == i,
                offsets@.len() == state_count + 1,
                forall|j: int| 0 <= j < i ==> ends@[j] == offsets@[j + 1],
            decreases state_count - i,
        {
            ends.push(offsets[i + 1]);
            i = i + 1;
        }
        let mut slots: Vec<Option<T>> = Vec::new();
        let mut i: usize = 0;
        while i < total
            invariant
                i <= total,
                slots@.len() == i,
                forall|j: int| 0 <= j < i ==> slots@[j] is None,
            decreases total - i,
        {
            slots.push(None);
            i = i + 1;
        }
        proof {
            assert(all.take(total as int) =~= all);
            assert forall|s: int| 0 <= s < state_count implies #[trigger] ends@[s] == count_below(
                all,
                s,
            ) + group_of(entries@, s).len() by {
                lemma_group_len(all, s);
            }
        }
        while entries.len() > 0
            invariant
                total == all.len(),
                entries@ == all.take(entries@.len() as int),
                entries@.len() <= total,
                slots@.len() == total,
                ends@.len() == state_count,
                offsets@.len() == state_count + 1,
                sources_below(all, state_count as int),
                forall|j: int| 0 <= j <= state_count ==> #[trigger] offsets@[j] == count_below(all, j),
                forall|s: int|
                    0 <= s < state_count ==> #[trigger] ends@[s] == count_below(all, s) + group_of(
                        entries@,
                        s,
                    ).len(),
                forall|s: int, t: int|
                    0 <= s < state_count && group_of(entries@, s).len() <= t < group_of(all, s).len()
                        ==> slots@[count_below(all, s) + t] == Some(#[trigger] group_of(all, s)[t]),
            decreases entries.len(),
        {
            let ghost before = entries@;
            let ghost slots_before = slots@;
            let (state, edge) = entries.pop().unwrap();
            let s = state.index();
            proof {
                let k = before.len() - 1;
                assert(before.last() == all[k]);
                assert(before.drop_last() =~= entries@);
                assert(entries@ =~= all.take(k));
                assert(before =~= entries@.push((state, edge)));
                assert forall|j: int| 0 <= j < state_count implies group_of(before, j)
                    == group_of(entries@, j) + if state@ == j {
                    seq![edge]
                } else {
                    Seq::empty()
                } by {
                    lemma_group_push(entries@, (state, edge), j);
                }
                lemma_group_take(all, before.len() as int, s as int);
                lemma_group_len(all, s as int);
                lemma_count_bounds(all, s as int, s as int);
            }
            proof {
                assert(group_of(before, s as int).len() == group_of(entries@, s as int).len() + 1);
                lemma_count_bounds(all, s as int + 1, state_count as int);
                assert(ends@[s as int] == count_below(all, s as int) + group_of(before, s as int).len());
                assert(group_of(before, s as int).len() <= group_of(all, s as int).len());
            }
            let position = ends[s] - 1;
            ends.set(s, position);
            let ghost t = group_of(entries@, s as int).len() as int;
            proof {
                assert(group_of(before, s as int)[t] == edge);
                assert(group_of(all, s as int)[t] == edge);
                assert(position == count_below(all, s as int) + t);
            }
            slots.set(position as usize, Some(edge));
            proof {
                assert(slots@ == slots_before.update(position as int, Some(edge)));
                assert(slots_before.len() == total);
                assert forall|s2: int, t2: int|
                    0 <= s2 < state_count && group_of(entries@, s2).len() <= t2 < group_of(
                        all,
                        s2,
                    ).len() implies slots@[count_below(all, s2) + t2] == Some(
                    #[trigger] group_of(all, s2)[t2],
                ) by {
                    lemma_group_len(all, s2);
                    lemma_count_bounds(all, s2, s2 + 1);
                    if s2 == s {
                        if t2 != t {
                            assert(slots@[count_below(all, s2) + t2] == slots_before[count_below(
                                all,
                                s2,
                            ) + t2]);
                        }
                    } else if s2 < s {
                        lemma_count_bounds(all, s2 + 1, s as int);
                        let index = count_below(all, s2) + t2;
                        assert(t2 < count_below(all, s2 + 1) - count_below(all, s2));
                        assert(index < count_below(all, s2 + 1));
                        assert(count_below(all, s2 + 1) <= count_below(all, s as int));
                        assert(0 <= index < position);
                        assert(slots@[index] == slots_before[index]);
                    } else {
                        lemma_count_bounds(all, s + 1, s2);
                        let index = count_below(all, s2) + t2;
                        assert(position < index < total);
                        assert(slots@[index] == slots_before[index]);
                    }
                }
            }
        }

        // Each slot now holds its edge. Take them out, the last one first.
        proof {
            assert forall|j: int| 0 <= j < total implies #[trigger] slots@[j] is Some by {
                let s = lemma_slot_owner(all, state_count as int, j);
                lemma_count_bounds(all, s, s);
                lemma_group_len(all, s);
                assert(group_of(entries@, s) =~= Seq::<T>::empty());
                let t = j - count_below(all, s);
                assert(slots@[count_below(all, s) + t] == Some(group_of(all, s)[t]));
            }
        }
        let ghost placed = slots@;
        let mut reversed: Vec<T> = Vec::new();
        while slots.len() > 0
            invariant
                placed.len() == total,
                slots@ == placed.take(slots@.len() as int),
                forall|j: int| 0 <= j < total ==> #[trigger] placed[j] is Some,
                slots@.len() + reversed@.len() == total,
                forall|j: int|
                    0 <= j < reversed@.len() ==> Some(#[trigger] reversed@[j]) == placed[total - 1
                        - j],
            decreases slots.len(),
        {
            let ghost before = slots@;
            let slot = slots.pop().unwrap();
            proof {
                assert(slots@ =~= placed.take(slots@.len() as int));
                assert(slot == placed[slots@.len() as int]);
            }
            match slot {
                Some(edge) => reversed.push(edge),
                None => {
                    proof {
                        assert(false);
                    }
                },
            }
        }
        let mut edges: Vec<T> = Vec::new();
        while reversed.len() > 0
            invariant
                reversed@.len() + edges@.len() == total,
                forall|j: int|
                    0 <= j < reversed@.len() ==> Some(#[trigger] reversed@[j]) == placed[total - 1
                        - j],
                forall|j: int| 0 <= j < edges@.len() ==> Some(#[trigger] edges@[j]) == placed[j],
            decreases reversed.len(),
        {
            let edge = reversed.pop().unwrap();
            edges.push(edge);
        }

        proof {
            lemma_count_bounds(all, 0, 0);
            assert forall|i: int, j: int|
                0 <= i <= j < offsets@.len() implies offsets@[i] <= offsets@[j] by {
                lemma_count_bounds(all, i, j);
            }
        }
        let list = AdjacencyList { offsets, edges };
        proof {
            assert forall|state: int| 0 <= state < state_count implies #[trigger] list.view()[state]
                == group_of(all, state) by {
                lemma_group_len(all, state);
                lemma_count_bounds(all, state, state + 1);
                assert(group_of(entries@, state) =~= Seq::<T>::empty());
                assert(list.view()[state] =~= group_of(all, state)) by {
                    assert forall|t: int| 0 <= t < group_of(all, state).len() implies list.view()[state][t]
                        == group_of(all, state)[t] by {
                        assert(placed[count_below(all, state) + t] == Some(group_of(all, state)[t]));
                    }
                }
            }
            list.lemma_flatten_prefix(state_count as int);
            assert(list.view().take(state_count as int) =~= list.view());
            assert(list.edges@.subrange(0, list.edges@.len() as int) =~= list.edges@);
        }
        Ok(list)
    }
}

} // verus!
