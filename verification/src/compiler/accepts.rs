use vstd::prelude::*;

use crate::automata::StateId;
use crate::automata::minimize::represented;

verus! {

/// The value of the first mark of `marks` that names `state`, or `None` if no
/// mark names it.
pub open spec fn mark_of<A>(marks: Seq<(StateId, A)>, state: int) -> Option<A>
    decreases marks.len(),
{
    if marks.len() == 0 {
        None
    } else if marks[0].0@ == state {
        Some(marks[0].1)
    } else {
        mark_of(marks.drop_first(), state)
    }
}

/// The accept of each state of an automaton.
///
/// An automaton knows which states accept. It does not know what an accept
/// means. This table holds the meaning: the accept of the rule that the lexer
/// matched at that state.
///
/// A lexicon gives its rules in the sequence of precedence. Thus the lowest
/// accept of the states of a scan selects the rule of the highest precedence
/// of the rules that match.
#[derive(Debug, Clone, PartialEq, Eq)]
pub struct Accepts<A> {
    accepts: Vec<Option<A>>,
}

impl<A> Accepts<A> {
    /// The accept of each state, `None` for a state that does not accept.
    pub closed spec fn spec_accepts(&self) -> Seq<Option<A>> {
        self.accepts@
    }

    /// Creates a table of `count` states, in which each state of `marks`
    /// accepts.
    ///
    /// Each state of `marks` is below `count`, and no two marks name the same
    /// state.
    pub fn new(count: usize, marks: Vec<(StateId, A)>) -> (table: Self)
        requires
            forall|i: int| 0 <= i < marks@.len() ==> (#[trigger] marks@[i]).0@ < count,
            forall|i: int, j: int|
                0 <= i < j < marks@.len() ==> (#[trigger] marks@[i]).0 != (#[trigger] marks@[j]).0,
        ensures
            table.spec_accepts() == Seq::new(count as nat, |state: int| mark_of(marks@, state)),
    {
        let mut accepts: Vec<Option<A>> = Vec::new();
        while accepts.len() < count
            invariant
                accepts@.len() <= count,
                forall|state: int| 0 <= state < accepts@.len() ==> (#[trigger] accepts@[state]) is None,
            decreases count - accepts@.len(),
        {
            accepts.push(None);
        }
        let ghost all = marks@;
        let mut marks = marks;
        proof {
            assert forall|state: int| 0 <= state < count implies accepts@[state] == mark_of(
                all.skip(all.len() as int),
                state,
            ) by {
                assert(all.skip(all.len() as int).len() == 0);
            }
        }
        while marks.len() > 0
            invariant
                forall|i: int| 0 <= i < all.len() ==> (#[trigger] all[i]).0@ < count,
                marks@.len() <= all.len(),
                marks@ == all.take(marks@.len() as int),
                accepts@.len() == count,
                forall|state: int|
                    0 <= state < count ==> #[trigger] accepts@[state] == mark_of(
                        all.skip(marks@.len() as int),
                        state,
                    ),
            decreases marks@.len(),
        {
            let ghost remaining = marks@.len() as int;
            let last = marks.pop();
            match last {
                Some((state, accept)) => {
                    proof {
                        assert(all[remaining - 1] == (state, accept));
                        assert(all.skip(remaining - 1).drop_first() =~= all.skip(remaining));
                        assert(all.skip(remaining - 1)[0] == (state, accept));
                        assert(marks@ =~= all.take(remaining - 1));
                    }
                    accepts.set(state.index(), Some(accept));
                },
                None => {},
            }
        }
        proof {
            assert(all.skip(0) =~= all);
            assert(accepts@ =~= Seq::new(count as nat, |state: int| mark_of(all, state)));
        }
        Accepts { accepts }
    }

    /// Returns the accept of the state that `id` refers to, or `None` if the
    /// state does not accept.
    pub fn get(&self, id: StateId) -> (accept: Option<&A>)
        requires
            id@ < self.spec_accepts().len(),
        ensures
            accept == match self.spec_accepts()[id@ as int] {
                Some(value) => Some(&value),
                None => None::<&A>,
            },
    {
        match &self.accepts[id.index()] {
            Some(value) => Some(value),
            None => None,
        }
    }

    /// Returns the number of the states in the table.
    pub fn state_count(&self) -> (count: usize)
        ensures
            count == self.spec_accepts().len(),
    {
        self.accepts.len()
    }
}

impl<A: Copy> Accepts<A> {
    /// Returns the accepts of the automaton that minimization made, in a table
    /// of `count` states.
    ///
    /// `states` holds the state of that automaton that each state of this
    /// table belongs to, as [`Minimization`](crate::automata::Minimization)
    /// gives it. Each state of the result stands for at least one state, and
    /// two states that joined hold the same accept. Thus each state of the
    /// result takes the accept of the states that it stands for.
    pub fn minimized(&self, states: &[StateId], count: usize) -> (table: Self)
        requires
            states@.len() == self.spec_accepts().len(),
            forall|state: int| 0 <= state < states@.len() ==> (#[trigger] states@[state])@ < count,
            forall|block: int| 0 <= block < count ==> #[trigger] represented(states@, block),
            forall|first: int, second: int|
                0 <= first < states@.len() && 0 <= second < states@.len() && #[trigger] states@[first]
                    == #[trigger] states@[second] ==> self.spec_accepts()[first]
                    == self.spec_accepts()[second],
        ensures
            table.spec_accepts().len() == count,
            forall|state: int|
                0 <= state < states@.len() ==> table.spec_accepts()[(#[trigger] states@[state])@ as int]
                    == self.spec_accepts()[state],
    {
        let mut joined: Vec<Option<Option<A>>> = Vec::new();
        while joined.len() < count
            invariant
                joined@.len() <= count,
                forall|block: int| 0 <= block < joined@.len() ==> (#[trigger] joined@[block]) is None,
            decreases count - joined@.len(),
        {
            joined.push(None);
        }
        let mut index: usize = 0;
        while index < states.len()
            invariant
                states@.len() == self.spec_accepts().len(),
                forall|state: int| 0 <= state < states@.len() ==> (#[trigger] states@[state])@ < count,
                forall|first: int, second: int|
                    0 <= first < states@.len() && 0 <= second < states@.len() && #[trigger] states@[first]
                        == #[trigger] states@[second] ==> self.spec_accepts()[first]
                        == self.spec_accepts()[second],
                index <= states@.len(),
                joined@.len() == count,
                forall|state: int|
                    0 <= state < index ==> joined@[(#[trigger] states@[state])@ as int] == Some(
                        self.spec_accepts()[state],
                    ),
                forall|block: int|
                    0 <= block < count && (#[trigger] joined@[block]) is Some ==> exists|state: int|
                        0 <= state < index && states@[state]@ == block,
            decreases states@.len() - index,
        {
            let block = states[index].index();
            if joined[block].is_none() {
                let accept = self.accepts[index];
                joined.set(block, Some(accept));
            }
            proof {
                assert forall|state: int|
                    0 <= state < index + 1 implies joined@[(#[trigger] states@[state])@ as int]
                    == Some(self.spec_accepts()[state]) by {
                    if states@[state]@ == block {
                        assert(states@[state] == states@[index as int]);
                    }
                }
                assert forall|other: int|
                    0 <= other < count && (#[trigger] joined@[other]) is Some implies exists|state: int|
                    0 <= state < index + 1 && states@[state]@ == other by {
                    if other == block {
                        assert(states@[index as int]@ == other);
                    }
                }
            }
            index = index + 1;
        }
        let mut accepts: Vec<Option<A>> = Vec::new();
        let mut block: usize = 0;
        while block < count
            invariant
                states@.len() == self.spec_accepts().len(),
                forall|b: int| 0 <= b < count ==> #[trigger] represented(states@, b),
                forall|state: int| 0 <= state < states@.len() ==> (#[trigger] states@[state])@ < count,
                forall|state: int|
                    0 <= state < states@.len() ==> joined@[(#[trigger] states@[state])@ as int] == Some(
                        self.spec_accepts()[state],
                    ),
                joined@.len() == count,
                block <= count,
                accepts@.len() == block,
                forall|b: int| 0 <= b < block ==> Some(#[trigger] accepts@[b]) == joined@[b],
            decreases count - block,
        {
            proof {
                assert(represented(states@, block as int));
                let state = choose|state: int| 0 <= state < states@.len() && states@[state]@ == block;
                assert(joined@[states@[state]@ as int] is Some);
            }
            accepts.push(joined[block].unwrap());
            block = block + 1;
        }
        proof {
            assert forall|state: int|
                0 <= state < states@.len() implies accepts@[(#[trigger] states@[state])@ as int]
                == self.spec_accepts()[state] by {
                assert(Some(accepts@[states@[state]@ as int]) == joined@[states@[state]@ as int]);
            }
        }
        Accepts { accepts }
    }
}

/// An accept that orders the rules of a lexicon: the lower accept wins a tie.
pub trait Rank: Copy {
    /// The position of the accept in the order.
    spec fn spec_rank(&self) -> int;

    /// Returns whether this accept comes before `other`.
    fn precedes(&self, other: &Self) -> (earlier: bool)
        ensures
            earlier == (self.spec_rank() < other.spec_rank()),
    ;
}

impl Rank for u16 {
    open spec fn spec_rank(&self) -> int {
        *self as int
    }

    fn precedes(&self, other: &Self) -> (earlier: bool) {
        *self < *other
    }
}

impl Rank for u32 {
    open spec fn spec_rank(&self) -> int {
        *self as int
    }

    fn precedes(&self, other: &Self) -> (earlier: bool) {
        *self < *other
    }
}

impl Rank for usize {
    open spec fn spec_rank(&self) -> int {
        *self as int
    }

    fn precedes(&self, other: &Self) -> (earlier: bool) {
        *self < *other
    }
}

/// Whether `lowest` is the lowest accept of the states of `states` in
/// `accepts`, or `None` where no state of `states` accepts.
pub open spec fn is_lowest<A: Rank>(
    accepts: Seq<Option<A>>,
    states: Seq<StateId>,
    lowest: Option<A>,
) -> bool {
    match lowest {
        None => forall|k: int| 0 <= k < states.len() ==> (#[trigger] accepts[states[k]@ as int]) is None,
        Some(value) => {
            &&& exists|k: int| 0 <= k < states.len() && #[trigger] accepts[states[k]@ as int] == Some(value)
            &&& forall|k: int|
                0 <= k < states.len() && (#[trigger] accepts[states[k]@ as int]) is Some
                    ==> value.spec_rank() <= accepts[states[k]@ as int]->Some_0.spec_rank()
        },
    }
}

impl<A: Rank> Accepts<A> {
    /// Returns the lowest accept of the states in `states`, or `None` if no
    /// state of `states` accepts.
    ///
    /// The rules of a lexicon are in the sequence of precedence, thus the
    /// lowest accept wins a tie.
    pub fn lowest(&self, states: &[StateId]) -> (lowest: Option<A>)
        requires
            forall|k: int| 0 <= k < states@.len() ==> (#[trigger] states@[k])@ < self.spec_accepts().len(),
        ensures
            is_lowest(self.spec_accepts(), states@, lowest),
    {
        let mut lowest: Option<A> = None;
        let mut k: usize = 0;
        while k < states.len()
            invariant
                forall|i: int| 0 <= i < states@.len() ==> (#[trigger] states@[i])@ < self.spec_accepts().len(),
                k <= states@.len(),
                is_lowest(self.spec_accepts(), states@.take(k as int), lowest),
            decreases states@.len() - k,
        {
            let ghost before = states@.take(k as int);
            let ghost after = states@.take(k + 1);
            let ghost prior = lowest;
            proof {
                assert forall|i: int| 0 <= i < before.len() implies #[trigger] before[i] == after[i] by {}
                assert(after[k as int] == states@[k as int]);
            }
            match self.accepts[states[k].index()] {
                Some(value) => {
                    let replace = match lowest {
                        Some(best) => value.precedes(&best),
                        None => true,
                    };
                    if replace {
                        lowest = Some(value);
                    }
                },
                None => {},
            }
            proof {
                let accepts = self.spec_accepts();
                match lowest {
                    None => {
                        assert forall|i: int| 0 <= i < after.len() implies (#[trigger] accepts[after[i]@ as int]) is None by {
                            if i < before.len() {
                                assert(after[i] == before[i]);
                            }
                        }
                    },
                    Some(value) => {
                        if lowest == prior {
                            let w = choose|i: int| 0 <= i < before.len() && #[trigger] accepts[before[i]@ as int] == Some(value);
                            assert(after[w] == before[w]);
                        } else {
                            assert(accepts[after[k as int]@ as int] == Some(value));
                        }
                        assert forall|i: int|
                            0 <= i < after.len() && (#[trigger] accepts[after[i]@ as int]) is Some implies value.spec_rank()
                            <= accepts[after[i]@ as int]->Some_0.spec_rank() by {
                            if i < before.len() {
                                assert(after[i] == before[i]);
                                if prior is None {
                                    assert(accepts[before[i]@ as int] is None);
                                }
                            }
                        }
                    },
                }
            }
            k = k + 1;
        }
        proof {
            assert(states@.take(states@.len() as int) =~= states@);
        }
        lowest
    }

    /// Returns the accepts of the automaton that determinization made.
    ///
    /// `subsets` holds the states behind each state of that automaton. The
    /// accept of one state is the lowest accept of its set.
    pub fn determinized(&self, subsets: &[Vec<StateId>]) -> (table: Self)
        requires
            forall|set: int, k: int|
                0 <= set < subsets@.len() && 0 <= k < subsets@[set]@.len() ==> (#[trigger] subsets@[set]@[k])@
                    < self.spec_accepts().len(),
        ensures
            table.spec_accepts().len() == subsets@.len(),
            forall|set: int|
                0 <= set < subsets@.len() ==> is_lowest(
                    self.spec_accepts(),
                    subsets@[set]@,
                    #[trigger] table.spec_accepts()[set],
                ),
    {
        let mut accepts: Vec<Option<A>> = Vec::new();
        let mut set: usize = 0;
        while set < subsets.len()
            invariant
                forall|s: int, k: int|
                    0 <= s < subsets@.len() && 0 <= k < subsets@[s]@.len() ==> (#[trigger] subsets@[s]@[k])@
                        < self.spec_accepts().len(),
                set <= subsets@.len(),
                accepts@.len() == set,
                forall|s: int|
                    0 <= s < set ==> is_lowest(self.spec_accepts(), subsets@[s]@, #[trigger] accepts@[s]),
            decreases subsets@.len() - set,
        {
            let states = subsets[set].as_slice();
            proof {
                assert forall|k: int| 0 <= k < states@.len() implies (#[trigger] states@[k])@
                    < self.spec_accepts().len() by {
                    assert(states@[k] == subsets@[set as int]@[k]);
                }
            }
            accepts.push(self.lowest(states));
            set = set + 1;
        }
        Accepts { accepts }
    }
}

} // verus!
