use vstd::prelude::*;

use super::automaton::Nfa;
use super::execution::{Execution, accepting, same_scan, scan};
use crate::automata::execution::{self as scan_api, Match};
use crate::automata::id::StateId;
use crate::automata::label::Label;

verus! {

/// Finds longest matches with an execution of an [`Nfa`].
///
/// The matcher adds the longest-match policy to [`Execution`]. It remembers
/// the last set of states that accepts while it reads the input. It reuses the
/// buffers of the execution for each token.
#[derive(Debug)]
pub struct Matcher<'a, L, A = ()> {
    execution: Execution<'a, L, A>,
}

impl<'a, L: Label, A> Matcher<'a, L, A> {
    /// The automaton that the matcher scans.
    pub closed spec fn spec_nfa(&self) -> Nfa<L, A> {
        self.execution.spec_nfa()
    }

    /// Whether the execution of the matcher is consistent with its automaton.
    pub closed spec fn well_formed(&self) -> bool {
        scan_api::Execution::well_formed(&self.execution)
    }

    /// Creates a matcher for `nfa`.
    pub fn new(nfa: &'a Nfa<L, A>) -> (matcher: Self)
        requires
            nfa.well_formed(),
        ensures
            matcher.well_formed(),
            matcher.spec_nfa() == *nfa,
    {
        Matcher { execution: Execution::new(nfa) }
    }

    /// Returns the longest match at the start of `input` under `start`.
    ///
    /// `select` resolves the accept values of the states at the end of a
    /// match. The function calls `select` only at a position that accepts.
    ///
    /// A start state that accepts gives a match of zero length. A lexer must
    /// reject such a rule or otherwise guarantee forward progress. Only the
    /// rules reachable from the selected start state take part.
    pub fn longest_match<T, F: Fn(&[StateId]) -> T>(
        &mut self,
        start: usize,
        input: &[L::Symbol],
        select: F,
    ) -> (found: Option<Match<T>>)
        requires
            old(self).well_formed(),
            start < old(self).spec_nfa().spec_starts().len(),
            forall|states: &[StateId]| #[trigger] call_requires(select, (states,)),
        ensures
            final(self).well_formed(),
            same_scan(&final(self).spec_nfa(), &old(self).spec_nfa()),
            found is None <==> forall|length: int|
                0 <= length <= input@.len() ==> !accepting(
                    &old(self).spec_nfa(),
                    #[trigger] scan(&old(self).spec_nfa(), start as int, input@.take(length)),
                ),
            found matches Some(m) ==> {
                &&& m.length <= input@.len()
                &&& accepting(
                    &old(self).spec_nfa(),
                    scan(&old(self).spec_nfa(), start as int, input@.take(m.length as int)),
                )
                &&& forall|length: int|
                    m.length < length <= input@.len() ==> !accepting(
                        &old(self).spec_nfa(),
                        #[trigger] scan(&old(self).spec_nfa(), start as int, input@.take(length)),
                    )
                &&& exists|states: &[StateId]|
                    states@ == scan(&old(self).spec_nfa(), start as int, input@.take(m.length as int))
                        && #[trigger] call_ensures(select, (states,), m.accept)
            },
    {
        self.execution.longest_match(start, input, select)
    }
}

impl<L: Label, A> Nfa<L, A> {
    /// Creates a reusable longest-match [`Matcher`].
    pub fn matcher(&self) -> (matcher: Matcher<'_, L, A>)
        requires
            self.well_formed(),
        ensures
            matcher.well_formed(),
            matcher.spec_nfa() == *self,
    {
        Matcher::new(self)
    }
}

} // verus!
