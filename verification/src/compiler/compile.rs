use vstd::prelude::*;

use super::accepts::Accepts;
use crate::automata::nfa::Nfa;

verus! {

/// The automaton of a lexer, and what each of its states means.
#[derive(Debug)]
pub struct Compilation<L, R> {
    /// The automaton of each rule together.
    pub nfa: Nfa<L>,
    /// The accept of each state that accepts.
    pub accepts: Accepts<R>,
    /// The index of the rule that owns each state, in the sequence of the
    /// states.
    ///
    /// A start state belongs to no rule, thus it holds `None`. Each other
    /// state comes from the pattern of one rule.
    pub owners: Vec<Option<usize>>,
}

impl<L, R> Compilation<L, R> {
    /// Whether the automaton is consistent, and the accepts and the owners
    /// hold one entry for each of its states.
    pub open spec fn well_formed(&self) -> bool {
        &&& self.nfa.well_formed()
        &&& self.accepts.spec_accepts().len() == self.nfa.spec_state_count()
        &&& self.owners@.len() == self.nfa.spec_state_count()
    }
}

} // verus!
