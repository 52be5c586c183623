use vstd::prelude::*;

use super::automaton::Automaton;
use super::execution::Execution;

verus! {

/// An automaton that scans a sequence of symbols.
///
/// The automaton holds no state of a scan. It is read only, thus two scans
/// can read the same automaton at the same time. One [`Execution`] holds the
/// state of one scan, and [`execute`](Self::execute) makes it.
///
/// [`Automaton`] gives the structure, and this trait gives the scan. A
/// nondeterministic automaton and a deterministic automaton implement this
/// trait. Thus a lexer scans either of them with the same code. The two differ
/// in the cost of one step, and not in the input that they accept.
///
/// The lifetime `'a` is the borrow of the automaton that an execution holds.
pub trait Scanner<'a>: Automaton {
    /// One symbol of the alphabet that the automaton reads.
    type Symbol: Copy;

    /// The execution of this automaton.
    type Execution: Execution<Symbol = <Self as Scanner<'a>>::Symbol>;

    /// Starts an execution of this automaton, in no state.
    ///
    /// One execution scans a sequence of tokens: make it one time, then scan
    /// each token with it. To move the execution one symbol at a time, put it
    /// at a start state with [`restart`](Execution::restart) first.
    fn execute(&'a self) -> (execution: Self::Execution)
        requires
            self.well_formed(),
        ensures
            execution.well_formed(),
            execution.spec_states().len() == 0,
            execution.spec_start_count() == self.spec_entry_states().len(),
    ;
}

} // verus!
