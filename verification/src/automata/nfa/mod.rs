//! Builds and executes nondeterministic finite automata.
//!
//! An [`Nfa`] permits overlapping labels and epsilon transitions. An
//! [`Execution`] tracks its set of states. A [`Matcher`] selects the longest
//! match.

pub mod automaton;
pub mod builder;
pub mod closure;
pub mod execution;
pub mod matcher;

pub use self::automaton::Nfa;
pub use self::builder::Builder;
pub use self::closure::epsilon_closure;
pub use self::execution::Execution;
pub use self::matcher::Matcher;
