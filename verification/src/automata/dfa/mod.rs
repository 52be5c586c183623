//! Represents deterministic finite automata.
//!
//! A [`Dfa`] has disjoint outgoing labels at every state. Missing transitions
//! move to an implicit dead state.

pub mod automaton;
pub mod builder;
pub mod execution;
pub mod subset;

pub use self::automaton::Dfa;
pub use self::builder::Builder;
pub use self::execution::Execution;
