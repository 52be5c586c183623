//! Finite automata of the lexer pipeline.

pub mod adjacency;
pub mod automaton;
pub mod dfa;
pub mod encoding;
pub mod error;
pub mod execution;
pub mod id;
pub mod label;
pub mod minimize;
pub mod nfa;
pub mod scanner;
pub mod state_set;
pub mod table;
pub mod trim;

pub use self::error::{BuildError, Overflow, Part};
pub use self::id::StateId;
pub use self::automaton::{Automaton, Transition};
pub use self::execution::{Execution, Match};
pub use self::scanner::Scanner;
pub use self::label::{Label, LabelClass, Partitionable};
pub use self::minimize::Minimization;
