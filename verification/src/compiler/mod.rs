//! Builds the automaton of a lexer from its rules.

pub mod accepts;
pub mod compile;
pub mod error;

pub use self::accepts::Accepts;
pub use self::compile::Compilation;
pub use self::error::{BuildError, BuildErrorKind};
