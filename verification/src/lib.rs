//! Builds the automata of a lexer generator: regular expression trees, their
//! UTF-8 byte labels, nondeterministic and deterministic finite automata, and
//! the tables that an emitted lexer reads.

pub mod automata;
pub mod code;
pub mod compiler;
pub mod generate;
pub mod graph;
pub mod lexer;
pub mod regex;
pub mod table;
