//! The parts of the emitted source that a lexer reads.

pub mod emitter;
pub mod find;
pub mod fork;
pub mod pattern;
pub mod state;
pub mod step;
