//! Lowers character sets into automaton labels.

pub mod classes;
pub mod utf8;

pub use self::utf8::{ByteRange, ByteSequence, Utf8, encode};
