//! The rule graph of a lexer.
//!
//! A fork reads one byte. A rope reads a sequence of forced bytes at one
//! time. A leaf gives the token of one rule. A node that does not match goes
//! to its miss, and the scan reads that node at the same offset.

pub mod arena;
pub mod construction;
pub mod id;
pub mod node;

pub use self::arena::Arena;
pub use self::construction::{MAX_NODES, build};
pub use self::id::NodeId;
pub use self::node::{Arm, Carry, Edge, Fork, Leaf, Node, Rope};
