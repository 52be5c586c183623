//! Regular expression trees and the character sets at their leaves.

pub mod ast;
pub mod error;
pub mod charset;
pub mod expression;
pub mod quantifier;

pub use self::ast::{Node, Repetitions};
pub use self::charset::CharSet;
pub use self::error::{ParseError, ParseErrorKind};
