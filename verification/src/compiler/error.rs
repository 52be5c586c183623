use vstd::prelude::*;

use crate::automata::error::{decimal, push_decimal};
use crate::automata::{Overflow, Part};

verus! {

/// A failure to build the automaton of a lexer.
///
/// The index of the rule gives the derive macro the span for its
/// `compile_error!`.
#[derive(Debug, Clone, PartialEq, Eq, Structural)]
#[non_exhaustive]
pub struct BuildError {
    /// The index of the rule at fault, in the sequence in which the rules
    /// arrived. A fault of the whole lexicon gives `None`.
    pub rule: Option<usize>,
    /// The kind of the failure.
    pub kind: BuildErrorKind,
}

/// The kind of failure that a [`BuildError`] reports.
#[derive(Debug, Clone, PartialEq, Eq, Structural)]
#[non_exhaustive]
pub enum BuildErrorKind {
    /// A rule is applicable under no start condition, thus no scan reaches it.
    NoCondition,
    /// A rule names a start condition that the lexicon did not declare.
    UnknownCondition {
        /// The index of the start condition that the rule names.
        condition: usize,
        /// The number of the start conditions that the lexicon declared.
        declared: usize,
    },
    /// The pattern of a rule matches the empty string. Such a rule gives a
    /// match of no length, thus the lexer makes no progress.
    MatchesEmpty,
    /// The repetitions of a pattern expand it above the maximum size.
    PatternTooLarge {
        /// The number of the nodes after the expansion.
        size: usize,
        /// The maximum number of the nodes.
        maximum: usize,
    },
    /// A repetition of the pattern of a rule has a maximum below its minimum.
    /// Such a repetition matches nothing.
    InvertedRepetition {
        /// The minimum count of the repetition.
        minimum: usize,
        /// The maximum count of the repetition.
        maximum: usize,
    },
    /// The rules need a larger automaton than one automaton holds.
    TooLarge {
        /// The part of the automaton that is full.
        part: Part,
        /// The maximum number of the items in that part.
        maximum: usize,
    },
}

impl BuildErrorKind {
    /// Joins this kind to the rule at `rule`, then gives the error.
    pub fn in_rule(self, rule: usize) -> (error: BuildError)
        ensures
            error == (BuildError { rule: Some(rule), kind: self }),
    {
        BuildError { rule: Some(rule), kind: self }
    }

    /// Joins this kind to the whole lexicon, then gives the error.
    ///
    /// A ceiling of the automaton belongs to each rule together.
    pub fn in_lexicon(self) -> (error: BuildError)
        ensures
            error == (BuildError { rule: None, kind: self }),
    {
        BuildError { rule: None, kind: self }
    }

    /// The correction for this kind of failure.
    pub open spec fn spec_help(&self) -> Seq<char> {
        match *self {
            BuildErrorKind::NoCondition => "Give the rule at least one start condition."@,
            BuildErrorKind::UnknownCondition { .. } => "Declare the start condition in this lexicon."@,
            BuildErrorKind::MatchesEmpty => "Each part of the pattern can match nothing. Write `+` in place of `*`, or remove a `?`."@,
            BuildErrorKind::PatternTooLarge { .. } => "Lower a repetition count. The construction makes one copy of the expression for each repetition."@,
            BuildErrorKind::InvertedRepetition { .. } => "Write the minimum first, for example `{2,5}`."@,
            BuildErrorKind::TooLarge { .. } => "Divide the lexer, or lower a repetition count."@,
        }
    }

    /// Returns the correction for this kind of failure.
    ///
    /// A caller shows the text under the message, in the manner of a note from
    /// the compiler.
    pub fn help(&self) -> (help: &'static str)
        ensures
            help@ == self.spec_help(),
    {
        match *self {
            BuildErrorKind::NoCondition => "Give the rule at least one start condition.",
            BuildErrorKind::UnknownCondition { .. } => "Declare the start condition in this lexicon.",
            BuildErrorKind::MatchesEmpty => "Each part of the pattern can match nothing. Write `+` in place of `*`, or remove a `?`.",
            BuildErrorKind::PatternTooLarge { .. } => "Lower a repetition count. The construction makes one copy of the expression for each repetition.",
            BuildErrorKind::InvertedRepetition { .. } => "Write the minimum first, for example `{2,5}`.",
            BuildErrorKind::TooLarge { .. } => "Divide the lexer, or lower a repetition count.",
        }
    }

    /// The message of this kind of failure.
    pub open spec fn spec_message(&self) -> Seq<char> {
        match *self {
            BuildErrorKind::NoCondition => "the rule is applicable under no start condition"@,
            BuildErrorKind::UnknownCondition { condition, .. } => "start condition "@ + decimal(
                condition as nat,
            ) + " is not declared"@,
            BuildErrorKind::MatchesEmpty => "the pattern matches the empty string"@,
            BuildErrorKind::PatternTooLarge { size, maximum } => "the repetitions make "@
                + decimal(size as nat) + " copies of the pattern, above the limit of "@ + decimal(
                maximum as nat,
            ),
            BuildErrorKind::InvertedRepetition { minimum, maximum } => "the repetition {"@
                + decimal(minimum as nat) + ","@ + decimal(maximum as nat)
                + "} has a maximum below its minimum"@,
            BuildErrorKind::TooLarge { part, maximum } => "the lexer needs more than the "@
                + decimal(maximum as nat) + " "@ + part.spec_name() + " that one automaton holds"@,
        }
    }

    /// Returns the message of this kind of failure, which names the values
    /// that the author wrote.
    pub fn message(&self) -> (text: String)
        ensures
            text@ == self.spec_message(),
    {
        match *self {
            BuildErrorKind::NoCondition => String::from_str(
                "the rule is applicable under no start condition",
            ),
            BuildErrorKind::UnknownCondition { condition, .. } => {
                let mut text = String::from_str("start condition ");
                push_decimal(&mut text, condition);
                text.append(" is not declared");
                text
            },
            BuildErrorKind::MatchesEmpty => String::from_str("the pattern matches the empty string"),
            BuildErrorKind::PatternTooLarge { size, maximum } => {
                let mut text = String::from_str("the repetitions make ");
                push_decimal(&mut text, size);
                text.append(" copies of the pattern, above the limit of ");
                push_decimal(&mut text, maximum);
                text
            },
            BuildErrorKind::InvertedRepetition { minimum, maximum } => {
                let mut text = String::from_str("the repetition {");
                push_decimal(&mut text, minimum);
                text.append(",");
                push_decimal(&mut text, maximum);
                text.append("} has a maximum below its minimum");
                text
            },
            BuildErrorKind::TooLarge { part, maximum } => {
                let mut text = String::from_str("the lexer needs more than the ");
                push_decimal(&mut text, maximum);
                text.append(" ");
                text.append(part.name());
                text.append(" that one automaton holds");
                text
            },
        }
    }
}

impl BuildError {
    /// The message of the error.
    pub open spec fn spec_message(&self) -> Seq<char> {
        match self.rule {
            Some(rule) => "rule "@ + decimal(rule as nat) + ": "@ + self.kind.spec_message(),
            None => self.kind.spec_message(),
        }
    }

    /// Returns the message of the error: the rule at fault, if any, then the
    /// message of the kind.
    pub fn message(&self) -> (text: String)
        ensures
            text@ == self.spec_message(),
    {
        match self.rule {
            Some(rule) => {
                let mut text = String::from_str("rule ");
                push_decimal(&mut text, rule);
                text.append(": ");
                let kind = self.kind.message();
                text.append(kind.as_str());
                text
            },
            None => self.kind.message(),
        }
    }
}

impl From<Overflow> for BuildErrorKind {
    fn from(overflow: Overflow) -> (kind: Self) {
        BuildErrorKind::TooLarge { part: overflow.part, maximum: overflow.maximum }
    }
}

impl vstd::std_specs::convert::FromSpecImpl<Overflow> for BuildErrorKind {
    open spec fn obeys_from_spec() -> bool {
        true
    }

    open spec fn from_spec(overflow: Overflow) -> Self {
        BuildErrorKind::TooLarge { part: overflow.part, maximum: overflow.maximum }
    }
}

} // verus!
