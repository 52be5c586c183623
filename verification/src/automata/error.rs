use vstd::prelude::*;

verus! {

/// Reports an automaton capacity limit.
///
/// Capacity errors come from lexer input.
#[derive(Debug, Clone, Copy, PartialEq, Eq, Structural)]
#[non_exhaustive]
pub enum BuildError {
    /// The state count exceeds the capacity.
    TooManyStates {
        /// The maximum state count.
        capacity: usize,
    },
    /// The transition count exceeds the capacity.
    TooManyTransitions {
        /// The maximum transition count.
        capacity: usize,
    },
}

/// The character of the decimal digit `value`.
pub open spec fn digit(value: nat) -> char {
    if value == 0 {
        '0'
    } else if value == 1 {
        '1'
    } else if value == 2 {
        '2'
    } else if value == 3 {
        '3'
    } else if value == 4 {
        '4'
    } else if value == 5 {
        '5'
    } else if value == 6 {
        '6'
    } else if value == 7 {
        '7'
    } else if value == 8 {
        '8'
    } else {
        '9'
    }
}

/// The decimal digits of `value`, the most significant digit first.
pub open spec fn decimal(value: nat) -> Seq<char>
    decreases value,
{
    if value < 10 {
        seq![digit(value)]
    } else {
        decimal(value / 10) + seq![digit(value % 10)]
    }
}

/// Returns the text of the decimal digit `value`.
fn digit_text(value: usize) -> (text: &'static str)
    requires
        value < 10,
    ensures
        text@ == seq![digit(value as nat)],
{
    if value == 0 {
        proof {
            reveal_strlit("0");
        }
        "0"
    } else if value == 1 {
        proof {
            reveal_strlit("1");
        }
        "1"
    } else if value == 2 {
        proof {
            reveal_strlit("2");
        }
        "2"
    } else if value == 3 {
        proof {
            reveal_strlit("3");
        }
        "3"
    } else if value == 4 {
        proof {
            reveal_strlit("4");
        }
        "4"
    } else if value == 5 {
        proof {
            reveal_strlit("5");
        }
        "5"
    } else if value == 6 {
        proof {
            reveal_strlit("6");
        }
        "6"
    } else if value == 7 {
        proof {
            reveal_strlit("7");
        }
        "7"
    } else if value == 8 {
        proof {
            reveal_strlit("8");
        }
        "8"
    } else {
        proof {
            reveal_strlit("9");
        }
        "9"
    }
}

/// Appends the decimal digits of `value` to `text`.
pub fn push_decimal(text: &mut String, value: usize)
    ensures
        final(text)@ == old(text)@ + decimal(value as nat),
    decreases value,
{
    if value >= 10 {
        push_decimal(text, value / 10);
    }
    text.append(digit_text(value % 10));
}

impl BuildError {
    /// The text of the message of the error.
    pub open spec fn spec_message(&self) -> Seq<char> {
        match *self {
            BuildError::TooManyStates { capacity } => "an automaton holds at most "@ + decimal(
                capacity as nat,
            ) + " states"@,
            BuildError::TooManyTransitions { capacity } => "an automaton holds at most "@
                + decimal(capacity as nat) + " transitions"@,
        }
    }

    /// Returns the message of the error, which names the capacity.
    pub fn message(&self) -> (text: String)
        ensures
            text@ == self.spec_message(),
    {
        let mut text = String::from_str("an automaton holds at most ");
        match *self {
            BuildError::TooManyStates { capacity } => {
                push_decimal(&mut text, capacity);
                text.append(" states");
            },
            BuildError::TooManyTransitions { capacity } => {
                push_decimal(&mut text, capacity);
                text.append(" transitions");
            },
        }
        text
    }
}

/// A part of an automaton that has a maximum size.
#[derive(Debug, Clone, Copy, PartialEq, Eq, Structural)]
pub enum Part {
    /// The states of the automaton.
    States,
    /// The items of an arena of the automaton.
    Items,
}

impl Part {
    /// The name of the part, in the plural.
    pub open spec fn spec_name(&self) -> Seq<char> {
        match *self {
            Part::States => "states"@,
            Part::Items => "items"@,
        }
    }

    /// Returns the name of the part, in the plural.
    pub fn name(&self) -> (name: &'static str)
        ensures
            name@ == self.spec_name(),
    {
        match *self {
            Part::States => "states",
            Part::Items => "items",
        }
    }
}

/// Reports that a part of an automaton needs more than its maximum.
#[derive(Debug, Clone, Copy, PartialEq, Eq, Structural)]
pub struct Overflow {
    /// The part that is full.
    pub part: Part,
    /// The maximum number of the items of that part.
    pub maximum: usize,
}

impl Overflow {
    /// Creates the report of a full `part` of `maximum` items.
    pub fn new(part: Part, maximum: usize) -> (overflow: Self)
        ensures
            overflow == (Overflow { part, maximum }),
    {
        Overflow { part, maximum }
    }
}

} // verus!
