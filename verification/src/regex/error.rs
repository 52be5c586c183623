use vstd::prelude::*;

use std::ops::Range;

use crate::automata::error::{decimal, push_decimal};

verus! {

/// The text that `{:?}` escaping gives for `character`, without the quotes:
/// the character itself, or its escape.
pub uninterp spec fn escaped(character: char) -> Seq<char>;

/// Returns the escape of `character` for a message, as `char::escape_debug`
/// gives it.
///
/// The contract names the result and says no more: that the text depends on
/// the character alone.
#[verifier::external_body]
fn escape(character: char) -> (text: String)
    ensures
        text@ == escaped(character),
{
    character.escape_debug().to_string()
}

/// Returns the text of one character, as the `Display` of `char` writes it:
/// the character itself.
#[verifier::external_body]
fn character_text(character: char) -> (text: String)
    ensures
        text@ == seq![character],
{
    character.to_string()
}

/// The character of the hexadecimal digit `value`, in upper case.
pub open spec fn hex_digit(value: nat) -> char {
    if value < 10 {
        crate::automata::error::digit(value)
    } else if value == 10 {
        'A'
    } else if value == 11 {
        'B'
    } else if value == 12 {
        'C'
    } else if value == 13 {
        'D'
    } else if value == 14 {
        'E'
    } else {
        'F'
    }
}

/// The hexadecimal digits of `value`, in upper case, the most significant
/// digit first.
pub open spec fn hexadecimal(value: nat) -> Seq<char>
    decreases value,
{
    if value < 16 {
        seq![hex_digit(value)]
    } else {
        hexadecimal(value / 16) + seq![hex_digit(value % 16)]
    }
}

/// The hexadecimal digits of `value`, with zeros before them up to four
/// digits.
pub open spec fn padded_hexadecimal(value: nat) -> Seq<char> {
    let digits = hexadecimal(value);
    if digits.len() < 4 {
        Seq::new((4 - digits.len()) as nat, |i: int| '0') + digits
    } else {
        digits
    }
}

/// Returns the text of the hexadecimal digit `value`.
fn hex_digit_text(value: u64) -> (text: &'static str)
    requires
        value < 16,
    ensures
        text@ == seq![hex_digit(value as nat)],
{
    if value < 10 {
        proof {
            reveal_strlit("0");
            reveal_strlit("1");
            reveal_strlit("2");
            reveal_strlit("3");
            reveal_strlit("4");
            reveal_strlit("5");
            reveal_strlit("6");
            reveal_strlit("7");
            reveal_strlit("8");
            reveal_strlit("9");
        }
        if value == 0 {
            "0"
        } else if value == 1 {
            "1"
        } else if value == 2 {
            "2"
        } else if value == 3 {
            "3"
        } else if value == 4 {
            "4"
        } else if value == 5 {
            "5"
        } else if value == 6 {
            "6"
        } else if value == 7 {
            "7"
        } else if value == 8 {
            "8"
        } else {
            "9"
        }
    } else {
        proof {
            reveal_strlit("A");
            reveal_strlit("B");
            reveal_strlit("C");
            reveal_strlit("D");
            reveal_strlit("E");
            reveal_strlit("F");
        }
        if value == 10 {
            "A"
        } else if value == 11 {
            "B"
        } else if value == 12 {
            "C"
        } else if value == 13 {
            "D"
        } else if value == 14 {
            "E"
        } else {
            "F"
        }
    }
}

/// Appends the hexadecimal digits of `value` to `text`.
fn push_hexadecimal(text: &mut String, value: u64)
    ensures
        final(text)@ == old(text)@ + hexadecimal(value as nat),
    decreases value,
{
    if value >= 16 {
        push_hexadecimal(text, value / 16);
    }
    text.append(hex_digit_text(value % 16));
}

/// Returns the number of the hexadecimal digits of `value`, up to four.
fn short_digits(value: u64) -> (count: usize)
    ensures
        count == if hexadecimal(value as nat).len() < 4 {
            hexadecimal(value as nat).len()
        } else {
            4
        },
{
    if value < 16 {
        1
    } else if value < 0x100 {
        assert(hexadecimal(value as nat / 16).len() == 1);
        2
    } else if value < 0x1000 {
        assert(hexadecimal(value as nat / 16 / 16).len() == 1);
        3
    } else {
        proof {
            lemma_hexadecimal_long(value as nat);
        }
        4
    }
}

/// A value of four hexadecimal digits or more has four digits or more.
proof fn lemma_hexadecimal_long(value: nat)
    requires
        value >= 0x1000,
    ensures
        hexadecimal(value).len() >= 4,
{
    let first = value / 16;
    let second = first / 16;
    let third = second / 16;
    assert(first >= 0x100);
    assert(second >= 0x10);
    assert(hexadecimal(third).len() >= 1);
    assert(hexadecimal(second).len() == hexadecimal(third).len() + 1);
    assert(hexadecimal(first).len() == hexadecimal(second).len() + 1);
    assert(hexadecimal(value).len() == hexadecimal(first).len() + 1);
}

/// Appends the hexadecimal digits of `value` to `text`, with zeros before
/// them up to four digits.
fn push_padded_hexadecimal(text: &mut String, value: u64)
    ensures
        final(text)@ == old(text)@ + padded_hexadecimal(value as nat),
{
    let digits = short_digits(value);
    let mut zeros: usize = digits;
    let ghost before = text@;
    while zeros < 4
        invariant
            digits <= zeros <= 4,
            text@ == before + Seq::new((zeros - digits) as nat, |i: int| '0'),
        decreases 4 - zeros,
    {
        proof {
            reveal_strlit("0");
        }
        text.append("0");
        zeros = zeros + 1;
        proof {
            assert(text@ =~= before + Seq::new((zeros - digits) as nat, |i: int| '0'));
        }
    }
    push_hexadecimal(text, value);
    proof {
        let hex = hexadecimal(value as nat);
        if hex.len() < 4 {
            assert(text@ =~= before + (Seq::new((4 - hex.len()) as nat, |i: int| '0') + hex));
        } else {
            assert(text@ =~= before + hex);
        }
    }
}

/// Reports invalid or unsupported regex syntax.
#[derive(Debug, PartialEq, Eq)]
#[non_exhaustive]
pub struct ParseError {
    /// The byte range at fault.
    ///
    /// A failure at the end of the pattern has an empty range.
    pub span: Range<usize>,
    /// The kind of the failure.
    pub kind: ParseErrorKind,
}

/// Identifies the cause of a [`ParseError`].
///
/// An `Unsupported` variant identifies valid regex syntax that lxr does not
/// support.
#[derive(Debug, Clone, PartialEq, Eq, Structural)]
#[non_exhaustive]
pub enum ParseErrorKind {
    /// The pattern stops before the expression is complete.
    UnexpectedEnd,
    /// A character is invalid at the current position.
    UnexpectedCharacter(char),
    /// A required character is missing or different.
    Expected {
        /// The required character.
        wanted: char,
        /// The found character, or `None` at the end.
        found: Option<char>,
    },
    /// A quantifier has no expression before it.
    NothingToRepeat(char),
    /// A quantifier comes immediately after another quantifier.
    RepeatedQuantifier(char),
    /// A character range has its high end first.
    InvertedRange {
        /// The requested low end.
        low: char,
        /// The requested high end.
        high: char,
    },
    /// A repetition has its maximum count first.
    InvertedRepetition {
        /// The requested minimum.
        minimum: usize,
        /// The requested maximum.
        maximum: usize,
    },
    /// A repetition count is too large.
    RepetitionTooLarge,
    /// A group has no closing `)`.
    UnclosedGroup,
    /// A `)` has no opening `(`.
    UnmatchedCloseParenthesis,
    /// A character class has no closing `]`.
    UnclosedClass,
    /// A character class matches no character.
    EmptyClass,
    /// A multi-character class escape is a range end.
    ClassEscapeInRange(char),
    /// An escape sequence is unknown.
    UnknownEscape(char),
    /// An escape names a surrogate or a value above `U+10FFFF`.
    InvalidCodePoint(u64),
    /// The group depth exceeds the parser limit.
    NestingTooDeep(usize),
    /// The pattern contains an unsupported anchor.
    UnsupportedAnchor(char),
    /// The pattern contains an unsupported `(?` group.
    UnsupportedGroup,
    /// The pattern contains an unsupported POSIX character class.
    UnsupportedPosixClass,
    /// The pattern contains an unsupported octal escape.
    UnsupportedOctalEscape,
    /// The pattern contains an unsupported backreference.
    UnsupportedBackreference,
}

impl ParseErrorKind {
    /// Creates an error for `span`.
    pub fn spanning(self, span: Range<usize>) -> (error: ParseError)
        ensures
            error == (ParseError { span, kind: self }),
    {
        ParseError { span, kind: self }
    }

    /// The correction of the failure, where one is known.
    pub open spec fn spec_help(&self) -> Option<Seq<char>> {
        match *self {
            ParseErrorKind::UnexpectedEnd => None,
            ParseErrorKind::UnexpectedCharacter(_) => None,
            ParseErrorKind::Expected { .. } => None,
            ParseErrorKind::NothingToRepeat(_) => Some("Put an expression before the quantifier."@),
            ParseErrorKind::RepeatedQuantifier(_) => Some("Put the expression in a group, for example `(a*)?`."@),
            ParseErrorKind::InvertedRange { .. } => Some("Write the low end first, for example `a-z`."@),
            ParseErrorKind::InvertedRepetition { .. } => Some("Write the minimum first, for example `{2,5}`."@),
            ParseErrorKind::RepetitionTooLarge => Some("Write a count of 65535 or below."@),
            ParseErrorKind::UnclosedGroup => Some("Add a `)`."@),
            ParseErrorKind::UnmatchedCloseParenthesis => Some("Add a `(`, or write `\\)` for a literal parenthesis."@),
            ParseErrorKind::UnclosedClass => Some("Add a `]`."@),
            ParseErrorKind::EmptyClass => Some("The class matches no character, thus no input matches the rule."@),
            ParseErrorKind::ClassEscapeInRange(_) => Some("Write one character at each end of the range."@),
            ParseErrorKind::UnknownEscape(_) => Some("Write `\\\\` for a literal backslash."@),
            ParseErrorKind::InvalidCodePoint(_) => Some("Write a value from 0 to 10FFFF, and not a value from D800 to DFFF."@),
            ParseErrorKind::NestingTooDeep(_) => Some("Make the pattern flat, or divide the rule."@),
            ParseErrorKind::UnsupportedAnchor(_) => Some("A lexer matches at the position of the scan, thus an anchor is not needed."@),
            ParseErrorKind::UnsupportedGroup => Some("Write a plain group `(...)`. A group of this parser captures nothing."@),
            ParseErrorKind::UnsupportedPosixClass => Some("Write the characters, for example `[a-zA-Z]`, or write `\\w`."@),
            ParseErrorKind::UnsupportedOctalEscape => Some("Write a hexadecimal escape, for example `\\x41` or `\\x{41}`."@),
            ParseErrorKind::UnsupportedBackreference => Some("A lexer reads a regular language, thus it holds no backreference. For the character 65, write `\\x41`."@),
        }
    }

    /// Returns a correction when lxr can suggest one.
    pub fn help(&self) -> (help: Option<&'static str>)
        ensures
            match help {
                Some(text) => self.spec_help() == Some(text@),
                None => self.spec_help() is None,
            },
    {
        match *self {
            ParseErrorKind::UnexpectedEnd => None,
            ParseErrorKind::UnexpectedCharacter(_) => None,
            ParseErrorKind::Expected { .. } => None,
            ParseErrorKind::NothingToRepeat(_) => Some("Put an expression before the quantifier."),
            ParseErrorKind::RepeatedQuantifier(_) => Some("Put the expression in a group, for example `(a*)?`."),
            ParseErrorKind::InvertedRange { .. } => Some("Write the low end first, for example `a-z`."),
            ParseErrorKind::InvertedRepetition { .. } => Some("Write the minimum first, for example `{2,5}`."),
            ParseErrorKind::RepetitionTooLarge => Some("Write a count of 65535 or below."),
            ParseErrorKind::UnclosedGroup => Some("Add a `)`."),
            ParseErrorKind::UnmatchedCloseParenthesis => Some("Add a `(`, or write `\\)` for a literal parenthesis."),
            ParseErrorKind::UnclosedClass => Some("Add a `]`."),
            ParseErrorKind::EmptyClass => Some("The class matches no character, thus no input matches the rule."),
            ParseErrorKind::ClassEscapeInRange(_) => Some("Write one character at each end of the range."),
            ParseErrorKind::UnknownEscape(_) => Some("Write `\\\\` for a literal backslash."),
            ParseErrorKind::InvalidCodePoint(_) => Some("Write a value from 0 to 10FFFF, and not a value from D800 to DFFF."),
            ParseErrorKind::NestingTooDeep(_) => Some("Make the pattern flat, or divide the rule."),
            ParseErrorKind::UnsupportedAnchor(_) => Some("A lexer matches at the position of the scan, thus an anchor is not needed."),
            ParseErrorKind::UnsupportedGroup => Some("Write a plain group `(...)`. A group of this parser captures nothing."),
            ParseErrorKind::UnsupportedPosixClass => Some("Write the characters, for example `[a-zA-Z]`, or write `\\w`."),
            ParseErrorKind::UnsupportedOctalEscape => Some("Write a hexadecimal escape, for example `\\x41` or `\\x{41}`."),
            ParseErrorKind::UnsupportedBackreference => Some("A lexer reads a regular language, thus it holds no backreference. For the character 65, write `\\x41`."),
        }
    }

    /// The message of the failure.
    pub open spec fn spec_message(&self) -> Seq<char> {
        match *self {
            ParseErrorKind::UnexpectedEnd => "unexpected end of pattern"@,
            ParseErrorKind::UnexpectedCharacter(found) => "unexpected '"@ + escaped(found) + "'"@,
            ParseErrorKind::Expected { wanted, found } => match found {
                Some(found) => "expected '"@ + escaped(wanted) + "', found '"@ + escaped(found) + "'"@,
                None => "expected '"@ + escaped(wanted) + "', found end of pattern"@,
            },
            ParseErrorKind::NothingToRepeat(quantifier) => "'"@ + seq![quantifier] + "' has nothing to repeat"@,
            ParseErrorKind::RepeatedQuantifier(quantifier) => "repeated quantifier '"@ + seq![quantifier] + "'"@,
            ParseErrorKind::InvertedRange { low, high } => "invalid range '"@ + escaped(low) + "-"@ + escaped(high) + "'"@,
            ParseErrorKind::InvertedRepetition { minimum, maximum } => "invalid repetition {"@ + decimal(
                minimum as nat,
            ) + ","@ + decimal(maximum as nat) + "}"@,
            ParseErrorKind::RepetitionTooLarge => "repetition count is too large"@,
            ParseErrorKind::UnclosedGroup => "unclosed '('"@,
            ParseErrorKind::UnmatchedCloseParenthesis => "unmatched ')'"@,
            ParseErrorKind::UnclosedClass => "unclosed '['"@,
            ParseErrorKind::EmptyClass => "character class matches nothing"@,
            ParseErrorKind::ClassEscapeInRange(escape) => "'\\"@ + seq![escape] + "' cannot be a range endpoint"@,
            ParseErrorKind::UnknownEscape(found) => "unknown escape '\\"@ + escaped(found) + "'"@,
            ParseErrorKind::InvalidCodePoint(value) => "invalid code point U+"@ + padded_hexadecimal(value as nat),
            ParseErrorKind::NestingTooDeep(limit) => "groups nest more than "@ + decimal(limit as nat) + " deep"@,
            ParseErrorKind::UnsupportedAnchor(anchor) => "anchor '"@ + seq![anchor] + "' is not supported"@,
            ParseErrorKind::UnsupportedGroup => "'(?' groups are not supported"@,
            ParseErrorKind::UnsupportedPosixClass => "POSIX character classes are not supported"@,
            ParseErrorKind::UnsupportedOctalEscape => "octal escapes are not supported"@,
            ParseErrorKind::UnsupportedBackreference => "backreferences are not supported"@,
        }
    }

    /// Returns the message of the failure, which names the characters and
    /// the counts at fault.
    pub fn message(&self) -> (text: String)
        ensures
            text@ == self.spec_message(),
    {
        match *self {
            ParseErrorKind::UnexpectedEnd => String::from_str("unexpected end of pattern"),
            ParseErrorKind::UnexpectedCharacter(found) => {
                let mut text = String::from_str("unexpected '");
                text.append(escape(found).as_str());
                text.append("'");
                text
            },
            ParseErrorKind::Expected { wanted, found } => {
                let mut text = String::from_str("expected '");
                text.append(escape(wanted).as_str());
                match found {
                    Some(found) => {
                        text.append("', found '");
                        text.append(escape(found).as_str());
                        text.append("'");
                    },
                    None => {
                        text.append("', found end of pattern");
                    },
                }
                text
            },
            ParseErrorKind::NothingToRepeat(quantifier) => {
                let mut text = String::from_str("'");
                text.append(character_text(quantifier).as_str());
                text.append("' has nothing to repeat");
                text
            },
            ParseErrorKind::RepeatedQuantifier(quantifier) => {
                let mut text = String::from_str("repeated quantifier '");
                text.append(character_text(quantifier).as_str());
                text.append("'");
                text
            },
            ParseErrorKind::InvertedRange { low, high } => {
                let mut text = String::from_str("invalid range '");
                text.append(escape(low).as_str());
                text.append("-");
                text.append(escape(high).as_str());
                text.append("'");
                text
            },
            ParseErrorKind::InvertedRepetition { minimum, maximum } => {
                let mut text = String::from_str("invalid repetition {");
                push_decimal(&mut text, minimum);
                text.append(",");
                push_decimal(&mut text, maximum);
                text.append("}");
                text
            },
            ParseErrorKind::RepetitionTooLarge => String::from_str("repetition count is too large"),
            ParseErrorKind::UnclosedGroup => String::from_str("unclosed '('"),
            ParseErrorKind::UnmatchedCloseParenthesis => String::from_str("unmatched ')'"),
            ParseErrorKind::UnclosedClass => String::from_str("unclosed '['"),
            ParseErrorKind::EmptyClass => String::from_str("character class matches nothing"),
            ParseErrorKind::ClassEscapeInRange(escape) => {
                let mut text = String::from_str("'\\");
                text.append(character_text(escape).as_str());
                text.append("' cannot be a range endpoint");
                text
            },
            ParseErrorKind::UnknownEscape(found) => {
                let mut text = String::from_str("unknown escape '\\");
                text.append(escape(found).as_str());
                text.append("'");
                text
            },
            ParseErrorKind::InvalidCodePoint(value) => {
                let mut text = String::from_str("invalid code point U+");
                push_padded_hexadecimal(&mut text, value);
                text
            },
            ParseErrorKind::NestingTooDeep(limit) => {
                let mut text = String::from_str("groups nest more than ");
                push_decimal(&mut text, limit);
                text.append(" deep");
                text
            },
            ParseErrorKind::UnsupportedAnchor(anchor) => {
                let mut text = String::from_str("anchor '");
                text.append(character_text(anchor).as_str());
                text.append("' is not supported");
                text
            },
            ParseErrorKind::UnsupportedGroup => String::from_str("'(?' groups are not supported"),
            ParseErrorKind::UnsupportedPosixClass => String::from_str(
                "POSIX character classes are not supported",
            ),
            ParseErrorKind::UnsupportedOctalEscape => String::from_str("octal escapes are not supported"),
            ParseErrorKind::UnsupportedBackreference => String::from_str(
                "backreferences are not supported",
            ),
        }
    }
}

impl ParseError {
    /// The message of the error.
    pub open spec fn spec_message(&self) -> Seq<char> {
        self.kind.spec_message() + " at position "@ + decimal(self.span.start as nat)
    }

    /// Returns the message of the error, which names the position of the
    /// fault.
    pub fn message(&self) -> (text: String)
        ensures
            text@ == self.spec_message(),
    {
        let mut text = self.kind.message();
        text.append(" at position ");
        push_decimal(&mut text, self.span.start);
        text
    }
}

} // verus!
