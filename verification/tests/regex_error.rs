use lxr_codegen::regex::{ParseError, ParseErrorKind};

#[test]
fn a_message_names_the_counts_that_the_author_wrote() {
    let kind = ParseErrorKind::InvertedRepetition {
        minimum: 5,
        maximum: 2,
    };

    assert_eq!(kind.message(), "invalid repetition {5,2}");
    assert_eq!(
        kind.help(),
        Some("Write the minimum first, for example `{2,5}`.")
    );
    assert_eq!(
        ParseErrorKind::NestingTooDeep(64).message(),
        "groups nest more than 64 deep"
    );
}

#[test]
fn a_code_point_gives_at_least_four_hexadecimal_digits() {
    assert_eq!(
        ParseErrorKind::InvalidCodePoint(0xD800).message(),
        "invalid code point U+D800"
    );
    assert_eq!(
        ParseErrorKind::InvalidCodePoint(0x41).message(),
        "invalid code point U+0041"
    );
    assert_eq!(
        ParseErrorKind::InvalidCodePoint(0x110000).message(),
        "invalid code point U+110000"
    );
    assert_eq!(
        ParseErrorKind::InvalidCodePoint(0).message(),
        "invalid code point U+0000"
    );
}

#[test]
fn a_character_of_a_message_is_escaped_where_it_is_quoted() {
    assert_eq!(
        ParseErrorKind::UnexpectedCharacter('\n').message(),
        "unexpected '\\n'"
    );
    assert_eq!(
        ParseErrorKind::Expected {
            wanted: ')',
            found: None,
        }
        .message(),
        "expected ')', found end of pattern"
    );
    assert_eq!(
        ParseErrorKind::Expected {
            wanted: '}',
            found: Some('\''),
        }
        .message(),
        "expected '}', found '\\''"
    );
    assert_eq!(
        ParseErrorKind::InvertedRange { low: 'z', high: 'a' }.message(),
        "invalid range 'z-a'"
    );
    assert_eq!(
        ParseErrorKind::NothingToRepeat('*').message(),
        "'*' has nothing to repeat"
    );
    assert_eq!(
        ParseErrorKind::ClassEscapeInRange('d').message(),
        "'\\d' cannot be a range endpoint"
    );
}

#[test]
fn an_error_names_the_start_of_its_span() {
    let error: ParseError = ParseErrorKind::UnclosedGroup.spanning(3..7);

    assert_eq!(error.span, 3..7);
    assert_eq!(error.message(), "unclosed '(' at position 3");
    assert_eq!(error.kind.help(), Some("Add a `)`."));
    assert_eq!(ParseErrorKind::UnexpectedEnd.help(), None);
}
