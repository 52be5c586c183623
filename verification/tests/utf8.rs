use lxr_codegen::automata::encoding::{ByteRange, ByteSequence, encode};
use lxr_codegen::automata::encoding::utf8::MAX_LENGTH;
use lxr_codegen::automata::{Label, Partitionable};
use lxr_codegen::regex::CharSet;

const CHARACTERS: u64 = 0x11_0000 - 0x800;

fn byte_range(low: u8, high: u8) -> ByteRange {
    ByteRange::new(low, high)
}

fn assert_partition(labels: &[ByteRange], expected: &[(ByteRange, &[usize])]) {
    let actual = ByteRange::partition(labels);

    assert_eq!(actual.len(), expected.len(), "partition of {labels:?}");
    for (class, (label, matching_labels)) in actual.iter().zip(expected) {
        assert_eq!(class.get_label(), label, "partition of {labels:?}");
        assert_eq!(
            class.get_matching_labels(),
            matching_labels,
            "partition of {labels:?}"
        );
    }
}

#[test]
fn partitioning_no_byte_ranges_produces_no_classes() {
    assert_partition(&[], &[]);
}

#[test]
fn partitioning_one_byte_range_preserves_it() {
    assert_partition(&[byte_range(b'a', b'z')], &[(byte_range(b'a', b'z'), &[0])]);
}

#[test]
fn partitioning_disjoint_byte_ranges_omits_the_gap() {
    assert_partition(
        &[byte_range(b'a', b'f'), byte_range(b'm', b'z')],
        &[
            (byte_range(b'a', b'f'), &[0]),
            (byte_range(b'm', b'z'), &[1]),
        ],
    );
}

#[test]
fn partitioning_overlapping_byte_ranges_splits_at_each_boundary() {
    assert_partition(
        &[byte_range(b'a', b'f'), byte_range(b'd', b'z')],
        &[
            (byte_range(b'a', b'c'), &[0]),
            (byte_range(b'd', b'f'), &[0, 1]),
            (byte_range(b'g', b'z'), &[1]),
        ],
    );
}

#[test]
fn partition_indexes_select_the_matching_transition_targets() {
    let transitions = [
        (byte_range(b'a', b'f'), "first target"),
        (byte_range(b'd', b'z'), "second target"),
    ];
    let labels: Vec<_> = transitions.iter().map(|(label, _)| *label).collect();

    let classes = ByteRange::partition(&labels);
    let overlap = &classes[1];
    let targets: Vec<_> = overlap
        .get_matching_labels()
        .iter()
        .map(|&index| transitions[index].1)
        .collect();

    assert_eq!(overlap.get_label(), &byte_range(b'd', b'f'));
    assert_eq!(targets, vec!["first target", "second target"]);
}

#[test]
fn partitioning_a_contained_byte_range_splits_the_containing_range() {
    assert_partition(
        &[byte_range(b'a', b'z'), byte_range(b'd', b'f')],
        &[
            (byte_range(b'a', b'c'), &[0]),
            (byte_range(b'd', b'f'), &[0, 1]),
            (byte_range(b'g', b'z'), &[0]),
        ],
    );
}

#[test]
fn partitioning_equal_byte_ranges_records_both_indexes() {
    assert_partition(
        &[byte_range(b'a', b'z'), byte_range(b'a', b'z')],
        &[(byte_range(b'a', b'z'), &[0, 1])],
    );
}

#[test]
fn partitioning_adjacent_byte_ranges_keeps_their_classes_separate() {
    assert_partition(
        &[byte_range(b'a', b'm'), byte_range(b'n', b'z')],
        &[
            (byte_range(b'a', b'm'), &[0]),
            (byte_range(b'n', b'z'), &[1]),
        ],
    );
}

#[test]
fn partitioning_a_byte_range_can_include_the_largest_byte() {
    assert_partition(
        &[byte_range(254, 255), byte_range(255, 255)],
        &[
            (byte_range(254, 254), &[0]),
            (byte_range(255, 255), &[0, 1]),
        ],
    );
}

#[test]
fn every_pair_of_small_byte_ranges_obeys_the_partition_contract() {
    const ALPHABET_END: u8 = 15;

    let ranges: Vec<_> = (0..=ALPHABET_END)
        .flat_map(|low| (low..=ALPHABET_END).map(move |high| byte_range(low, high)))
        .collect();

    for &first in &ranges {
        for &second in &ranges {
            assert_partition_contract(&[first, second], ALPHABET_END);
        }
    }
}

fn assert_partition_contract(labels: &[ByteRange], alphabet_end: u8) {
    let classes = ByteRange::partition(labels);

    for class in &classes {
        let label = class.get_label();
        assert!(
            label.low <= label.high,
            "empty class in partition of {labels:?}"
        );
        assert!(
            label.high <= alphabet_end,
            "class outside the alphabet in partition of {labels:?}"
        );
        assert!(
            !class.get_matching_labels().is_empty(),
            "class without matching labels in partition of {labels:?}"
        );
    }

    for pair in classes.windows(2) {
        assert!(
            pair[0].get_label().high < pair[1].get_label().low,
            "unordered or overlapping classes in partition of {labels:?}"
        );
    }

    for byte in 0..=alphabet_end {
        let expected: Vec<_> = labels
            .iter()
            .enumerate()
            .filter_map(|(index, label)| label.matches(byte).then_some(index))
            .collect();
        let matching_classes: Vec<_> = classes
            .iter()
            .filter(|class| class.get_label().matches(byte))
            .collect();

        if expected.is_empty() {
            assert!(
                matching_classes.is_empty(),
                "uncovered byte {byte} has a class in partition of {labels:?}"
            );
        } else {
            assert_eq!(
                matching_classes.len(),
                1,
                "covered byte {byte} is not in exactly one class for {labels:?}"
            );
            assert_eq!(
                matching_classes[0].get_matching_labels(),
                &expected,
                "wrong matching labels for byte {byte} in partition of {labels:?}"
            );
        }
    }
}

#[test]
fn a_byte_range_matches_the_bytes_from_its_low_bound_to_its_high_bound() {
    let range = ByteRange::new(b'a', b'z');

    assert!(range.matches(b'a'));
    assert!(range.matches(b'm'));
    assert!(range.matches(b'z'));
    assert!(!range.matches(b'A'));
    assert!(!range.matches(b'{'));
}

#[test]
fn a_byte_range_of_one_byte_matches_only_that_byte() {
    let range = ByteRange::new(0x80, 0x80);

    assert!(range.matches(0x80));
    assert!(!range.matches(0x7F));
    assert!(!range.matches(0x81));
}


fn sequence(ranges: &[(u8, u8)]) -> ByteSequence {
    let ranges: Vec<ByteRange> = ranges
        .iter()
        .map(|&(low, high)| ByteRange::new(low, high))
        .collect();
    ByteSequence::new(&ranges)
}

fn matching(sequences: &[ByteSequence], bytes: &[u8]) -> usize {
    sequences
        .iter()
        .filter(|sequence| {
            sequence.ranges().len() == bytes.len()
                && sequence
                    .ranges()
                    .iter()
                    .zip(bytes)
                    .all(|(range, byte)| (range.low..=range.high).contains(byte))
        })
        .count()
}

fn matches(sequences: &[ByteSequence], bytes: &[u8]) -> bool {
    matching(sequences, bytes) > 0
}

fn matches_character(sequences: &[ByteSequence], character: char) -> bool {
    matches(sequences, character.to_string().as_bytes())
}

/// Returns the number of the byte strings that `sequences` matches.
fn matched_strings(sequences: &[ByteSequence]) -> u64 {
    sequences
        .iter()
        .map(|sequence| {
            sequence
                .ranges()
                .iter()
                .map(|range| u64::from(range.high) - u64::from(range.low) + 1)
                .product::<u64>()
        })
        .sum()
}

#[test]
fn an_empty_set_encodes_to_no_sequences() {
    assert_eq!(encode(&CharSet::empty()), Vec::new());
}

#[test]
fn an_ascii_character_encodes_to_one_byte() {
    assert_eq!(
        encode(&CharSet::single('a')),
        vec![sequence(&[(b'a', b'a')])]
    );
}

#[test]
fn an_ascii_range_encodes_to_one_range() {
    assert_eq!(
        encode(&CharSet::range('a', 'z')),
        vec![sequence(&[(b'a', b'z')])]
    );
}

#[test]
fn a_two_byte_character_encodes_to_its_encoding() {
    assert_eq!(
        encode(&CharSet::single('é')),
        vec![sequence(&[(0xC3, 0xC3), (0xA9, 0xA9)])]
    );
}

#[test]
fn a_three_byte_character_encodes_to_its_encoding() {
    assert_eq!(
        encode(&CharSet::single('☃')),
        vec![sequence(&[(0xE2, 0xE2), (0x98, 0x98), (0x83, 0x83)])]
    );
}

#[test]
fn a_four_byte_character_encodes_to_its_encoding() {
    assert_eq!(
        encode(&CharSet::single('🦀')),
        vec![sequence(&[
            (0xF0, 0xF0),
            (0x9F, 0x9F),
            (0xA6, 0xA6),
            (0x80, 0x80),
        ])]
    );
}

#[test]
fn a_range_of_trailing_bytes_encodes_to_one_sequence() {
    assert_eq!(
        encode(&CharSet::range('\u{80}', '\u{7FF}')),
        vec![sequence(&[(0xC2, 0xDF), (0x80, 0xBF)])]
    );
}

#[test]
fn a_range_crossing_an_encoding_length_splits_there() {
    let sequences = encode(&CharSet::range('\u{7E}', '\u{81}'));
    assert_eq!(
        sequences,
        vec![
            sequence(&[(0x7E, 0x7F)]),
            sequence(&[(0xC2, 0xC2), (0x80, 0x81)]),
        ]
    );
}

#[test]
fn a_range_ending_mid_block_splits_off_the_partial_block() {
    // U+0100 to U+01FF fills the trailing byte of each of its leading
    // bytes. U+0200 leaves the trailing byte at its first value.
    assert_eq!(
        encode(&CharSet::range('\u{100}', '\u{200}')),
        vec![
            sequence(&[(0xC4, 0xC7), (0x80, 0xBF)]),
            sequence(&[(0xC8, 0xC8), (0x80, 0x80)]),
        ]
    );
}

#[test]
fn a_range_starting_mid_block_splits_off_the_partial_block() {
    assert_eq!(
        encode(&CharSet::range('\u{1FF}', '\u{2FF}')),
        vec![
            sequence(&[(0xC7, 0xC7), (0xBF, 0xBF)]),
            sequence(&[(0xC8, 0xCB), (0x80, 0xBF)]),
        ]
    );
}

#[test]
fn every_sequence_holds_one_to_four_non_empty_ranges() {
    let sequences = encode(&CharSet::any());
    for sequence in &sequences {
        assert!((1..=MAX_LENGTH).contains(&sequence.ranges().len()));
        for range in sequence.ranges() {
            assert!(range.low <= range.high, "empty range in {sequence:?}");
        }
    }
}

#[test]
fn every_character_is_matched_by_exactly_one_sequence() {
    let sequences = encode(&CharSet::any());
    let mut buffer = [0; MAX_LENGTH];
    for character in (0..=0x10FFFF).filter_map(char::from_u32) {
        let encoded = character.encode_utf8(&mut buffer);
        assert_eq!(
            matching(&sequences, encoded.as_bytes()),
            1,
            "{character:?} is not matched exactly once"
        );
    }
}

#[test]
fn nothing_but_a_character_is_matched() {
    // The sequences match each character one time. Thus, if they match no
    // more strings than the number of the characters, they match nothing
    // else. They match no overlong encoding, no encoded surrogate, no
    // truncated character, and no unwanted byte.
    assert_eq!(matched_strings(&encode(&CharSet::any())), CHARACTERS);
}

#[test]
fn an_overlong_encoding_is_not_matched() {
    let sequences = encode(&CharSet::any());
    assert!(!matches(&sequences, &[0xC0, 0x80]));
    assert!(!matches(&sequences, &[0xC1, 0xBF]));
    assert!(!matches(&sequences, &[0xE0, 0x80, 0x80]));
    assert!(!matches(&sequences, &[0xF0, 0x80, 0x80, 0x80]));
}

#[test]
fn an_encoded_surrogate_is_not_matched() {
    let sequences = encode(&CharSet::any());
    assert!(!matches(&sequences, &[0xED, 0xA0, 0x80]));
    assert!(!matches(&sequences, &[0xED, 0xBF, 0xBF]));
    assert!(matches(&sequences, &[0xED, 0x9F, 0xBF]));
    assert!(matches(&sequences, &[0xEE, 0x80, 0x80]));
}

#[test]
fn a_byte_string_that_is_not_an_encoding_is_not_matched() {
    let sequences = encode(&CharSet::any());
    assert!(!matches(&sequences, &[0x80]));
    assert!(!matches(&sequences, &[0xC2]));
    assert!(!matches(&sequences, &[0xC2, 0xC2]));
    assert!(!matches(&sequences, &[0xF5, 0x80, 0x80, 0x80]));
    assert!(!matches(&sequences, &[0xF4, 0x90, 0x80, 0x80]));
}



#[test]
fn the_sequences_of_a_set_are_ascending() {
    let sequences = encode(&CharSet::any());
    for pair in sequences.windows(2) {
        let (earlier, later) = (pair[0].ranges(), pair[1].ranges());
        assert!(
            earlier.len() < later.len() || earlier[0].high < later[0].low,
            "{:?} does not come before {:?}",
            pair[0],
            pair[1]
        );
    }
}
#[test]
fn a_hole_in_a_set_is_a_hole_in_its_sequences() {
    let sequences = encode(&CharSet::any().subtract(&CharSet::single('é')));
    assert!(!matches_character(&sequences, 'é'));
    assert!(matches_character(&sequences, 'è'));
    assert!(matches_character(&sequences, 'ê'));
    assert_eq!(matched_strings(&sequences), CHARACTERS - 1);
}

#[test]
fn a_set_of_several_ranges_encodes_to_all_of_them() {
    let sequences = encode(&CharSet::digits().union(&CharSet::range('α', 'ω')));
    assert!(matches_character(&sequences, '0'));
    assert!(matches_character(&sequences, '9'));
    assert!(matches_character(&sequences, 'α'));
    assert!(matches_character(&sequences, 'ω'));
    assert!(!matches_character(&sequences, 'a'));
    assert!(!matches_character(&sequences, 'Ω'));
    assert_eq!(matched_strings(&sequences), 10 + 25);
}

#[test]
fn reordering_the_labels_keeps_the_classes_of_the_partition() {
    assert_partition(
        &[byte_range(b'd', b'z'), byte_range(b'a', b'f')],
        &[
            (byte_range(b'a', b'c'), &[1]),
            (byte_range(b'd', b'f'), &[0, 1]),
            (byte_range(b'g', b'z'), &[0]),
        ],
    );
}
