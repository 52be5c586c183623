use lxr_codegen::automata::encoding::ByteRange;
use lxr_codegen::code::pattern::covers;

/// Returns the range from `low` to `high`.
fn range(low: u8, high: u8) -> ByteRange {
    ByteRange { low, high }
}

#[test]
fn the_ranges_of_the_whole_alphabet_cover_it() {
    assert!(covers(&[range(0, 127), range(128, 255)]));
    assert!(covers(&[range(0, 255)]));
}

#[test]
fn a_range_that_leaves_one_byte_out_covers_nothing() {
    assert!(!covers(&[range(0, 127), range(129, 255)]));
    assert!(!covers(&[]));
}

#[test]
fn ranges_that_count_more_than_the_alphabet_cover_nothing() {
    assert!(!covers(&[range(0, 255), range(0, 0)]));
    assert!(covers(&[range(0, 9), range(10, 10), range(11, 255)]));
}
