use lxr_codegen::regex::CharSet;

#[test]
fn a_range_across_the_surrogates_leaves_them_out() {
    let set = CharSet::range('\u{D000}', '\u{E100}');
    assert_eq!(set.ranges(), &[('\u{D000}', '\u{D7FF}'), ('\u{E000}', '\u{E100}')]);
}

#[test]
fn every_character_is_two_ranges() {
    let set = CharSet::any();
    assert_eq!(set.ranges(), &[('\u{0}', '\u{D7FF}'), ('\u{E000}', '\u{10FFFF}')]);
}

#[test]
fn the_digits_are_one_range() {
    assert_eq!(CharSet::digits().ranges(), &[('0', '9')]);
}

#[test]
fn a_union_merges_overlapping_ranges() {
    let set = CharSet::range('a', 'm').union(&CharSet::range('f', 'z'));
    assert_eq!(set.ranges(), &[('a', 'z')]);
}

#[test]
fn a_union_keeps_separate_ranges_in_order() {
    let set = CharSet::range('x', 'z').union(&CharSet::range('a', 'c'));
    assert_eq!(set.ranges(), &[('a', 'c'), ('x', 'z')]);
}

#[test]
fn a_union_with_a_range_inside_changes_nothing() {
    let set = CharSet::range('a', 'z').union(&CharSet::single('q'));
    assert_eq!(set.ranges(), &[('a', 'z')]);
}

#[test]
fn subtracting_a_character_splits_its_range() {
    let set = CharSet::range('a', 'z').subtract(&CharSet::single('m'));
    assert_eq!(set.ranges(), &[('a', 'l'), ('n', 'z')]);
}

#[test]
fn subtracting_the_ends_of_a_range_trims_it() {
    let ends = CharSet::single('a').union(&CharSet::single('z'));
    let set = CharSet::range('a', 'z').subtract(&ends);
    assert_eq!(set.ranges(), &[('b', 'y')]);
}

#[test]
fn subtracting_a_set_from_itself_leaves_nothing() {
    let set = CharSet::any().subtract(&CharSet::any());
    assert_eq!(set.ranges(), &[]);
}

#[test]
fn subtracting_a_disjoint_set_changes_nothing() {
    let set = CharSet::digits().subtract(&CharSet::range('a', 'z'));
    assert_eq!(set.ranges(), &[('0', '9')]);
}

#[test]
fn subtracting_one_character_from_every_character_leaves_a_hole() {
    let set = CharSet::any().subtract(&CharSet::single('é'));
    assert_eq!(
        set.ranges(),
        &[('\u{0}', 'è'), ('ê', '\u{D7FF}'), ('\u{E000}', '\u{10FFFF}')]
    );
}
