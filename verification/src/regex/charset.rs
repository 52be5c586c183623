use vstd::prelude::*;

verus! {

/// The first surrogate code point. No character lies from here to [`LAST_SURROGATE`].
pub const FIRST_SURROGATE: u32 = 0xD800;

/// The last surrogate code point.
pub const LAST_SURROGATE: u32 = 0xDFFF;

/// Whether `ranges` are the ranges of a set of characters: each range holds
/// its low end first, no range holds a surrogate, and the ranges are in
/// ascending sequence with no character in common.
pub open spec fn valid_ranges(ranges: Seq<(char, char)>) -> bool {
    &&& forall|i: int|
        0 <= i < ranges.len() ==> {
            let (low, high) = #[trigger] ranges[i];
            &&& (low as u32) <= (high as u32)
            &&& !((low as u32) < FIRST_SURROGATE && (high as u32) > LAST_SURROGATE)
        }
    &&& forall|i: int, j: int|
        0 <= i < j < ranges.len() ==> ((#[trigger] ranges[i]).1 as u32) < ((
        #[trigger] ranges[j]).0 as u32)
}

/// A set of characters, held as ranges of characters.
#[derive(Debug, Clone, PartialEq, Eq)]
pub struct CharSet {
    ranges: Vec<(char, char)>,
}

impl CharSet {
    /// The ranges of the set, in ascending sequence.
    pub closed spec fn view(&self) -> Seq<(char, char)> {
        self.ranges@
    }

    /// Whether the set holds `character`.
    pub open spec fn contains(&self, character: u32) -> bool {
        exists|i: int|
            0 <= i < self.view().len() && (self.view()[i].0 as u32) <= character <= (
            #[trigger] self.view()[i]).1 as u32
    }

    /// Whether the ranges of the set obey [`valid_ranges`].
    pub closed spec fn well_formed(&self) -> bool {
        valid_ranges(self.ranges@)
    }

    /// Returns the set of no character.
    pub fn empty() -> (set: Self)
        ensures
            set.view().len() == 0,
            set.well_formed(),
            valid_ranges(set.view()),
    {
        CharSet { ranges: Vec::new() }
    }

    /// Returns the set of one character.
    pub fn single(character: char) -> (set: Self)
        ensures
            set.view() == seq![(character, character)],
            set.well_formed(),
    {
        let mut ranges = Vec::new();
        ranges.push((character, character));
        CharSet { ranges }
    }

    /// Returns the set of each character from `low` to `high`.
    ///
    /// The set leaves out the surrogates, which are no characters.
    pub fn range(low: char, high: char) -> (set: Self)
        requires
            (low as u32) <= (high as u32),
        ensures
            set.well_formed(),
            forall|c: u32|
                set.contains(c) <==> (low as u32) <= c <= (high as u32) && !(FIRST_SURROGATE <= c
                    <= LAST_SURROGATE),
    {
        let mut ranges = Vec::new();
        if (low as u32) < FIRST_SURROGATE && (high as u32) > LAST_SURROGATE {
            ranges.push((low, '\u{D7FF}'));
            ranges.push(('\u{E000}', high));
        } else {
            ranges.push((low, high));
        }
        let set = CharSet { ranges };
        proof {
            assert forall|c: u32|
                set.contains(c) <==> (low as u32) <= c <= (high as u32) && !(FIRST_SURROGATE <= c
                    <= LAST_SURROGATE) by {
                if (low as u32) <= c <= (high as u32) && !(FIRST_SURROGATE <= c <= LAST_SURROGATE) {
                    if set.view().len() == 2 && c > LAST_SURROGATE {
                        assert(set.view()[1].1 == high);
                    } else {
                        assert(set.view()[0].1 as u32 >= c);
                    }
                }
            }
        }
        set
    }

    /// Returns the set of each character.
    pub fn any() -> (set: Self)
        ensures
            set.well_formed(),
            forall|c: u32| set.contains(c) <==> c <= 0x10FFFF && !(FIRST_SURROGATE <= c <= LAST_SURROGATE),
    {
        CharSet::range('\u{0}', '\u{10FFFF}')
    }

    /// Returns the set of the ASCII digits.
    pub fn digits() -> (set: Self)
        ensures
            set.well_formed(),
            forall|c: u32| set.contains(c) <==> 0x30 <= c <= 0x39,
    {
        CharSet::range('0', '9')
    }

    /// Returns the ranges of the set, in ascending sequence.
    pub fn ranges(&self) -> (ranges: &[(char, char)])
        ensures
            ranges@ == self.view(),
    {
        self.ranges.as_slice()
    }
}

/// Whether a range of `ranges` holds `character`.
pub open spec fn in_ranges(ranges: Seq<(char, char)>, character: u32) -> bool {
    exists|i: int|
        0 <= i < ranges.len() && (ranges[i].0 as u32) <= character <= (#[trigger] ranges[i]).1 as u32
}

/// A range pushed onto `ranges` holds what it holds, besides the ranges
/// before it.
proof fn lemma_in_push(ranges: Seq<(char, char)>, range: (char, char), character: u32)
    ensures
        in_ranges(ranges.push(range), character) == (in_ranges(ranges, character) || (range.0 as u32)
            <= character <= (range.1 as u32)),
{
    let pushed = ranges.push(range);
    if in_ranges(ranges, character) {
        let i = choose|i: int|
            0 <= i < ranges.len() && (ranges[i].0 as u32) <= character <= (#[trigger] ranges[i]).1 as u32;
        assert(pushed[i] == ranges[i]);
    }
    if (range.0 as u32) <= character <= (range.1 as u32) {
        assert(pushed[ranges.len() as int] == range);
    }
    if in_ranges(pushed, character) {
        let i = choose|i: int|
            0 <= i < pushed.len() && (pushed[i].0 as u32) <= character <= (#[trigger] pushed[i]).1 as u32;
        if i < ranges.len() {
            assert(pushed[i] == ranges[i]);
        }
    }
}

/// Widening the last range of `ranges` to `high`, where the last range reaches
/// `range`, holds what `range` holds besides what `ranges` holds.
proof fn lemma_in_widen(ranges: Seq<(char, char)>, range: (char, char), character: u32)
    requires
        ranges.len() > 0,
        (ranges.last().0 as u32) <= (range.0 as u32) <= (ranges.last().1 as u32),
        (ranges.last().1 as u32) < (range.1 as u32),
    ensures
        in_ranges(ranges.update(ranges.len() - 1, (ranges.last().0, range.1)), character) == (in_ranges(
            ranges,
            character,
        ) || (range.0 as u32) <= character <= (range.1 as u32)),
{
    let last = ranges.len() - 1;
    let widened = ranges.update(last, (ranges.last().0, range.1));
    if in_ranges(ranges, character) {
        let i = choose|i: int|
            0 <= i < ranges.len() && (ranges[i].0 as u32) <= character <= (#[trigger] ranges[i]).1 as u32;
        if i < last {
            assert(widened[i] == ranges[i]);
        } else {
            assert((widened[last].0 as u32) <= character <= (widened[last].1 as u32));
        }
    }
    if (range.0 as u32) <= character <= (range.1 as u32) {
        assert((widened[last].0 as u32) <= character <= (widened[last].1 as u32));
    }
    if in_ranges(widened, character) {
        let i = choose|i: int|
            0 <= i < widened.len() && (widened[i].0 as u32) <= character <= (#[trigger] widened[i]).1 as u32;
        if i < last {
            assert(widened[i] == ranges[i]);
        } else if character <= ranges.last().1 as u32 {
            assert(ranges[last] == ranges.last());
        }
    }
}

/// A set holds a character exactly where a range of its ranges holds it.
proof fn lemma_contains(set: CharSet, character: u32)
    ensures
        set.contains(character) == in_ranges(set.view(), character),
{
    if set.contains(character) {
        let i = choose|i: int|
            0 <= i < set.view().len() && (set.view()[i].0 as u32) <= character <= (
            #[trigger] set.view()[i]).1 as u32;
        assert(0 <= i < set.view().len() && (set.view()[i].0 as u32) <= character <= (
        #[trigger] set.view()[i]).1 as u32);
    }
    if in_ranges(set.view(), character) {
        let i = choose|i: int|
            0 <= i < set.view().len() && (set.view()[i].0 as u32) <= character <= (
            #[trigger] set.view()[i]).1 as u32;
        assert(0 <= i < set.view().len() && (set.view()[i].0 as u32) <= character <= (
        #[trigger] set.view()[i]).1 as u32);
    }
}

/// Whether `range` holds its low end first and no range of characters
/// across the surrogates.
pub open spec fn valid_range(range: (char, char)) -> bool {
    &&& (range.0 as u32) <= (range.1 as u32)
    &&& !((range.0 as u32) < FIRST_SURROGATE && (range.1 as u32) > LAST_SURROGATE)
}

/// A valid range above the last range of valid ranges keeps them valid.
proof fn lemma_valid_push(ranges: Seq<(char, char)>, range: (char, char))
    requires
        valid_ranges(ranges),
        valid_range(range),
        ranges.len() > 0 ==> (ranges.last().1 as u32) < (range.0 as u32),
    ensures
        valid_ranges(ranges.push(range)),
{
    let pushed = ranges.push(range);
    assert forall|i: int| 0 <= i < pushed.len() implies {
        let (low, high) = #[trigger] pushed[i];
        &&& (low as u32) <= (high as u32)
        &&& !((low as u32) < FIRST_SURROGATE && (high as u32) > LAST_SURROGATE)
    } by {
        if i < ranges.len() {
            assert(pushed[i] == ranges[i]);
        }
    }
    assert forall|i: int, j: int| 0 <= i < j < pushed.len() implies ((#[trigger] pushed[i]).1 as u32)
        < ((#[trigger] pushed[j]).0 as u32) by {
        assert(pushed[i] == ranges[i]);
        if j < ranges.len() {
            assert(pushed[j] == ranges[j]);
        } else {
            let last = ranges.len() - 1;
            assert(ranges[last] == ranges.last());
            if i < last {
                assert((ranges[i].1 as u32) < (ranges[last].0 as u32));
            }
        }
    }
}

/// Widening the last range of valid ranges over a valid range that starts
/// inside it keeps them valid.
proof fn lemma_valid_widen(ranges: Seq<(char, char)>, range: (char, char))
    requires
        valid_ranges(ranges),
        valid_range(range),
        ranges.len() > 0,
        (ranges.last().0 as u32) <= (range.0 as u32) <= (ranges.last().1 as u32),
        (ranges.last().1 as u32) < (range.1 as u32),
    ensures
        valid_ranges(ranges.update(ranges.len() - 1, (ranges.last().0, range.1))),
{
    let last = ranges.len() - 1;
    let widened = ranges.update(last, (ranges.last().0, range.1));
    assert(ranges[last] == ranges.last());
    vstd::utf8::char_is_scalar(ranges.last().1);
    vstd::utf8::char_is_scalar(range.0);
    assert forall|i: int| 0 <= i < widened.len() implies {
        let (low, high) = #[trigger] widened[i];
        &&& (low as u32) <= (high as u32)
        &&& !((low as u32) < FIRST_SURROGATE && (high as u32) > LAST_SURROGATE)
    } by {
        if i < last {
            assert(widened[i] == ranges[i]);
        }
    }
    assert forall|i: int, j: int| 0 <= i < j < widened.len() implies ((#[trigger] widened[i]).1 as u32)
        < ((#[trigger] widened[j]).0 as u32) by {
        assert(widened[i] == ranges[i]);
        if j < last {
            assert(widened[j] == ranges[j]);
        } else {
            assert((ranges[i].1 as u32) < (ranges[last].0 as u32));
        }
    }
}

impl CharSet {
    /// Returns the set of each character that this set or `other` holds.
    pub fn union(&self, other: &CharSet) -> (set: CharSet)
        requires
            self.well_formed(),
            other.well_formed(),
        ensures
            set.well_formed(),
            forall|c: u32| set.contains(c) <==> self.contains(c) || other.contains(c),
    {
        let first = &self.ranges;
        let second = &other.ranges;
        let mut ranges: Vec<(char, char)> = Vec::new();
        let mut i: usize = 0;
        let mut j: usize = 0;
        while i < first.len() || j < second.len()
            invariant
                valid_ranges(first@),
                valid_ranges(second@),
                i <= first@.len(),
                j <= second@.len(),
                valid_ranges(ranges@),
                forall|c: u32|
                    #[trigger] in_ranges(ranges@, c) == (in_ranges(first@.take(i as int), c) || in_ranges(
                        second@.take(j as int),
                        c,
                    )),
                ranges@.len() > 0 ==> (i < first@.len() ==> (ranges@.last().0 as u32) <= (first@[i as int].0 as u32)),
                ranges@.len() > 0 ==> (j < second@.len() ==> (ranges@.last().0 as u32) <= (second@[j as int].0 as u32)),
            decreases first@.len() + second@.len() - i - j,
        {
            let ghost before = ranges@;
            let ghost old_i = i;
            let ghost old_j = j;
            let take_first = j >= second.len() || (i < first.len() && (first[i].0 as u32) <= (second[j].0 as u32));
            let next = if take_first {
                let range = first[i];
                i = i + 1;
                range
            } else {
                let range = second[j];
                j = j + 1;
                range
            };
            proof {
                if take_first {
                    assert(first@.take(i as int) =~= first@.take(old_i as int).push(next));
                    assert(second@.take(j as int) =~= second@.take(old_j as int));
                } else {
                    assert(second@.take(j as int) =~= second@.take(old_j as int).push(next));
                    assert(first@.take(i as int) =~= first@.take(old_i as int));
                }
                assert forall|c: u32| in_ranges(first@.take(i as int), c) || in_ranges(second@.take(j as int), c)
                    <==> (in_ranges(first@.take(old_i as int), c) || in_ranges(second@.take(old_j as int), c)
                    || (next.0 as u32) <= c <= (next.1 as u32)) by {
                    if take_first {
                        lemma_in_push(first@.take(old_i as int), next, c);
                    } else {
                        lemma_in_push(second@.take(old_j as int), next, c);
                    }
                }
            }
            proof {
                if take_first {
                    assert(first@[old_i as int] == next);
                } else {
                    assert(second@[old_j as int] == next);
                }
                assert(valid_range(next));
                assert(i < first@.len() ==> (next.0 as u32) <= (first@[i as int].0 as u32)) by {
                    if take_first && i < first@.len() {
                        assert((first@[old_i as int].1 as u32) < (first@[i as int].0 as u32));
                    }
                }
                assert(j < second@.len() ==> (next.0 as u32) <= (second@[j as int].0 as u32)) by {
                    if !take_first && j < second@.len() {
                        assert((second@[old_j as int].1 as u32) < (second@[j as int].0 as u32));
                    }
                }
            }
            let count = ranges.len();
            if count > 0 && (next.0 as u32) <= (ranges[count - 1].1 as u32) {
                let last = ranges[count - 1];
                if (next.1 as u32) > (last.1 as u32) {
                    ranges.set(count - 1, (last.0, next.1));
                    proof {
                        assert(before.last() == last);
                        lemma_valid_widen(before, next);
                        assert forall|c: u32| #[trigger] in_ranges(ranges@, c) == (in_ranges(before, c)
                            || (next.0 as u32) <= c <= (next.1 as u32)) by {
                            lemma_in_widen(before, next, c);
                        }
                    }
                } else {
                    proof {
                        assert forall|c: u32| #[trigger] in_ranges(ranges@, c) == (in_ranges(before, c)
                            || (next.0 as u32) <= c <= (next.1 as u32)) by {
                            if (next.0 as u32) <= c <= (next.1 as u32) {
                                assert(before[count - 1] == last);
                            }
                        }
                    }
                }
            } else {
                ranges.push(next);
                proof {
                    if count > 0 {
                        assert(before.last() == before[count - 1]);
                    }
                    lemma_valid_push(before, next);
                    assert forall|c: u32| #[trigger] in_ranges(ranges@, c) == (in_ranges(before, c)
                        || (next.0 as u32) <= c <= (next.1 as u32)) by {
                        lemma_in_push(before, next, c);
                    }
                }
            }
        }
        proof {
            assert(first@.take(first@.len() as int) =~= first@);
            assert(second@.take(second@.len() as int) =~= second@);
            assert forall|c: u32| in_ranges(ranges@, c) == self.contains(c) || other.contains(c) by {
                lemma_contains(*self, c);
                lemma_contains(*other, c);
            }
        }
        let set = CharSet { ranges };
        proof {
            assert forall|c: u32| set.contains(c) <==> self.contains(c) || other.contains(c) by {
                lemma_contains(set, c);
            }
        }
        set
    }
}


/// Calls `char::from_u32`, which gives the character whose scalar value is
/// `value`, and nothing where `value` is no scalar value (above `0x10FFFF`, or
/// a surrogate).
#[verifier::external_body]
fn character(value: u32) -> (found: Option<char>)
    ensures
        found is Some <==> vstd::utf8::is_scalar(value),
        found matches Some(c) ==> c as u32 == value,
{
    char::from_u32(value)
}

/// Each value inside a valid range is a scalar value.
proof fn lemma_scalar_inside(range: (char, char), value: u32)
    requires
        valid_range(range),
        (range.0 as u32) <= value <= (range.1 as u32),
    ensures
        vstd::utf8::is_scalar(value),
{
    vstd::utf8::char_is_scalar(range.0);
    vstd::utf8::char_is_scalar(range.1);
}

/// Returns the character whose scalar value is `value`, which lies inside the
/// valid range `range`.
fn character_inside(range: (char, char), value: u32) -> (c: char)
    requires
        valid_range(range),
        (range.0 as u32) <= value <= (range.1 as u32),
    ensures
        c as u32 == value,
{
    proof {
        lemma_scalar_inside(range, value);
    }
    character(value).unwrap()
}

/// No range of valid `ranges` holds `character` where the ranges before the
/// `next`th end below `low`, `character` is no lower than `low`, and the
/// `next`th range, if any, starts above `character`.
proof fn lemma_outside(ranges: Seq<(char, char)>, next: int, low: u32, character: u32)
    requires
        valid_ranges(ranges),
        0 <= next <= ranges.len(),
        forall|k: int| 0 <= k < next ==> ((#[trigger] ranges[k]).1 as u32) < low,
        low <= character,
        next < ranges.len() ==> character < (ranges[next].0 as u32),
    ensures
        !in_ranges(ranges, character),
{
    if in_ranges(ranges, character) {
        let k = choose|k: int|
            0 <= k < ranges.len() && (ranges[k].0 as u32) <= character <= (#[trigger] ranges[k]).1 as u32;
        if k > next {
            assert((ranges[next].1 as u32) < (ranges[k].0 as u32));
        }
    }
}

impl CharSet {
    /// Returns the set of each character that this set holds and `other` does
    /// not.
    pub fn subtract(&self, other: &CharSet) -> (set: CharSet)
        requires
            self.well_formed(),
            other.well_formed(),
        ensures
            set.well_formed(),
            forall|c: u32| set.contains(c) <==> self.contains(c) && !other.contains(c),
    {
        let first = &self.ranges;
        let second = &other.ranges;
        let mut ranges: Vec<(char, char)> = Vec::new();
        let mut i: usize = 0;
        while i < first.len()
            invariant
                valid_ranges(first@),
                valid_ranges(second@),
                i <= first@.len(),
                valid_ranges(ranges@),
                forall|c: u32|
                    #[trigger] in_ranges(ranges@, c) == (in_ranges(first@.take(i as int), c)
                        && !in_ranges(second@, c)),
                ranges@.len() > 0 ==> (i < first@.len() ==> (ranges@.last().1 as u32) < (
                first@[i as int].0 as u32)),
            decreases first@.len() - i,
        {
            let range = first[i];
            let high = range.1 as u32;
            let mut low = range.0 as u32;
            let mut j: usize = 0;
            let ghost start = ranges@;
            proof {
                assert(valid_range(range));
                vstd::utf8::char_is_scalar(range.0);
            }
            while j < second.len() && low <= high && (second[j].0 as u32) <= high
                invariant
                    valid_ranges(first@),
                    valid_ranges(second@),
                    i < first@.len(),
                    range == first@[i as int],
                    valid_range(range),
                    high == range.1 as u32,
                    range.0 as u32 <= low <= 0x110000,
                    j <= second@.len(),
                    forall|k: int| 0 <= k < j ==> ((#[trigger] second@[k]).1 as u32) < low,
                    valid_ranges(ranges@),
                    forall|c: u32|
                        #[trigger] in_ranges(ranges@, c) == ((in_ranges(first@.take(i as int), c)
                            && !in_ranges(second@, c)) || ((range.0 as u32) <= c < low && c <= high
                            && !in_ranges(second@, c))),
                    ranges@.len() > 0 ==> (ranges@.last().1 as u32) < low,
                    ranges@.len() > 0 ==> (ranges@.last().1 as u32) <= high,
                decreases second@.len() - j,
            {
                let (start_of, end_of) = second[j];
                let ghost old_low = low;
                let ghost before = ranges@;
                proof {
                    vstd::utf8::char_is_scalar(end_of);
                }
                if (end_of as u32) >= low {
                    if (start_of as u32) > low {
                        let piece_low = character_inside(range, low);
                        let piece_high = character_inside(range, (start_of as u32) - 1);
                        let piece = (piece_low, piece_high);
                        ranges.push(piece);
                        proof {
                            if before.len() > 0 {
                                assert(before.last() == before[before.len() - 1]);
                            }
                            lemma_valid_push(before, piece);
                            assert forall|c: u32| #[trigger] in_ranges(ranges@, c) == (in_ranges(before, c)
                                || (piece.0 as u32) <= c <= (piece.1 as u32)) by {
                                lemma_in_push(before, piece, c);
                            }
                        }
                    }
                    low = (end_of as u32) + 1;
                    proof {
                        assert forall|c: u32| #[trigger] in_ranges(ranges@, c) == ((in_ranges(
                            first@.take(i as int),
                            c,
                        ) && !in_ranges(second@, c)) || ((range.0 as u32) <= c < low && c <= high
                            && !in_ranges(second@, c))) by {
                            if old_low <= c < (start_of as u32) {
                                lemma_outside(second@, j as int, old_low, c);
                            }
                            if (start_of as u32) <= c <= (end_of as u32) {
                                assert((second@[j as int].0 as u32) <= c <= (second@[j as int].1 as u32));
                            }
                        }
                    }
                }
                j = j + 1;
            }
            if low <= high {
                let ghost before = ranges@;
                let piece = (character_inside(range, low), range.1);
                ranges.push(piece);
                proof {
                    if before.len() > 0 {
                        assert(before.last() == before[before.len() - 1]);
                    }
                    lemma_valid_push(before, piece);
                    assert forall|c: u32| #[trigger] in_ranges(ranges@, c) == (in_ranges(before, c)
                        || (piece.0 as u32) <= c <= (piece.1 as u32)) by {
                        lemma_in_push(before, piece, c);
                        if low <= c <= high {
                            lemma_outside(second@, j as int, low, c);
                        }
                    }
                }
            }
            proof {
                assert(first@.take(i + 1) =~= first@.take(i as int).push(range));
                assert forall|c: u32| #[trigger] in_ranges(ranges@, c) == (in_ranges(first@.take(i + 1), c)
                    && !in_ranges(second@, c)) by {
                    lemma_in_push(first@.take(i as int), range, c);
                }
                if i + 1 < first@.len() {
                    assert((first@[i as int].1 as u32) < (first@[i + 1].0 as u32));
                }
            }
            i = i + 1;
        }
        proof {
            assert(first@.take(first@.len() as int) =~= first@);
        }
        let set = CharSet { ranges };
        proof {
            assert forall|c: u32| set.contains(c) <==> self.contains(c) && !other.contains(c) by {
                lemma_contains(set, c);
                lemma_contains(*self, c);
                lemma_contains(*other, c);
            }
        }
        set
    }
}

} // verus!
