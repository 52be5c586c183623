//! Represents a character set as UTF-8 byte sequences.
//!
//! The lexer reads bytes. A regular expression matches characters. Thus a
//! character class must become UTF-8 byte sequences before construction makes
//! the states. [`encode`] does that step, and a [`ByteRange`] is the label of
//! one transition.
use vstd::prelude::*;

use crate::automata::label::{Label, LabelClass, Partitionable, inhabited, is_partition};
use super::classes::coarse_partition;
use crate::regex::charset::{CharSet, FIRST_SURROGATE, LAST_SURROGATE, in_ranges, valid_ranges};
use vstd::utf8::encode_scalar;

verus! {

/// UTF-8 encoding for an automaton that reads bytes.
#[derive(Debug, Clone, Copy, PartialEq, Eq, Default)]
pub struct Utf8;

/// A range of bytes that matches one byte of an encoded character.
///
/// Both ends are in the range.
#[derive(Debug, Clone, Copy, PartialEq, Eq, Structural, Hash)]
pub struct ByteRange {
    /// The lowest byte in the range.
    pub low: u8,
    /// The highest byte in the range.
    pub high: u8,
}

impl ByteRange {
    /// Creates an inclusive range of bytes.
    pub fn new(low: u8, high: u8) -> (range: Self)
        requires
            low <= high,
        ensures
            range.low == low,
            range.high == high,
    {
        ByteRange { low, high }
    }
}

impl Label for ByteRange {
    type Symbol = u8;

    open spec fn spec_matches(&self, byte: u8) -> bool {
        self.low <= byte <= self.high
    }

    fn matches(&self, byte: u8) -> (matched: bool) {
        self.low <= byte && byte <= self.high
    }
}

/// The maximum number of the bytes that a character encodes to.
pub const MAX_LENGTH: usize = 4;

/// The encodings of one range of characters, as one [`ByteRange`] for each
/// byte.
///
/// A sequence of `n` ranges matches the byte strings of `n` bytes whose byte
/// `i` is in range `i`.
#[derive(Debug, Clone, Copy, PartialEq, Eq)]
pub struct ByteSequence {
    ranges: [ByteRange; 4],
    length: usize,
}

impl ByteSequence {
    #[verifier::type_invariant]
    closed spec fn well_formed(self) -> bool {
        1 <= self.length <= MAX_LENGTH
    }

    /// The ranges of the sequence, one for each byte, the first byte first.
    pub closed spec fn view(&self) -> Seq<ByteRange> {
        self.ranges@.take(self.length as int)
    }

    /// Returns one byte range for each byte of the encoding, the first byte
    /// first.
    pub fn ranges(&self) -> (ranges: &[ByteRange])
        ensures
            ranges@ == self.view(),
    {
        proof {
            use_type_invariant(self);
        }
        vstd::slice::slice_subrange(self.ranges.as_slice(), 0, self.length)
    }

    /// Creates a sequence from one byte range for each byte of the encoding.
    pub fn new(ranges: &[ByteRange]) -> (sequence: Self)
        requires
            1 <= ranges@.len() <= MAX_LENGTH,
        ensures
            sequence.view() == ranges@,
    {
        let empty = ByteRange { low: 0, high: 0 };
        let mut padded = [empty, empty, empty, empty];
        let mut i: usize = 0;
        while i < ranges.len()
            invariant
                i <= ranges@.len() <= 4,
                forall|j: int| 0 <= j < i ==> padded@[j] == ranges@[j],
            decreases ranges@.len() - i,
        {
            padded.set(i, ranges[i]);
            i = i + 1;
        }
        let sequence = ByteSequence { ranges: padded, length: ranges.len() };
        proof {
            assert(sequence.view() =~= ranges@);
        }
        sequence
    }
}

/// Whether `sequence` holds, for each byte, the range from that byte of the
/// encoding of `low` to that byte of the encoding of `high`, and matches a
/// byte string exactly where it encodes a character from `low` to `high`.
pub open spec fn spans(sequence: Seq<ByteRange>, low: int, high: int) -> bool {
    let first = encode_scalar(low as u32);
    let last = encode_scalar(high as u32);
    &&& sequence.len() == first.len()
    &&& sequence.len() == last.len()
    &&& forall|i: int|
        0 <= i < sequence.len() ==> (#[trigger] sequence[i]).low == first[i] && sequence[i].high
            == last[i]
    &&& exact(sequence, low, high)
}

/// Whether `sequences` split the characters from `low` to `high` into
/// consecutive ranges, in ascending sequence, one range for each sequence.
pub open spec fn covers(sequences: Seq<Seq<ByteRange>>, low: int, high: int) -> bool
    decreases sequences.len(),
{
    if sequences.len() == 0 {
        low > high
    } else {
        exists|middle: int|
            low <= middle <= high && spans(sequences[0], low, middle) && covers(
                sequences.drop_first(),
                middle + 1,
                high,
            )
    }
}

/// The ranges of each sequence of `sequences`.
pub open spec fn views(sequences: Seq<ByteSequence>) -> Seq<Seq<ByteRange>> {
    sequences.map_values(|sequence: ByteSequence| sequence.view())
}

proof fn lemma_covers_concat(
    first: Seq<Seq<ByteRange>>,
    second: Seq<Seq<ByteRange>>,
    low: int,
    middle: int,
    high: int,
)
    requires
        low <= middle + 1 <= high + 1,
        covers(first, low, middle),
        covers(second, middle + 1, high),
    ensures
        covers(first + second, low, high),
    decreases first.len(),
{
    if first.len() == 0 {
        assert(first + second =~= second);
    } else {
        let end = choose|end: int|
            low <= end <= middle && spans(first[0], low, end) && covers(
                first.drop_first(),
                end + 1,
                middle,
            );
        lemma_covers_concat(first.drop_first(), second, end + 1, middle, high);
        assert((first + second).drop_first() =~= first.drop_first() + second);
        assert((first + second)[0] == first[0]);
    }
}

/// Whether a class of the partition of `labels` starts or stops at `value`.
///
/// A label starts a class at its low byte, and the byte after its high byte
/// starts the next one.
pub open spec fn is_boundary(labels: Seq<ByteRange>, value: int) -> bool {
    exists|i: int|
        0 <= i < labels.len() && ((#[trigger] labels[i]).low == value || labels[i].high + 1
            == value)
}

/// Whether `class` is one segment between two boundaries of `labels`, with
/// each label that matches the segment.
pub open spec fn is_segment(labels: Seq<ByteRange>, class: LabelClass<ByteRange>) -> bool {
    let low = class.label.low as int;
    let high = class.label.high as int;
    let indexes = class.matching_labels@;
    &&& low <= high
    &&& is_boundary(labels, low)
    &&& is_boundary(labels, high + 1)
    &&& forall|value: int| low < value <= high ==> !is_boundary(labels, value)
    &&& indexes.len() > 0
    &&& forall|k: int| 0 <= k < indexes.len() ==> indexes[k] < labels.len()
    &&& forall|k: int, m: int| 0 <= k < m < indexes.len() ==> indexes[k] < indexes[m]
    &&& forall|i: int|
        0 <= i < labels.len() ==> (indexes.contains(i as usize) <==> (
        #[trigger] labels[i]).spec_matches(class.label.low))
}

/// A label matches each byte between two boundaries in the same manner.
proof fn lemma_same_match(labels: Seq<ByteRange>, low: int, byte: int, i: int)
    requires
        0 <= low <= byte <= 255,
        0 <= i < labels.len(),
        forall|value: int| low < value <= byte ==> !is_boundary(labels, value),
    ensures
        labels[i].spec_matches(low as u8) <==> labels[i].spec_matches(byte as u8),
{
    if labels[i].spec_matches(low as u8) && !labels[i].spec_matches(byte as u8) {
        assert(is_boundary(labels, labels[i].high + 1));
    }
    if !labels[i].spec_matches(low as u8) && labels[i].spec_matches(byte as u8) {
        assert(is_boundary(labels, labels[i].low as int));
    }
}

/// Returns the indexes of the labels that match `byte`, in ascending sequence.
fn matching(labels: &[ByteRange], byte: u8) -> (indexes: Vec<usize>)
    ensures
        forall|k: int| 0 <= k < indexes@.len() ==> indexes@[k] < labels@.len(),
        forall|k: int, m: int| 0 <= k < m < indexes@.len() ==> indexes@[k] < indexes@[m],
        forall|i: int|
            0 <= i < labels@.len() ==> (indexes@.contains(i as usize) <==> (
            #[trigger] labels@[i]).spec_matches(byte)),
{
    let mut indexes: Vec<usize> = Vec::new();
    let mut i: usize = 0;
    while i < labels.len()
        invariant
            i <= labels@.len(),
            forall|k: int| 0 <= k < indexes@.len() ==> indexes@[k] < i,
            forall|k: int, m: int| 0 <= k < m < indexes@.len() ==> indexes@[k] < indexes@[m],
            forall|j: int|
                0 <= j < i ==> (indexes@.contains(j as usize) <==> (
                #[trigger] labels@[j]).spec_matches(byte)),
        decreases labels@.len() - i,
    {
        let ghost before = indexes@;
        if labels[i].matches(byte) {
            indexes.push(i);
            proof {
                assert forall|j: int| 0 <= j < i + 1 implies (indexes@.contains(j as usize) <==> (
                #[trigger] labels@[j]).spec_matches(byte)) by {
                    if indexes@.contains(j as usize) && j != i {
                        let k = choose|k: int| 0 <= k < indexes@.len() && indexes@[k] == j as usize;
                        assert(before[k] == j as usize);
                    }
                    if j < i && before.contains(j as usize) {
                        let k = choose|k: int| 0 <= k < before.len() && before[k] == j as usize;
                        assert(indexes@[k] == j as usize);
                    }
                    if j == i {
                        assert(indexes@[indexes@.len() - 1] == i);
                    }
                }
            }
        } else {
            proof {
                assert forall|j: int| 0 <= j < i + 1 implies (indexes@.contains(j as usize) <==> (
                #[trigger] labels@[j]).spec_matches(byte)) by {
                    if j == i && indexes@.contains(j as usize) {
                        let k = choose|k: int| 0 <= k < indexes@.len() && indexes@[k] == j as usize;
                    }
                }
            }
        }
        i = i + 1;
    }
    indexes
}

impl Partitionable for ByteRange {
    /// Partitions `labels` into classes of consecutive bytes, in ascending
    /// sequence of their bytes.
    fn partition(labels: &[Self]) -> (classes: Vec<LabelClass<Self>>)
        ensures
            classes@.len() <= 256,
            forall|c: int| 0 <= c < classes@.len() ==> (#[trigger] classes@[c]).label.low
                <= classes@[c].label.high,
            forall|c: int, d: int|
                0 <= c < d < classes@.len() ==> (#[trigger] classes@[c]).label.high < (
                #[trigger] classes@[d]).label.low,
            (forall|i: int| 0 <= i < labels@.len() ==> (#[trigger] labels@[i]).low <= labels@[i].high)
                ==> forall|c: int|
                0 <= c < classes@.len() - 1 && (#[trigger] classes@[c]).label.high + 1 == classes@[c
                    + 1].label.low ==> classes@[c].matching_labels@ != classes@[c + 1].matching_labels@,
            (forall|i: int| 0 <= i < labels@.len() ==> (#[trigger] labels@[i]).low <= labels@[i].high)
                ==> coarse_partition(labels@, classes@),
    {
        let ghost all = labels@;
        // Mark each boundary of a class.
        let mut boundaries: Vec<bool> = Vec::new();
        let mut value: usize = 0;
        while value < 257
            invariant
                value <= 257,
                boundaries@.len() == value,
                forall|v: int| 0 <= v < value ==> !boundaries@[v],
            decreases 257 - value,
        {
            boundaries.push(false);
            value = value + 1;
        }
        let mut i: usize = 0;
        while i < labels.len()
            invariant
                all == labels@,
                i <= all.len(),
                boundaries@.len() == 257,
                forall|v: int|
                    0 <= v < 257 ==> (#[trigger] boundaries@[v] <==> exists|j: int|
                        0 <= j < i && ((#[trigger] all[j]).low == v || all[j].high + 1 == v)),
            decreases all.len() - i,
        {
            let label = labels[i];
            boundaries.set(label.low as usize, true);
            boundaries.set(label.high as usize + 1, true);
            proof {
                assert forall|v: int|
                    0 <= v < 257 implies (#[trigger] boundaries@[v] <==> exists|j: int|
                    0 <= j < i + 1 && ((#[trigger] all[j]).low == v || all[j].high + 1 == v)) by {
                    if v == label.low || v == label.high + 1 {
                        assert(all[i as int] == label);
                    }
                }
            }
            i = i + 1;
        }
        proof {
            assert forall|v: int| 0 <= v < 257 implies (#[trigger] boundaries@[v] <==> is_boundary(
                all,
                v,
            )) by {
                if boundaries@[v] {
                    let j = choose|j: int|
                        0 <= j < all.len() && ((#[trigger] all[j]).low == v || all[j].high + 1
                            == v);
                    assert(is_boundary(all, v));
                }
            }
        }

        // Each segment between two boundaries is one class.
        let mut classes: Vec<LabelClass<ByteRange>> = Vec::new();
        let mut start: usize = 0;
        let mut started = false;
        let mut byte: usize = 0;
        while byte < 257
            invariant
                all == labels@,
                byte <= 257,
                boundaries@.len() == 257,
                forall|v: int| 0 <= v < 257 ==> (#[trigger] boundaries@[v] <==> is_boundary(all, v)),
                started ==> start < byte && is_boundary(all, start as int),
                started ==> forall|v: int| start < v < byte ==> !is_boundary(all, v),
                !started ==> forall|v: int| 0 <= v < byte ==> !is_boundary(all, v),
                forall|c: int| 0 <= c < classes@.len() ==> is_segment(all, #[trigger] classes@[c]),
                classes@.len() > 0 ==> started,
                started ==> classes@.len() <= start,
                forall|c: int|
                    0 <= c < classes@.len() ==> (#[trigger] classes@[c]).label.high < start,
                forall|c: int, d: int|
                    0 <= c < d < classes@.len() ==> (#[trigger] classes@[c]).label.high < (
                    #[trigger] classes@[d]).label.low,
                (forall|i: int| 0 <= i < all.len() ==> (#[trigger] all[i]).low <= all[i].high)
                    ==> forall|c: int|
                    0 <= c < classes@.len() - 1 && (#[trigger] classes@[c]).label.high + 1 == classes@[c
                        + 1].label.low ==> classes@[c].matching_labels@ != classes@[c + 1].matching_labels@,
                forall|i: int, symbol: u8|
                    #![trigger all[i].spec_matches(symbol)]
                    0 <= i < all.len() && all[i].spec_matches(symbol) && started && symbol < start
                        ==> exists|c: int|
                        0 <= c < classes@.len() && (#[trigger] classes@[c]).label.spec_matches(
                            symbol,
                        ),
            decreases 257 - byte,
        {
            let ghost old_classes = classes@;
            if boundaries[byte] {
                if started {
                    let low = start as u8;
                    let high = (byte - 1) as u8;
                    let indexes = matching(labels, low);
                    if indexes.len() > 0 {
                        let class = LabelClass::new(ByteRange::new(low, high), indexes);
                        proof {
                            assert(is_boundary(all, high + 1));
                            assert(high == byte - 1);
                        }
                        classes.push(class);
                        proof {
                            assert(classes@[classes@.len() - 1].label.high == byte - 1);
                            let n = old_classes.len() as int;
                            if forall|i: int| 0 <= i < all.len() ==> (#[trigger] all[i]).low <= all[i].high {
                            assert forall|c: int|
                                0 <= c < classes@.len() - 1 && (#[trigger] classes@[c]).label.high + 1
                                    == classes@[c + 1].label.low implies classes@[c].matching_labels@
                                != classes@[c + 1].matching_labels@ by {
                                if c < n - 1 {
                                    assert(classes@[c] == old_classes[c]);
                                    assert(classes@[c + 1] == old_classes[c + 1]);
                                } else {
                                    let prior = old_classes[c];
                                    assert(classes@[c] == prior);
                                    assert(is_segment(all, prior));
                                    let v = start as int;
                                    assert(prior.label.high + 1 == v);
                                    let j = choose|j: int|
                                        0 <= j < all.len() && ((#[trigger] all[j]).low == v || all[j].high + 1 == v);
                                    lemma_same_match(all, prior.label.low as int, prior.label.high as int, j);
                                    assert(all[j].low <= all[j].high);
                                    if all[j].spec_matches(low) {
                                        assert(indexes@.contains(j as usize));
                                        assert(!all[j].spec_matches(prior.label.high));
                                        assert(!prior.matching_labels@.contains(j as usize));
                                    } else {
                                        assert(!indexes@.contains(j as usize));
                                        assert(all[j].spec_matches(prior.label.high));
                                        assert(prior.matching_labels@.contains(j as usize));
                                    }
                                }
                            }
                            }
                        }
                    }
                    proof {
                        assert forall|i: int, symbol: u8|
                            #![trigger all[i].spec_matches(symbol)]
                            0 <= i < all.len() && all[i].spec_matches(symbol) && symbol < byte
                                implies exists|c: int|
                            0 <= c < classes@.len() && (#[trigger] classes@[c]).label.spec_matches(
                                symbol,
                            ) by {
                            if symbol >= start {
                                lemma_same_match(all, start as int, symbol as int, i);
                                assert(indexes@.contains(i as usize));
                                assert(classes@.len() == old_classes.len() + 1);
                                let last = classes@.len() - 1;
                                assert(classes@[last].label.spec_matches(symbol));
                            } else {
                                let c = choose|c: int|
                                    0 <= c < old_classes.len() && (#[trigger] old_classes[c]).label.spec_matches(symbol);
                                assert(classes@[c] == old_classes[c]);
                                assert(classes@[c].label.spec_matches(symbol));
                            }
                        }
                    }
                } else {
                    proof {
                        assert forall|i: int, symbol: u8|
                            #![trigger all[i].spec_matches(symbol)]
                            0 <= i < all.len() && all[i].spec_matches(symbol) && symbol < byte
                                implies false by {
                            assert(is_boundary(all, all[i].low as int));
                        }
                    }
                }
                start = byte;
                started = true;
                proof {
                    assert forall|c: int| 0 <= c < classes@.len() implies (
                    #[trigger] classes@[c]).label.high < start by {
                        if c < old_classes.len() {
                            assert(classes@[c] == old_classes[c]);
                        } else {
                            assert(classes@[c].label.high == byte - 1);
                        }
                    }
                }
            }
            byte = byte + 1;
        }
        proof {
            assert forall|i: int, symbol: u8|
                #![trigger all[i].spec_matches(symbol)]
                0 <= i < all.len() && all[i].spec_matches(symbol) implies exists|c: int|
                0 <= c < classes@.len() && (#[trigger] classes@[c]).label.spec_matches(symbol) by {
                assert(is_boundary(all, all[i].high + 1));
                assert(started);
            }
            assert forall|c: int, symbol: u8|
                #![trigger classes@[c].label.spec_matches(symbol)]
                0 <= c < classes@.len() && classes@[c].label.spec_matches(symbol) implies forall|
                    i: int,
                |
                    0 <= i < all.len() ==> (classes@[c].matching_labels@.contains(i as usize)
                        <==> #[trigger] all[i].spec_matches(symbol)) by {
                let class = classes@[c];
                assert(is_segment(all, class));
                assert forall|i: int| 0 <= i < all.len() implies (
                class.matching_labels@.contains(i as usize) <==> #[trigger] all[i].spec_matches(
                    symbol,
                )) by {
                    lemma_same_match(all, class.label.low as int, symbol as int, i);
                }
            }
            assert forall|c: int| 0 <= c < classes@.len() implies #[trigger] inhabited(classes@[c].label) by {
                assert(classes@[c].label.spec_matches(classes@[c].label.low));
            }
        }
        classes
    }
}

/// The largest character that encodes to one byte.
pub const MAX_ONE: u32 = 0x7F;

/// The largest character that encodes to two bytes.
pub const MAX_TWO: u32 = 0x7FF;

/// The largest character that encodes to three bytes.
pub const MAX_THREE: u32 = 0xFFFF;

/// The largest character.
pub const MAX_CHARACTER: u32 = 0x10FFFF;

/// Whether `value` is a character: a code point that is no surrogate.
pub open spec fn is_character(value: int) -> bool {
    0 <= value <= MAX_CHARACTER && !(FIRST_SURROGATE <= value <= LAST_SURROGATE)
}

/// Returns the number of the bytes that `codepoint` encodes to.
fn encoded_length(codepoint: u32) -> (length: usize)
    requires
        is_character(codepoint as int),
    ensures
        length == encode_scalar(codepoint).len(),
        length == if codepoint <= MAX_ONE {
            1usize
        } else if codepoint <= MAX_TWO {
            2usize
        } else if codepoint <= MAX_THREE {
            3usize
        } else {
            4usize
        },
{
    if codepoint <= MAX_ONE {
        1
    } else if codepoint <= MAX_TWO {
        2
    } else if codepoint <= MAX_THREE {
        3
    } else {
        4
    }
}

/// Returns the encoding of `codepoint`, with zeroes after the last byte.
fn encode_character(codepoint: u32) -> (bytes: [u8; 4])
    requires
        is_character(codepoint as int),
    ensures
        forall|i: int| 0 <= i < encode_scalar(codepoint).len() ==> bytes@[i] == encode_scalar(
            codepoint,
        )[i],
{
    if codepoint <= MAX_ONE {
        [(codepoint & 0x7F) as u8, 0, 0, 0]
    } else if codepoint <= MAX_TWO {
        [0xC0 | ((codepoint >> 6) & 0x1F) as u8, 0x80 | (codepoint & 0x3F) as u8, 0, 0]
    } else if codepoint <= MAX_THREE {
        [
            0xE0 | ((codepoint >> 12) & 0x0F) as u8,
            0x80 | ((codepoint >> 6) & 0x3F) as u8,
            0x80 | (codepoint & 0x3F) as u8,
            0,
        ]
    } else {
        [
            0xF0 | ((codepoint >> 18) & 0x7) as u8,
            0x80 | ((codepoint >> 12) & 0x3F) as u8,
            0x80 | ((codepoint >> 6) & 0x3F) as u8,
            0x80 | (codepoint & 0x3F) as u8,
        ]
    }
}

/// Whether the characters from `low` to `high` hold no surrogate.
pub open spec fn free_of_surrogates(low: int, high: int) -> bool {
    high < FIRST_SURROGATE || low > LAST_SURROGATE
}

/// Adds the sequences that encode the characters from `low` to `high` to
/// `out`.
///
/// The function splits the range until the encodings of each part make one
/// sequence. The added sequences split the characters from `low` to `high`
/// into consecutive ranges, in ascending sequence, each as long as one
/// sequence can be from its first character.
fn encode_range(low: u32, high: u32, out: &mut Vec<ByteSequence>)
    requires
        high <= MAX_CHARACTER,
        low <= MAX_CHARACTER + 1,
        free_of_surrogates(low as int, high as int),
    ensures
        final(out)@.len() >= old(out)@.len(),
        final(out)@.take(old(out)@.len() as int) == old(out)@,
        covers(views(final(out)@.skip(old(out)@.len() as int)), low as int, high as int),
        covers_longest(views(final(out)@.skip(old(out)@.len() as int)), low as int, high as int, high as int),
    decreases high - low,
{
    let ghost before = out@;
    if low > high {
        proof {
            assert(views(out@.skip(before.len() as int)) =~= Seq::<Seq<ByteRange>>::empty());
            assert(out@.take(before.len() as int) =~= before);
            assert(covers_longest(Seq::<Seq<ByteRange>>::empty(), low as int, high as int, high as int));
        }
        return;
    }
    // Characters of different encoded lengths have no byte string in common.
    // Thus split the range where the encoding gets one more byte.
    let limits: [u32; 3] = [MAX_ONE, MAX_TWO, MAX_THREE];
    let mut k: usize = 0;
    while k < 3
        invariant
            k <= 3,
            low <= high <= MAX_CHARACTER,
            free_of_surrogates(low as int, high as int),
            before == out@,
            before == old(out)@,
            limits@ == seq![MAX_ONE, MAX_TWO, MAX_THREE],
            forall|j: int| 0 <= j < k ==> !(low <= limits@[j] && limits@[j] < high),
        decreases 3 - k,
    {
        let max = limits[k];
        if low <= max && max < high {
            encode_range(low, max, out);
            let ghost middle = out@;
            encode_range(max + 1, high, out);
            proof {
                lemma_split(before, middle, out@, low as int, max as int, high as int);
                lemma_lengths_apart(low as int, max as int, high as int);
                lemma_split_longest(before, middle, out@, low as int, max as int, high as int);
            }
            return;
        }
        k = k + 1;
    }

    let length = encoded_length(low);
    proof {
        assert(encoded_length_spec(low as int) == encoded_length_spec(high as int));
    }
    if length == 1 {
        let range = ByteRange { low: low as u8, high: high as u8 };
        let ranges = [range];
        out.push(ByteSequence::new(ranges.as_slice()));
        proof {
            assert(low <= 0x7F ==> (low & 0x7F) as u8 == low as u8) by (bit_vector);
            assert(high <= 0x7F ==> (high & 0x7F) as u8 == high as u8) by (bit_vector);
            assert(out@.last().view()[0] == range);
            assert(between_ends(out@.last().view(), low, high));
            lemma_exact_one(out@.last().view(), low, high);
            assert(out@.take(before.len() as int) =~= before);
            lemma_push_one(before, out@, low as int, high as int);
            lemma_push_longest(before, out@, low as int, high as int);
        }
        return;
    }

    // In a sequence, each byte moves through its own range independently. Thus
    // a sequence is equal to the character range only if the trailing bytes
    // move through all of their values. `mask` covers the payload bits of the
    // last `trailing` bytes. Split a range that does not obey this condition
    // at the first value that does.
    let mut trailing: u32 = 1;
    while (trailing as usize) < length
        invariant
            1 <= trailing <= length <= 4,
            length == encoded_length_spec(low as int),
            encoded_length_spec(low as int) == encoded_length_spec(high as int),
            low <= high <= MAX_CHARACTER,
            free_of_surrogates(low as int, high as int),
            before == out@,
            before == old(out)@,
            trailing >= 2 ==> aligned(low, high, 0x3F),
            trailing >= 3 ==> aligned(low, high, 0xFFF),
            trailing >= 4 ==> aligned(low, high, 0x3FFFF),
        decreases length - trailing,
    {
        proof {
            lemma_mask(trailing);
        }
        let mask: u32 = (1u32 << (6 * trailing)) - 1;
        if low & !mask == high & !mask {
            trailing = trailing + 1;
            continue;
        }
        if low & mask != 0 {
            proof {
                lemma_split_low(low, high, mask);
            }
            encode_range(low, low | mask, out);
            let ghost middle = out@;
            encode_range((low | mask) + 1, high, out);
            proof {
                lemma_split(before, middle, out@, low as int, (low | mask) as int, high as int);
                lemma_low_apart(low, high, mask);
                assert forall|a: int, m: int| low <= a <= (low | mask) < m <= high implies !#[trigger] one_sequence(a, m) by {
                    assert(encoded_length_spec(a) == length);
                    if one_sequence(a, m) {
                        assert(aligned(a as u32, m as u32, mask));
                    }
                }
                lemma_split_longest(before, middle, out@, low as int, (low | mask) as int, high as int);
            }
            return;
        }
        if high & mask != mask {
            proof {
                lemma_split_high(low, high, mask);
            }
            encode_range(low, (high & !mask) - 1, out);
            let ghost middle = out@;
            encode_range(high & !mask, high, out);
            proof {
                lemma_split(before, middle, out@, low as int, (high & !mask) - 1, high as int);
                lemma_high_apart(low, high, mask);
                assert forall|a: int, m: int| low <= a <= (high & !mask) - 1 < m <= high implies !#[trigger] one_sequence(a, m) by {
                    assert(encoded_length_spec(a) == length);
                    if one_sequence(a, m) {
                        assert(aligned(a as u32, m as u32, mask));
                    }
                }
                lemma_split_longest(before, middle, out@, low as int, (high & !mask) - 1, high as int);
            }
            return;
        }
        trailing = trailing + 1;
    }

    let low_bytes = encode_character(low);
    let high_bytes = encode_character(high);
    let empty = ByteRange { low: 0, high: 0 };
    let mut ranges = [empty, empty, empty, empty];
    let mut i: usize = 0;
    while i < length
        invariant
            i <= length,
            length == encode_scalar(low).len(),
            length == encode_scalar(high).len(),
            2 <= length <= 4,
            forall|j: int| 0 <= j < length ==> low_bytes@[j] == encode_scalar(low)[j],
            forall|j: int| 0 <= j < length ==> high_bytes@[j] == encode_scalar(high)[j],
            forall|j: int|
                0 <= j < i ==> (#[trigger] ranges@[j]).low == encode_scalar(low)[j]
                    && ranges@[j].high == encode_scalar(high)[j],
        decreases length - i,
    {
        ranges.set(i, ByteRange { low: low_bytes[i], high: high_bytes[i] });
        i = i + 1;
    }
    let sequence = ByteSequence::new(vstd::slice::slice_subrange(ranges.as_slice(), 0, length));
    out.push(sequence);
    proof {
        let view = sequence.view();
        assert(between_ends(view, low, high));
        if length == 2 {
            lemma_exact_two(view, low, high);
        } else if length == 3 {
            lemma_exact_three(view, low, high);
        } else {
            lemma_exact_four(view, low, high);
        }
        assert(out@.last().view() == view);
        assert(out@.take(before.len() as int) =~= before);
        lemma_push_one(before, out@, low as int, high as int);
        lemma_push_longest(before, out@, low as int, high as int);
    }
}

/// The number of the bytes that the encoding of `value` holds.
pub open spec fn encoded_length_spec(value: int) -> int {
    if value <= MAX_ONE {
        1
    } else if value <= MAX_TWO {
        2
    } else if value <= MAX_THREE {
        3
    } else {
        4
    }
}

proof fn lemma_mask(trailing: u32)
    requires
        1 <= trailing <= 3,
    ensures
        (1u32 << (6 * trailing)) >= 1,
        (1u32 << (6 * trailing)) - 1 == if trailing == 1 {
            0x3Fu32
        } else if trailing == 2 {
            0xFFFu32
        } else {
            0x3FFFFu32
        },
{
    if trailing == 1 {
        assert((1u32 << 6u32) == 64) by (bit_vector);
    } else if trailing == 2 {
        assert((1u32 << 12u32) == 4096) by (bit_vector);
    } else {
        assert((1u32 << 18u32) == 0x40000) by (bit_vector);
    }
}

proof fn lemma_split_low(low: u32, high: u32, mask: u32)
    requires
        low <= high,
        mask == 0x3F || mask == 0xFFF || mask == 0x3FFFF,
        low & !mask != high & !mask,
        low & mask != 0,
    ensures
        low <= (low | mask) < high,
{
    assert(low <= (low | mask)) by (bit_vector);
    assert((mask == 0x3F || mask == 0xFFF || mask == 0x3FFFF) && low <= high && low & !mask
        != high & !mask ==> (low | mask) < high) by (bit_vector);
}

proof fn lemma_split_high(low: u32, high: u32, mask: u32)
    requires
        low <= high,
        mask == 0x3F || mask == 0xFFF || mask == 0x3FFFF,
        low & !mask != high & !mask,
        low & mask == 0,
    ensures
        low < (high & !mask) <= high,
{
    assert((high & !mask) <= high) by (bit_vector);
    assert((mask == 0x3F || mask == 0xFFF || mask == 0x3FFFF) && low <= high && low & !mask
        != high & !mask && low & mask == 0 ==> low < (high & !mask)) by (bit_vector);
}

proof fn lemma_split(
    before: Seq<ByteSequence>,
    middle: Seq<ByteSequence>,
    after: Seq<ByteSequence>,
    low: int,
    split: int,
    high: int,
)
    requires
        low <= split < high,
        middle.len() >= before.len(),
        middle.take(before.len() as int) == before,
        covers(views(middle.skip(before.len() as int)), low, split),
        after.len() >= middle.len(),
        after.take(middle.len() as int) == middle,
        covers(views(after.skip(middle.len() as int)), split + 1, high),
    ensures
        after.len() >= before.len(),
        after.take(before.len() as int) == before,
        covers(views(after.skip(before.len() as int)), low, high),
{
    let first = views(middle.skip(before.len() as int));
    let second = views(after.skip(middle.len() as int));
    lemma_covers_concat(first, second, low, split, high);
    assert(after.take(before.len() as int) =~= before);
    assert(views(after.skip(before.len() as int)) =~= first + second);
}

proof fn lemma_push_one(before: Seq<ByteSequence>, after: Seq<ByteSequence>, low: int, high: int)
    requires
        low <= high,
        after.len() == before.len() + 1,
        after.take(before.len() as int) == before,
        spans(after.last().view(), low, high),
    ensures
        covers(views(after.skip(before.len() as int)), low, high),
{
    let added = views(after.skip(before.len() as int));
    assert(added.len() == 1);
    assert(added[0] == after.last().view());
    assert(covers(added.drop_first(), high + 1, high));
}

/// Whether one sequence encodes the characters from `low` to `high`: they
/// encode to the same number of bytes, and each trailing byte either stays
/// in one block of its values or runs through all of them.
pub open spec fn one_sequence(low: int, high: int) -> bool {
    &&& 0 <= low <= high <= MAX_CHARACTER
    &&& encoded_length_spec(low) == encoded_length_spec(high)
    &&& encoded_length_spec(low) >= 2 ==> aligned(low as u32, high as u32, 0x3F)
    &&& encoded_length_spec(low) >= 3 ==> aligned(low as u32, high as u32, 0xFFF)
    &&& encoded_length_spec(low) >= 4 ==> aligned(low as u32, high as u32, 0x3FFFF)
}

/// Whether `sequences` cover the characters from `low` to `high` as
/// [`covers`] does, and each sequence reaches as far as one sequence can:
/// no sequence encodes its characters together with the characters after
/// them up to any character up to `top`. Thus the split is the one of the
/// fewest sequences, each as long as it can be from its first character.
pub open spec fn covers_longest(sequences: Seq<Seq<ByteRange>>, low: int, high: int, top: int) -> bool
    decreases sequences.len(),
{
    if sequences.len() == 0 {
        low > high
    } else {
        exists|middle: int|
            low <= middle <= high && spans(sequences[0], low, middle) && (forall|m: int|
                middle < m <= top ==> !#[trigger] one_sequence(low, m)) && covers_longest(
                sequences.drop_first(),
                middle + 1,
                high,
                top,
            )
    }
}

/// The longest split covers its characters.
proof fn lemma_longest_covers(sequences: Seq<Seq<ByteRange>>, low: int, high: int, top: int)
    requires
        covers_longest(sequences, low, high, top),
    ensures
        covers(sequences, low, high),
    decreases sequences.len(),
{
    if sequences.len() > 0 {
        let middle = choose|middle: int|
            low <= middle <= high && spans(sequences[0], low, middle) && (forall|m: int|
                middle < m <= top ==> !#[trigger] one_sequence(low, m)) && covers_longest(
                sequences.drop_first(),
                middle + 1,
                high,
                top,
            );
        lemma_longest_covers(sequences.drop_first(), middle + 1, high, top);
    }
}

/// A longest split up to `mid` stays longest up to `top` where no sequence
/// can run from a character up to `mid` past `mid`.
proof fn lemma_longest_raise(sequences: Seq<Seq<ByteRange>>, low: int, mid: int, top: int)
    requires
        covers_longest(sequences, low, mid, mid),
        forall|a: int, m: int| low <= a <= mid < m <= top ==> !#[trigger] one_sequence(a, m),
    ensures
        covers_longest(sequences, low, mid, top),
    decreases sequences.len(),
{
    if sequences.len() > 0 {
        let middle = choose|middle: int|
            low <= middle <= mid && spans(sequences[0], low, middle) && (forall|m: int|
                middle < m <= mid ==> !#[trigger] one_sequence(low, m)) && covers_longest(
                sequences.drop_first(),
                middle + 1,
                mid,
                mid,
            );
        lemma_longest_raise(sequences.drop_first(), middle + 1, mid, top);
        assert forall|m: int| middle < m <= top implies !#[trigger] one_sequence(low, m) by {
            if m > mid {
                assert(low <= low <= mid < m <= top);
            }
        }
    }
}

/// Two longest splits of consecutive characters make one.
proof fn lemma_longest_concat(
    first: Seq<Seq<ByteRange>>,
    second: Seq<Seq<ByteRange>>,
    low: int,
    middle: int,
    high: int,
    top: int,
)
    requires
        low <= middle + 1 <= high + 1,
        covers_longest(first, low, middle, top),
        covers_longest(second, middle + 1, high, top),
    ensures
        covers_longest(first + second, low, high, top),
    decreases first.len(),
{
    if first.len() == 0 {
        assert(first + second =~= second);
    } else {
        let end = choose|end: int|
            low <= end <= middle && spans(first[0], low, end) && (forall|m: int|
                end < m <= top ==> !#[trigger] one_sequence(low, m)) && covers_longest(
                first.drop_first(),
                end + 1,
                middle,
                top,
            );
        lemma_longest_concat(first.drop_first(), second, end + 1, middle, high, top);
        assert((first + second).drop_first() =~= first.drop_first() + second);
        assert((first + second)[0] == first[0]);
    }
}

/// The longest splits of two parts make the longest split of the whole,
/// where no sequence runs from the first part into the second.
proof fn lemma_split_longest(
    before: Seq<ByteSequence>,
    middle: Seq<ByteSequence>,
    after: Seq<ByteSequence>,
    low: int,
    split: int,
    high: int,
)
    requires
        low <= split < high,
        middle.len() >= before.len(),
        middle.take(before.len() as int) == before,
        covers_longest(views(middle.skip(before.len() as int)), low, split, split),
        after.len() >= middle.len(),
        after.take(middle.len() as int) == middle,
        covers_longest(views(after.skip(middle.len() as int)), split + 1, high, high),
        forall|a: int, m: int| low <= a <= split < m <= high ==> !#[trigger] one_sequence(a, m),
    ensures
        covers_longest(views(after.skip(before.len() as int)), low, high, high),
{
    let first = views(middle.skip(before.len() as int));
    let second = views(after.skip(middle.len() as int));
    lemma_longest_raise(first, low, split, high);
    lemma_longest_concat(first, second, low, split, high, high);
    assert(views(after.skip(before.len() as int)) =~= first + second);
}

/// One sequence that spans its characters is their longest split.
proof fn lemma_push_longest(before: Seq<ByteSequence>, after: Seq<ByteSequence>, low: int, high: int)
    requires
        low <= high,
        after.len() == before.len() + 1,
        after.take(before.len() as int) == before,
        spans(after.last().view(), low, high),
    ensures
        covers_longest(views(after.skip(before.len() as int)), low, high, high),
{
    let added = views(after.skip(before.len() as int));
    assert(added.len() == 1);
    assert(added[0] == after.last().view());
    assert(covers_longest(added.drop_first(), high + 1, high, high));
}

/// No sequence holds characters of two encoded lengths.
proof fn lemma_lengths_apart(low: int, max: int, high: int)
    requires
        max == MAX_ONE || max == MAX_TWO || max == MAX_THREE,
    ensures
        forall|a: int, m: int| low <= a <= max < m <= high ==> !#[trigger] one_sequence(a, m),
{
}

/// No sequence runs from the first block of a split at the end of the block
/// of `low` past that block.
proof fn lemma_low_apart(low: u32, high: u32, mask: u32)
    requires
        low <= high <= MAX_CHARACTER,
        mask == 0x3F || mask == 0xFFF || mask == 0x3FFFF,
        low & mask != 0,
    ensures
        forall|a: u32, m: u32| low <= a <= (low | mask) < m ==> !#[trigger] aligned(a, m, mask),
{
    assert forall|a: u32, m: u32| low <= a <= (low | mask) < m implies !#[trigger] aligned(a, m, mask) by {
        assert((mask == 0x3F || mask == 0xFFF || mask == 0x3FFFF) && low & mask != 0 && low <= a && a
            <= (low | mask) && (low | mask) < m ==> !((a & !mask == m & !mask) || (a & mask == 0 && m
            & mask == mask))) by (bit_vector);
    }
}

/// No sequence runs from below the block of `high` into that block, where
/// `high` stops in the middle of its block.
proof fn lemma_high_apart(low: u32, high: u32, mask: u32)
    requires
        low <= high <= MAX_CHARACTER,
        mask == 0x3F || mask == 0xFFF || mask == 0x3FFFF,
        high & mask != mask,
        low < (high & !mask),
    ensures
        forall|a: u32, m: u32| a < (high & !mask) <= m <= high ==> !#[trigger] aligned(a, m, mask),
{
    assert forall|a: u32, m: u32| a < (high & !mask) <= m <= high implies !#[trigger] aligned(a, m, mask) by {
        assert((mask == 0x3F || mask == 0xFFF || mask == 0x3FFFF) && high & mask != mask && a < (high
            & !mask) && (high & !mask) <= m && m <= high ==> !((a & !mask == m & !mask) || (a & mask
            == 0 && m & mask == mask))) by (bit_vector);
    }
}

/// Whether `sequences` encode the ranges of characters `ranges`: the
/// sequences of each range follow those of the range before it, and they
/// split that range as [`covers`] says.
pub open spec fn encodes(sequences: Seq<Seq<ByteRange>>, ranges: Seq<(char, char)>) -> bool
    decreases ranges.len(),
{
    if ranges.len() == 0 {
        sequences.len() == 0
    } else {
        exists|k: int|
            0 <= k <= sequences.len() && encodes(sequences.take(k), ranges.drop_last()) && covers(
                sequences.skip(k),
                ranges.last().0 as u32 as int,
                ranges.last().1 as u32 as int,
            )
    }
}

/// Whether `sequences` encode the ranges of characters `ranges` as
/// [`encodes`] does, with the longest split of each range.
pub open spec fn encodes_longest(sequences: Seq<Seq<ByteRange>>, ranges: Seq<(char, char)>) -> bool
    decreases ranges.len(),
{
    if ranges.len() == 0 {
        sequences.len() == 0
    } else {
        exists|k: int|
            0 <= k <= sequences.len() && encodes_longest(sequences.take(k), ranges.drop_last())
                && covers_longest(
                sequences.skip(k),
                ranges.last().0 as u32 as int,
                ranges.last().1 as u32 as int,
                ranges.last().1 as u32 as int,
            )
    }
}

/// Encodes `set` to the byte sequences that encode its characters.
///
/// The sequences of each range of `set` split that range into consecutive
/// ranges of characters, in ascending sequence. A sequence holds, at each
/// byte, the range from that byte of the encoding of its first character to
/// that byte of the encoding of its last character.
///
/// Each sequence holds one to four ranges. A byte string is matched by a
/// sequence exactly where it is the encoding of a character of `set`, and
/// then by one sequence only, and the characters of each sequence lie below
/// those of each later one. Each sequence runs as
/// far as one sequence can from its first character, thus a range splits into
/// the fewest sequences.
///
/// A set that holds no characters encodes to no sequences.
pub fn encode(set: &CharSet) -> (sequences: Vec<ByteSequence>)
    requires
        valid_ranges(set.view()),
    ensures
        encodes(views(sequences@), set.view()),
        encodes_longest(views(sequences@), set.view()),
        forall|bytes: Seq<u8>|
            #[trigger] matched_by_one(views(sequences@), bytes) <==> exists|c: u32|
                #[trigger] in_ranges(set.view(), c) && encode_scalar(c) == bytes,
        disjoint(views(sequences@)),
        shaped(views(sequences@)),
        ascending(views(sequences@)),
{
    let ranges = set.ranges();
    let mut sequences: Vec<ByteSequence> = Vec::new();
    let mut i: usize = 0;
    proof {
        assert(views(sequences@) =~= Seq::<Seq<ByteRange>>::empty());
        assert(ranges@.take(0) =~= Seq::<(char, char)>::empty());
    }
    while i < ranges.len()
        invariant
            i <= ranges@.len(),
            valid_ranges(ranges@),
            encodes(views(sequences@), ranges@.take(i as int)),
            encodes_longest(views(sequences@), ranges@.take(i as int)),
        decreases ranges@.len() - i,
    {
        let (low, high) = ranges[i];
        let ghost before = sequences@;
        proof {
            assert(ranges@[i as int] == (low, high));
            vstd::utf8::char_is_scalar(low);
            vstd::utf8::char_is_scalar(high);
        }
        encode_range(low as u32, high as u32, &mut sequences);
        proof {
            let taken = ranges@.take(i + 1);
            assert(taken.drop_last() =~= ranges@.take(i as int));
            assert(taken.last() == (low, high));
            let k = before.len() as int;
            assert(views(sequences@).take(k) =~= views(before)) by {
                assert(sequences@.take(k) == before);
            }
            assert(views(sequences@).skip(k) =~= views(sequences@.skip(k)));
            assert(encodes(views(sequences@).take(k), taken.drop_last()));
            assert(covers(views(sequences@.skip(k)), low as u32 as int, high as u32 as int));
            assert(covers(views(sequences@).skip(k), low as u32 as int, high as u32 as int));

            assert(encodes(views(sequences@), taken));
            assert(encodes_longest(views(sequences@).take(k), taken.drop_last()));
            assert(covers_longest(views(sequences@).skip(k), low as u32 as int, high as u32 as int, high as u32 as int));
            assert(encodes_longest(views(sequences@), taken));
        }
        i = i + 1;
    }
    proof {
        assert(ranges@.take(ranges@.len() as int) =~= ranges@);
        assert forall|bytes: Seq<u8>|
            #[trigger] matched_by_one(views(sequences@), bytes) <==> exists|c: u32|
                #[trigger] in_ranges(set.view(), c) && encode_scalar(c) == bytes by {
            lemma_encodes_encodings(views(sequences@), set.view(), bytes);
        }
        lemma_encodes_disjoint(views(sequences@), set.view());
        lemma_encodes_ascending(views(sequences@), set.view());
    }
    sequences
}

impl Utf8 {
    /// Lowers `set` into the byte sequences of its characters.
    pub fn encode(&self, set: &CharSet) -> (sequences: Vec<ByteSequence>)
        requires
            valid_ranges(set.view()),
        ensures
            encodes(views(sequences@), set.view()),
            encodes_longest(views(sequences@), set.view()),
            forall|bytes: Seq<u8>|
                #[trigger] matched_by_one(views(sequences@), bytes) <==> exists|c: u32|
                    #[trigger] in_ranges(set.view(), c) && encode_scalar(c) == bytes,
            disjoint(views(sequences@)),
            shaped(views(sequences@)),
            ascending(views(sequences@)),
    {
        encode(set)
    }
}


/// Whether a label of `labels` matches `byte`.
pub open spec fn matched_by(labels: Seq<ByteRange>, byte: u8) -> bool {
    exists|i: int| 0 <= i < labels.len() && #[trigger] labels[i].spec_matches(byte)
}

/// Whether a class of `classes` holds `byte`.
pub open spec fn in_class(classes: Seq<(ByteRange, u8)>, byte: u8) -> bool {
    exists|c: int| 0 <= c < classes.len() && #[trigger] classes[c].0.spec_matches(byte)
}

/// Whether `classes` divides the bytes that `labels` match into disjoint
/// ranges, in ascending sequence, each with its lowest byte.
///
/// A byte that a label matches lies in one class, a byte that no label
/// matches lies in none, and each label matches each byte of one class or
/// none of them.
pub open spec fn divided(labels: Seq<ByteRange>, classes: Seq<(ByteRange, u8)>) -> bool {
    &&& classes.len() <= 256
    &&& forall|c: int|
        0 <= c < classes.len() ==> (#[trigger] classes[c]).1 == classes[c].0.low && classes[c].0.low
            <= classes[c].0.high
    &&& forall|c: int, d: int|
        0 <= c < d < classes.len() ==> (#[trigger] classes[c]).0.high < (#[trigger] classes[d]).0.low
    &&& forall|byte: u8|
        #![trigger matched_by(labels, byte)]
        #![trigger in_class(classes, byte)]
        matched_by(labels, byte) <==> in_class(classes, byte)
    &&& forall|c: int, byte: u8, i: int|
        0 <= c < classes.len() && 0 <= i < labels.len() && (#[trigger] classes[c]).0.spec_matches(byte)
            ==> (#[trigger] labels[i].spec_matches(byte) <==> labels[i].spec_matches(classes[c].1))
}

impl ByteRange {
    /// Divides the bytes that `labels` match into disjoint classes, each
    /// with its lowest byte, in ascending sequence.
    pub fn divide(labels: &[ByteRange]) -> (classes: Vec<(ByteRange, u8)>)
        ensures
            divided(labels@, classes@),
    {
        let partition = <ByteRange as Partitionable>::partition(labels);
        let mut classes: Vec<(ByteRange, u8)> = Vec::new();
        let mut c: usize = 0;
        while c < partition.len()
            invariant
                is_partition(labels@, partition@),
                partition@.len() <= 256,
                forall|k: int| 0 <= k < partition@.len() ==> (#[trigger] partition@[k]).label.low
                    <= partition@[k].label.high,
                forall|k: int, m: int|
                    0 <= k < m < partition@.len() ==> (#[trigger] partition@[k]).label.high < (
                    #[trigger] partition@[m]).label.low,
                c <= partition@.len(),
                classes@.len() == c,
                forall|k: int|
                    0 <= k < c ==> #[trigger] classes@[k] == (partition@[k].label, partition@[k].label.low),
            decreases partition@.len() - c,
        {
            let label = partition[c].label;
            classes.push((label, label.low));
            c = c + 1;
        }
        proof {
            let parts = partition@;
            assert forall|byte: u8| matched_by(labels@, byte) <==> in_class(classes@, byte) by {
                if exists|i: int| 0 <= i < labels@.len() && #[trigger] labels@[i].spec_matches(byte) {
                    let i = choose|i: int| 0 <= i < labels@.len() && #[trigger] labels@[i].spec_matches(byte);
                    let k = choose|k: int| 0 <= k < parts.len() && #[trigger] parts[k].label.spec_matches(byte);
                    assert(classes@[k].0.spec_matches(byte));
                }
                if exists|c: int| 0 <= c < classes@.len() && #[trigger] classes@[c].0.spec_matches(byte) {
                    let k = choose|k: int| 0 <= k < classes@.len() && #[trigger] classes@[k].0.spec_matches(byte);
                    assert(parts[k].label.spec_matches(byte));
                    let indexes = parts[k].matching_labels@;
                    assert(indexes.len() > 0);
                    let i = indexes[0] as int;
                    assert(indexes.contains(indexes[0]));
                    assert(labels@[i].spec_matches(byte));
                }
            }
            assert forall|k: int, byte: u8, i: int|
                0 <= k < classes@.len() && 0 <= i < labels@.len() && (#[trigger] classes@[k]).0.spec_matches(byte)
                    implies (#[trigger] labels@[i].spec_matches(byte) <==> labels@[i].spec_matches(classes@[k].1)) by {
                let low = parts[k].label.low;
                assert(parts[k].label.spec_matches(byte));
                assert(parts[k].label.spec_matches(low));
                assert(parts[k].matching_labels@.contains(i as usize) <==> labels@[i].spec_matches(byte));
                assert(parts[k].matching_labels@.contains(i as usize) <==> labels@[i].spec_matches(low));
            }
        }
        classes
    }
}

/// Whether the characters from `low` to `high` share the bits above `mask`,
/// or run through each value of the bits of `mask`.
pub open spec fn aligned(low: u32, high: u32, mask: u32) -> bool {
    (low & !mask == high & !mask) || (low & mask == 0 && high & mask == mask)
}

/// The character whose two-byte encoding is `b0`, `b1`.
pub open spec fn decoded_two(b0: u8, b1: u8) -> u32 {
    (((b0 & 0x1F) as u32) << 6) | ((b1 & 0x3F) as u32)
}

/// Two bytes between the encodings of an aligned range of two-byte
/// characters encode a character of the range.
proof fn lemma_two_within(low: u32, high: u32, b0: u8, b1: u8)
    by (bit_vector)
    requires
        0x80 <= low <= high <= 0x7FF,
        aligned(low, high, 0x3F),
        0xC0 | ((low >> 6) & 0x1F) as u8 <= b0 <= 0xC0 | ((high >> 6) & 0x1F) as u8,
        0x80 | (low & 0x3F) as u8 <= b1 <= 0x80 | (high & 0x3F) as u8,
    ensures
        low <= decoded_two(b0, b1) <= high,
        0xC0 | ((decoded_two(b0, b1) >> 6) & 0x1F) as u8 == b0,
        0x80 | (decoded_two(b0, b1) & 0x3F) as u8 == b1,
{
}

/// The encoding of a character of an aligned range of two-byte characters
/// lies between the encodings of its ends.
proof fn lemma_two_between(low: u32, high: u32, c: u32)
    by (bit_vector)
    requires
        0x80 <= low <= c <= high <= 0x7FF,
        aligned(low, high, 0x3F),
    ensures
        0xC0 | ((low >> 6) & 0x1F) as u8 <= 0xC0 | ((c >> 6) & 0x1F) as u8 <= 0xC0 | ((high >> 6) & 0x1F) as u8,
        0x80 | (low & 0x3F) as u8 <= 0x80 | (c & 0x3F) as u8 <= 0x80 | (high & 0x3F) as u8,
{
}

/// The character whose three-byte encoding is `b0`, `b1`, `b2`.
pub open spec fn decoded_three(b0: u8, b1: u8, b2: u8) -> u32 {
    (((b0 & 0x0F) as u32) << 12) | (((b1 & 0x3F) as u32) << 6) | ((b2 & 0x3F) as u32)
}

/// Three bytes between the encodings of an aligned range of three-byte
/// characters encode a character of the range.
proof fn lemma_three_within(low: u32, high: u32, b0: u8, b1: u8, b2: u8)
    by (bit_vector)
    requires
        0x800 <= low <= high <= 0xFFFF,
        aligned(low, high, 0x3F),
        aligned(low, high, 0xFFF),
        0xE0 | ((low >> 12) & 0x0F) as u8 <= b0 <= 0xE0 | ((high >> 12) & 0x0F) as u8,
        0x80 | ((low >> 6) & 0x3F) as u8 <= b1 <= 0x80 | ((high >> 6) & 0x3F) as u8,
        0x80 | (low & 0x3F) as u8 <= b2 <= 0x80 | (high & 0x3F) as u8,
    ensures
        low <= decoded_three(b0, b1, b2) <= high,
        0xE0 | ((decoded_three(b0, b1, b2) >> 12) & 0x0F) as u8 == b0,
        0x80 | ((decoded_three(b0, b1, b2) >> 6) & 0x3F) as u8 == b1,
        0x80 | (decoded_three(b0, b1, b2) & 0x3F) as u8 == b2,
{
}

/// The encoding of a character of an aligned range of three-byte characters
/// lies between the encodings of its ends.
proof fn lemma_three_between(low: u32, high: u32, c: u32)
    by (bit_vector)
    requires
        0x800 <= low <= c <= high <= 0xFFFF,
        aligned(low, high, 0x3F),
        aligned(low, high, 0xFFF),
    ensures
        0xE0 | ((low >> 12) & 0x0F) as u8 <= 0xE0 | ((c >> 12) & 0x0F) as u8 <= 0xE0 | ((high >> 12) & 0x0F) as u8,
        0x80 | ((low >> 6) & 0x3F) as u8 <= 0x80 | ((c >> 6) & 0x3F) as u8 <= 0x80 | ((high >> 6) & 0x3F) as u8,
        0x80 | (low & 0x3F) as u8 <= 0x80 | (c & 0x3F) as u8 <= 0x80 | (high & 0x3F) as u8,
{
}

/// The character whose four-byte encoding is `b0`, `b1`, `b2`, `b3`.
pub open spec fn decoded_four(b0: u8, b1: u8, b2: u8, b3: u8) -> u32 {
    (((b0 & 0x07) as u32) << 18) | (((b1 & 0x3F) as u32) << 12) | (((b2 & 0x3F) as u32) << 6) | ((b3
        & 0x3F) as u32)
}

/// Four bytes between the encodings of an aligned range of four-byte
/// characters encode a character of the range.
proof fn lemma_four_within(low: u32, high: u32, b0: u8, b1: u8, b2: u8, b3: u8)
    by (bit_vector)
    requires
        0x10000 <= low <= high <= 0x10FFFF,
        aligned(low, high, 0x3F),
        aligned(low, high, 0xFFF),
        aligned(low, high, 0x3FFFF),
        0xF0 | ((low >> 18) & 0x07) as u8 <= b0 <= 0xF0 | ((high >> 18) & 0x07) as u8,
        0x80 | ((low >> 12) & 0x3F) as u8 <= b1 <= 0x80 | ((high >> 12) & 0x3F) as u8,
        0x80 | ((low >> 6) & 0x3F) as u8 <= b2 <= 0x80 | ((high >> 6) & 0x3F) as u8,
        0x80 | (low & 0x3F) as u8 <= b3 <= 0x80 | (high & 0x3F) as u8,
    ensures
        low <= decoded_four(b0, b1, b2, b3) <= high,
        0xF0 | ((decoded_four(b0, b1, b2, b3) >> 18) & 0x07) as u8 == b0,
        0x80 | ((decoded_four(b0, b1, b2, b3) >> 12) & 0x3F) as u8 == b1,
        0x80 | ((decoded_four(b0, b1, b2, b3) >> 6) & 0x3F) as u8 == b2,
        0x80 | (decoded_four(b0, b1, b2, b3) & 0x3F) as u8 == b3,
{
}

/// The encoding of a character of an aligned range of four-byte characters
/// lies between the encodings of its ends.
proof fn lemma_four_between(low: u32, high: u32, c: u32)
    by (bit_vector)
    requires
        0x10000 <= low <= c <= high <= 0x10FFFF,
        aligned(low, high, 0x3F),
        aligned(low, high, 0xFFF),
        aligned(low, high, 0x3FFFF),
    ensures
        0xF0 | ((low >> 18) & 0x07) as u8 <= 0xF0 | ((c >> 18) & 0x07) as u8 <= 0xF0 | ((high >> 18) & 0x07) as u8,
        0x80 | ((low >> 12) & 0x3F) as u8 <= 0x80 | ((c >> 12) & 0x3F) as u8 <= 0x80 | ((high >> 12) & 0x3F) as u8,
        0x80 | ((low >> 6) & 0x3F) as u8 <= 0x80 | ((c >> 6) & 0x3F) as u8 <= 0x80 | ((high >> 6) & 0x3F) as u8,
        0x80 | (low & 0x3F) as u8 <= 0x80 | (c & 0x3F) as u8 <= 0x80 | (high & 0x3F) as u8,
{
}

/// Whether `sequence` matches `bytes`: one byte for each range, each byte in
/// its range.
pub open spec fn matched(sequence: Seq<ByteRange>, bytes: Seq<u8>) -> bool {
    &&& bytes.len() == sequence.len()
    &&& forall|i: int| 0 <= i < bytes.len() ==> (#[trigger] sequence[i]).low <= bytes[i] <= sequence[i].high
}

/// Whether `sequence` matches exactly the encodings of the characters from
/// `low` to `high`.
pub open spec fn exact(sequence: Seq<ByteRange>, low: int, high: int) -> bool {
    forall|bytes: Seq<u8>|
        #[trigger] matched(sequence, bytes) <==> exists|c: u32| low <= c <= high && #[trigger] encode_scalar(c) == bytes
}

/// Whether each range of `sequence` runs from that byte of the encoding of
/// `low` to that byte of the encoding of `high`.
pub open spec fn between_ends(sequence: Seq<ByteRange>, low: u32, high: u32) -> bool {
    let first = encode_scalar(low);
    let last = encode_scalar(high);
    &&& sequence.len() == first.len()
    &&& sequence.len() == last.len()
    &&& forall|i: int|
        0 <= i < sequence.len() ==> (#[trigger] sequence[i]).low == first[i] && sequence[i].high == last[i]
}

/// A one-byte range matches exactly the encodings of its characters.
proof fn lemma_exact_one(sequence: Seq<ByteRange>, low: u32, high: u32)
    requires
        low <= high <= MAX_ONE,
        between_ends(sequence, low, high),
    ensures
        exact(sequence, low as int, high as int),
{
    assert forall|bytes: Seq<u8>|
        #[trigger] matched(sequence, bytes) <==> exists|c: u32| low <= c <= high && #[trigger] encode_scalar(c) == bytes by {
        assert(low & 0x7F == low) by (bit_vector) requires low <= 0x7F;
        assert(high & 0x7F == high) by (bit_vector) requires high <= 0x7F;
        if matched(sequence, bytes) {
            let b = bytes[0];
            assert(sequence[0].low <= b <= sequence[0].high);
            assert(encode_scalar(low)[0] == (low & 0x7F) as u8);
            assert(encode_scalar(high)[0] == (high & 0x7F) as u8);
            assert((low & 0x7F) as u8 <= b <= (high & 0x7F) as u8 ==> low <= b as u32 <= high
                && ((b as u32) & 0x7F) as u8 == b) by (bit_vector)
                requires
                    low <= high,
                    high <= 0x7F,
            ;
            let c = b as u32;
            assert(encode_scalar(c) =~= bytes);
        }
        if exists|c: u32| low <= c <= high && #[trigger] encode_scalar(c) == bytes {
            let c = choose|c: u32| low <= c <= high && #[trigger] encode_scalar(c) == bytes;
            assert(c & 0x7F == c) by (bit_vector) requires c <= 0x7F;
        }
    }
}

/// An aligned range of two-byte characters matches exactly their encodings.
proof fn lemma_exact_two(sequence: Seq<ByteRange>, low: u32, high: u32)
    requires
        0x80 <= low <= high <= MAX_TWO,
        aligned(low, high, 0x3F),
        between_ends(sequence, low, high),
    ensures
        exact(sequence, low as int, high as int),
{
    assert forall|bytes: Seq<u8>|
        #[trigger] matched(sequence, bytes) <==> exists|c: u32| low <= c <= high && #[trigger] encode_scalar(c) == bytes by {
        if matched(sequence, bytes) {
            assert(sequence[0].low <= bytes[0] <= sequence[0].high);
            assert(sequence[1].low <= bytes[1] <= sequence[1].high);
            lemma_two_within(low, high, bytes[0], bytes[1]);
            let c = decoded_two(bytes[0], bytes[1]);
            assert(encode_scalar(c) =~= bytes);
        }
        if exists|c: u32| low <= c <= high && #[trigger] encode_scalar(c) == bytes {
            let c = choose|c: u32| low <= c <= high && #[trigger] encode_scalar(c) == bytes;
            lemma_two_between(low, high, c);
            assert forall|i: int| 0 <= i < bytes.len() implies (#[trigger] sequence[i]).low <= bytes[i] <= sequence[i].high by {}
        }
    }
}

/// An aligned range of three-byte characters matches exactly their
/// encodings.
proof fn lemma_exact_three(sequence: Seq<ByteRange>, low: u32, high: u32)
    requires
        MAX_TWO < low <= high <= MAX_THREE,
        free_of_surrogates(low as int, high as int),
        aligned(low, high, 0x3F),
        aligned(low, high, 0xFFF),
        between_ends(sequence, low, high),
    ensures
        exact(sequence, low as int, high as int),
{
    assert forall|bytes: Seq<u8>|
        #[trigger] matched(sequence, bytes) <==> exists|c: u32| low <= c <= high && #[trigger] encode_scalar(c) == bytes by {
        if matched(sequence, bytes) {
            assert(sequence[0].low <= bytes[0] <= sequence[0].high);
            assert(sequence[1].low <= bytes[1] <= sequence[1].high);
            assert(sequence[2].low <= bytes[2] <= sequence[2].high);
            lemma_three_within(low, high, bytes[0], bytes[1], bytes[2]);
            let c = decoded_three(bytes[0], bytes[1], bytes[2]);
            assert(encode_scalar(c) =~= bytes);
        }
        if exists|c: u32| low <= c <= high && #[trigger] encode_scalar(c) == bytes {
            let c = choose|c: u32| low <= c <= high && #[trigger] encode_scalar(c) == bytes;
            lemma_three_between(low, high, c);
            assert forall|i: int| 0 <= i < bytes.len() implies (#[trigger] sequence[i]).low <= bytes[i] <= sequence[i].high by {}
        }
    }
}

/// An aligned range of four-byte characters matches exactly their
/// encodings.
proof fn lemma_exact_four(sequence: Seq<ByteRange>, low: u32, high: u32)
    requires
        MAX_THREE < low <= high <= MAX_CHARACTER,
        aligned(low, high, 0x3F),
        aligned(low, high, 0xFFF),
        aligned(low, high, 0x3FFFF),
        between_ends(sequence, low, high),
    ensures
        exact(sequence, low as int, high as int),
{
    assert forall|bytes: Seq<u8>|
        #[trigger] matched(sequence, bytes) <==> exists|c: u32| low <= c <= high && #[trigger] encode_scalar(c) == bytes by {
        if matched(sequence, bytes) {
            assert(sequence[0].low <= bytes[0] <= sequence[0].high);
            assert(sequence[1].low <= bytes[1] <= sequence[1].high);
            assert(sequence[2].low <= bytes[2] <= sequence[2].high);
            assert(sequence[3].low <= bytes[3] <= sequence[3].high);
            lemma_four_within(low, high, bytes[0], bytes[1], bytes[2], bytes[3]);
            let c = decoded_four(bytes[0], bytes[1], bytes[2], bytes[3]);
            assert(encode_scalar(c) =~= bytes);
        }
        if exists|c: u32| low <= c <= high && #[trigger] encode_scalar(c) == bytes {
            let c = choose|c: u32| low <= c <= high && #[trigger] encode_scalar(c) == bytes;
            lemma_four_between(low, high, c);
            assert forall|i: int| 0 <= i < bytes.len() implies (#[trigger] sequence[i]).low <= bytes[i] <= sequence[i].high by {}
        }
    }
}

/// Whether a sequence of `sequences` matches `bytes`.
pub open spec fn matched_by_one(sequences: Seq<Seq<ByteRange>>, bytes: Seq<u8>) -> bool {
    exists|k: int| 0 <= k < sequences.len() && #[trigger] matched(sequences[k], bytes)
}

/// Sequences that cover the characters from `low` to `high` match a byte
/// string exactly where it is the encoding of one of those characters.
pub proof fn lemma_covers_encodings(sequences: Seq<Seq<ByteRange>>, low: int, high: int, bytes: Seq<u8>)
    requires
        covers(sequences, low, high),
    ensures
        matched_by_one(sequences, bytes) <==> exists|c: u32| low <= c <= high && #[trigger] encode_scalar(c) == bytes,
    decreases sequences.len(),
{
    if sequences.len() > 0 {
        let middle = choose|middle: int|
            low <= middle <= high && spans(sequences[0], low, middle) && covers(
                sequences.drop_first(),
                middle + 1,
                high,
            );
        let rest = sequences.drop_first();
        lemma_covers_encodings(rest, middle + 1, high, bytes);
        assert(exact(sequences[0], low, middle));
        if matched_by_one(sequences, bytes) {
            let k = choose|k: int| 0 <= k < sequences.len() && #[trigger] matched(sequences[k], bytes);
            if k == 0 {
                assert(matched(sequences[0], bytes));
                let c = choose|c: u32| low <= c <= middle && #[trigger] encode_scalar(c) == bytes;
            } else {
                assert(rest[k - 1] == sequences[k]);
                assert(matched_by_one(rest, bytes));
                let c = choose|c: u32| middle + 1 <= c <= high && #[trigger] encode_scalar(c) == bytes;
            }
        }
        if exists|c: u32| low <= c <= high && #[trigger] encode_scalar(c) == bytes {
            let c = choose|c: u32| low <= c <= high && #[trigger] encode_scalar(c) == bytes;
            if c <= middle {
                assert(matched(sequences[0], bytes));
            } else {
                assert(matched_by_one(rest, bytes));
                let k = choose|k: int| 0 <= k < rest.len() && #[trigger] matched(rest[k], bytes);
                assert(sequences[k + 1] == rest[k]);
            }
        }
    }
}

/// The encoding of a set matches a byte string exactly where it is the
/// encoding of a character of the set: with [`encode`]'s result, a byte
/// string is matched by some sequence exactly where it encodes a character
/// of a range of the set.
pub proof fn lemma_encodes_encodings(sequences: Seq<Seq<ByteRange>>, ranges: Seq<(char, char)>, bytes: Seq<u8>)
    requires
        encodes(sequences, ranges),
    ensures
        matched_by_one(sequences, bytes) <==> exists|c: u32| #[trigger] in_ranges(ranges, c) && encode_scalar(c) == bytes,
    decreases ranges.len(),
{
    if ranges.len() > 0 {
        let k = choose|k: int|
            0 <= k <= sequences.len() && encodes(sequences.take(k), ranges.drop_last()) && covers(
                sequences.skip(k),
                ranges.last().0 as u32 as int,
                ranges.last().1 as u32 as int,
            );
        let front = sequences.take(k);
        let back = sequences.skip(k);
        let earlier = ranges.drop_last();
        let low = ranges.last().0 as u32 as int;
        let high = ranges.last().1 as u32 as int;
        lemma_encodes_encodings(front, earlier, bytes);
        lemma_covers_encodings(back, low, high, bytes);
        if matched_by_one(sequences, bytes) {
            let j = choose|j: int| 0 <= j < sequences.len() && #[trigger] matched(sequences[j], bytes);
            if j < k {
                assert(front[j] == sequences[j]);
                assert(matched_by_one(front, bytes));
                let c = choose|c: u32| #[trigger] in_ranges(earlier, c) && encode_scalar(c) == bytes;
                let i = choose|i: int| 0 <= i < earlier.len() && (earlier[i].0 as u32) <= c <= (#[trigger] earlier[i]).1 as u32;
                assert(ranges[i] == earlier[i]);
                assert(in_ranges(ranges, c));
            } else {
                assert(back[j - k] == sequences[j]);
                assert(matched_by_one(back, bytes));
                let c = choose|c: u32| low <= c <= high && #[trigger] encode_scalar(c) == bytes;
                assert(ranges[ranges.len() - 1] == ranges.last());
                assert(in_ranges(ranges, c));
            }
        }
        if exists|c: u32| #[trigger] in_ranges(ranges, c) && encode_scalar(c) == bytes {
            let c = choose|c: u32| #[trigger] in_ranges(ranges, c) && encode_scalar(c) == bytes;
            let i = choose|i: int| 0 <= i < ranges.len() && (ranges[i].0 as u32) <= c <= (#[trigger] ranges[i]).1 as u32;
            if i < ranges.len() - 1 {
                assert(earlier[i] == ranges[i]);
                assert(in_ranges(earlier, c));
                assert(matched_by_one(front, bytes));
                let j = choose|j: int| 0 <= j < front.len() && #[trigger] matched(front[j], bytes);
                assert(sequences[j] == front[j]);
            } else {
                assert(ranges[i] == ranges.last());
                assert(matched_by_one(back, bytes));
                let j = choose|j: int| 0 <= j < back.len() && #[trigger] matched(back[j], bytes);
                assert(sequences[j + k] == back[j]);
            }
        }
    }
}
/// Two two-byte layouts of the same bytes hold the same value.
proof fn lemma_two_injective(a: u32, b: u32)
    by (bit_vector)
    requires
        a <= 0x7FF,
        b <= 0x7FF,
        0xC0 | ((a >> 6) & 0x1F) as u8 == 0xC0 | ((b >> 6) & 0x1F) as u8,
        0x80 | (a & 0x3F) as u8 == 0x80 | (b & 0x3F) as u8,
    ensures
        a == b,
{
}

/// Two three-byte layouts of the same bytes hold the same value.
proof fn lemma_three_injective(a: u32, b: u32)
    by (bit_vector)
    requires
        a <= 0xFFFF,
        b <= 0xFFFF,
        0xE0 | ((a >> 12) & 0x0F) as u8 == 0xE0 | ((b >> 12) & 0x0F) as u8,
        0x80 | ((a >> 6) & 0x3F) as u8 == 0x80 | ((b >> 6) & 0x3F) as u8,
        0x80 | (a & 0x3F) as u8 == 0x80 | (b & 0x3F) as u8,
    ensures
        a == b,
{
}

/// Two four-byte layouts of the same bytes hold the same value.
proof fn lemma_four_injective(a: u32, b: u32)
    by (bit_vector)
    requires
        a <= 0x1FFFFF,
        b <= 0x1FFFFF,
        0xF0 | ((a >> 18) & 0x7) as u8 == 0xF0 | ((b >> 18) & 0x7) as u8,
        0x80 | ((a >> 12) & 0x3F) as u8 == 0x80 | ((b >> 12) & 0x3F) as u8,
        0x80 | ((a >> 6) & 0x3F) as u8 == 0x80 | ((b >> 6) & 0x3F) as u8,
        0x80 | (a & 0x3F) as u8 == 0x80 | (b & 0x3F) as u8,
    ensures
        a == b,
{
}

/// No two characters have one encoding.
#[verifier::spinoff_prover]
pub proof fn lemma_encode_injective(first: u32, second: u32)
    requires
        first <= MAX_CHARACTER,
        second <= MAX_CHARACTER,
        encode_scalar(first) == encode_scalar(second),
    ensures
        first == second,
{
    let one = encode_scalar(first);
    let two = encode_scalar(second);
    assert(one.len() == two.len());
    if one.len() == 1 {
        assert(one[0] == two[0]);
        assert(first <= 0x7F && second <= 0x7F);
        assert((first & 0x7F) as u8 == (second & 0x7F) as u8 ==> first == second) by (bit_vector)
            requires
                first <= 0x7F,
                second <= 0x7F,
        ;
    } else if one.len() == 2 {
        assert(one[0] == two[0]);
        assert(one[1] == two[1]);
        lemma_two_injective(first, second);
    } else if one.len() == 3 {
        assert(one[0] == two[0]);
        assert(one[1] == two[1]);
        assert(one[2] == two[2]);
        lemma_three_injective(first, second);
    } else {
        assert(one[0] == two[0]);
        assert(one[1] == two[1]);
        assert(one[2] == two[2]);
        assert(one[3] == two[3]);
        lemma_four_injective(first, second);
    }
}

/// Whether no byte string is matched by two sequences of `sequences`.
pub open spec fn disjoint(sequences: Seq<Seq<ByteRange>>) -> bool {
    forall|j: int, k: int, bytes: Seq<u8>|
        0 <= j < k < sequences.len() && #[trigger] matched(sequences[j], bytes) ==> !#[trigger] matched(
            sequences[k],
            bytes,
        )
}

/// Sequences that cover the characters from `low` to `high` match only
/// encodings of those characters, each with one sequence.
proof fn lemma_covers_disjoint(sequences: Seq<Seq<ByteRange>>, low: int, high: int)
    requires
        covers(sequences, low, high),
        high <= MAX_CHARACTER,
    ensures
        disjoint(sequences),
        forall|k: int, bytes: Seq<u8>|
            0 <= k < sequences.len() && #[trigger] matched(sequences[k], bytes) ==> exists|c: u32|
                low <= c <= high && #[trigger] encode_scalar(c) == bytes,
    decreases sequences.len(),
{
    if sequences.len() > 0 {
        let middle = choose|middle: int|
            low <= middle <= high && spans(sequences[0], low, middle) && covers(
                sequences.drop_first(),
                middle + 1,
                high,
            );
        let rest = sequences.drop_first();
        lemma_covers_disjoint(rest, middle + 1, high);
        assert(exact(sequences[0], low, middle));
        assert forall|k: int, bytes: Seq<u8>|
            0 <= k < sequences.len() && #[trigger] matched(sequences[k], bytes) implies exists|c: u32|
            low <= c <= high && #[trigger] encode_scalar(c) == bytes by {
            if k > 0 {
                assert(rest[k - 1] == sequences[k]);
                assert(matched(rest[k - 1], bytes));
            }
        }
        assert forall|j: int, k: int, bytes: Seq<u8>|
            0 <= j < k < sequences.len() && #[trigger] matched(sequences[j], bytes) implies !#[trigger] matched(
            sequences[k],
            bytes,
        ) by {
            assert(rest[k - 1] == sequences[k]);
            if j > 0 {
                assert(rest[j - 1] == sequences[j]);
                if matched(sequences[k], bytes) {
                    assert(matched(rest[j - 1], bytes));
                    assert(matched(rest[k - 1], bytes));
                }
            } else if matched(sequences[k], bytes) {
                let c = choose|c: u32| low <= c <= middle && #[trigger] encode_scalar(c) == bytes;
                assert(matched(rest[k - 1], bytes));
                let d = choose|d: u32| middle + 1 <= d <= high && #[trigger] encode_scalar(d) == bytes;
                lemma_encode_injective(c, d);
            }
        }
    }
}

/// The sequences that encode ranges of characters in ascending sequence
/// match no byte string twice.
pub proof fn lemma_encodes_disjoint(sequences: Seq<Seq<ByteRange>>, ranges: Seq<(char, char)>)
    requires
        encodes(sequences, ranges),
        valid_ranges(ranges),
    ensures
        disjoint(sequences),
        forall|k: int, bytes: Seq<u8>|
            0 <= k < sequences.len() && #[trigger] matched(sequences[k], bytes) ==> exists|c: u32|
                #[trigger] in_ranges(ranges, c) && encode_scalar(c) == bytes,
    decreases ranges.len(),
{
    if ranges.len() > 0 {
        let k = choose|k: int|
            0 <= k <= sequences.len() && encodes(sequences.take(k), ranges.drop_last()) && covers(
                sequences.skip(k),
                ranges.last().0 as u32 as int,
                ranges.last().1 as u32 as int,
            );
        let front = sequences.take(k);
        let back = sequences.skip(k);
        let earlier = ranges.drop_last();
        let low = ranges.last().0 as u32 as int;
        let high = ranges.last().1 as u32 as int;
        assert(valid_ranges(earlier)) by {
            assert forall|i: int| 0 <= i < earlier.len() implies earlier[i] == ranges[i] by {}
        }
        vstd::utf8::char_is_scalar(ranges.last().1);
        lemma_encodes_disjoint(front, earlier);
        lemma_covers_disjoint(back, low, high);
        assert forall|m: int, bytes: Seq<u8>|
            0 <= m < sequences.len() && #[trigger] matched(sequences[m], bytes) implies exists|c: u32|
            #[trigger] in_ranges(ranges, c) && encode_scalar(c) == bytes by {
            if m < k {
                assert(front[m] == sequences[m]);
                assert(matched(front[m], bytes));
                let c = choose|c: u32| #[trigger] in_ranges(earlier, c) && encode_scalar(c) == bytes;
                let i = choose|i: int| 0 <= i < earlier.len() && (earlier[i].0 as u32) <= c <= (#[trigger] earlier[i]).1 as u32;
                assert(ranges[i] == earlier[i]);
                assert(in_ranges(ranges, c));
            } else {
                assert(back[m - k] == sequences[m]);
                assert(matched(back[m - k], bytes));
                let c = choose|c: u32| low <= c <= high && #[trigger] encode_scalar(c) == bytes;
                assert(ranges[ranges.len() - 1] == ranges.last());
                assert(in_ranges(ranges, c));
            }
        }
        assert forall|j: int, m: int, bytes: Seq<u8>|
            0 <= j < m < sequences.len() && #[trigger] matched(sequences[j], bytes) implies !#[trigger] matched(
            sequences[m],
            bytes,
        ) by {
            if matched(sequences[m], bytes) {
                if m < k {
                    assert(front[j] == sequences[j]);
                    assert(front[m] == sequences[m]);
                    assert(matched(front[j], bytes));
                    assert(matched(front[m], bytes));
                } else if j >= k {
                    assert(back[j - k] == sequences[j]);
                    assert(back[m - k] == sequences[m]);
                    assert(matched(back[j - k], bytes));
                    assert(matched(back[m - k], bytes));
                } else {
                    assert(front[j] == sequences[j]);
                    assert(matched(front[j], bytes));
                    let c = choose|c: u32| #[trigger] in_ranges(earlier, c) && encode_scalar(c) == bytes;
                    let i = choose|i: int| 0 <= i < earlier.len() && (earlier[i].0 as u32) <= c <= (#[trigger] earlier[i]).1 as u32;
                    assert(back[m - k] == sequences[m]);
                    assert(matched(back[m - k], bytes));
                    let d = choose|d: u32| low <= d <= high && #[trigger] encode_scalar(d) == bytes;
                    assert(ranges[i] == earlier[i]);
                    assert(ranges[ranges.len() - 1] == ranges.last());
                    assert((ranges[i].1 as u32) < (ranges[ranges.len() - 1].0 as u32));
                    vstd::utf8::char_is_scalar(ranges[i].1);
                    lemma_encode_injective(c, d);
                }
            }
        }
    }
}

/// Whether each sequence of `sequences` holds one to four ranges, each of
/// which runs from its low byte up to its high byte.
pub open spec fn shaped(sequences: Seq<Seq<ByteRange>>) -> bool {
    forall|k: int|
        0 <= k < sequences.len() ==> 1 <= (#[trigger] sequences[k]).len() <= 4 && forall|i: int|
            0 <= i < sequences[k].len() ==> (#[trigger] sequences[k][i]).low <= sequences[k][i].high
}

/// Whether the sequences of `sequences` come in ascending sequence: each
/// character whose encoding an earlier sequence matches is below each
/// character whose encoding a later sequence matches.
pub open spec fn ascending(sequences: Seq<Seq<ByteRange>>) -> bool {
    forall|j: int, k: int, c: u32, d: u32|
        0 <= j < k < sequences.len() && c <= MAX_CHARACTER && d <= MAX_CHARACTER
            && #[trigger] matched(sequences[j], encode_scalar(c)) && #[trigger] matched(
            sequences[k],
            encode_scalar(d),
        ) ==> c < d
}

/// Sequences that cover the characters from `low` to `high` are shaped and
/// come in ascending sequence.
proof fn lemma_covers_ascending(sequences: Seq<Seq<ByteRange>>, low: int, high: int)
    requires
        covers(sequences, low, high),
        0 <= low,
        high <= MAX_CHARACTER,
    ensures
        shaped(sequences),
        ascending(sequences),
    decreases sequences.len(),
{
    if sequences.len() > 0 {
        let middle = choose|middle: int|
            low <= middle <= high && spans(sequences[0], low, middle) && covers(
                sequences.drop_first(),
                middle + 1,
                high,
            );
        let rest = sequences.drop_first();
        lemma_covers_ascending(rest, middle + 1, high);
        lemma_covers_disjoint(rest, middle + 1, high);
        let first = sequences[0];
        assert(exact(first, low, middle));
        let start = encode_scalar(low as u32);
        assert(matched(first, start));
        assert forall|k: int|
            0 <= k < sequences.len() implies 1 <= (#[trigger] sequences[k]).len() <= 4 && forall|i: int|
            0 <= i < sequences[k].len() ==> (#[trigger] sequences[k][i]).low <= sequences[k][i].high by {
            if k > 0 {
                assert(rest[k - 1] == sequences[k]);
            } else {
                assert forall|i: int| 0 <= i < first.len() implies (#[trigger] first[i]).low <= first[i].high by {
                    assert(first[i].low <= start[i] <= first[i].high);
                }
            }
        }
        assert forall|j: int, k: int, c: u32, d: u32|
            0 <= j < k < sequences.len() && c <= MAX_CHARACTER && d <= MAX_CHARACTER
                && #[trigger] matched(sequences[j], encode_scalar(c)) && #[trigger] matched(
                sequences[k],
                encode_scalar(d),
            ) implies c < d by {
            assert(rest[k - 1] == sequences[k]);
            assert(matched(rest[k - 1], encode_scalar(d)));
            if j > 0 {
                assert(rest[j - 1] == sequences[j]);
                assert(matched(rest[j - 1], encode_scalar(c)));
            } else {
                let c0 = choose|c0: u32| low <= c0 <= middle && #[trigger] encode_scalar(c0) == encode_scalar(c);
                lemma_encode_injective(c0, c);
                let d0 = choose|d0: u32|
                    middle + 1 <= d0 <= high && #[trigger] encode_scalar(d0) == encode_scalar(d);
                lemma_encode_injective(d0, d);
            }
        }
    }
}

/// The sequences that encode ranges of characters in ascending sequence are
/// shaped and come in ascending sequence: with [`encode`]'s result, each
/// sequence holds one to four ranges, and the characters that a sequence
/// matches lie below those of each later sequence.
pub proof fn lemma_encodes_ascending(sequences: Seq<Seq<ByteRange>>, ranges: Seq<(char, char)>)
    requires
        encodes(sequences, ranges),
        valid_ranges(ranges),
    ensures
        shaped(sequences),
        ascending(sequences),
    decreases ranges.len(),
{
    if ranges.len() > 0 {
        let k = choose|k: int|
            0 <= k <= sequences.len() && encodes(sequences.take(k), ranges.drop_last()) && covers(
                sequences.skip(k),
                ranges.last().0 as u32 as int,
                ranges.last().1 as u32 as int,
            );
        let front = sequences.take(k);
        let back = sequences.skip(k);
        let earlier = ranges.drop_last();
        let low = ranges.last().0 as u32 as int;
        let high = ranges.last().1 as u32 as int;
        assert(valid_ranges(earlier)) by {
            assert forall|i: int| 0 <= i < earlier.len() implies earlier[i] == ranges[i] by {}
        }
        vstd::utf8::char_is_scalar(ranges.last().1);
        lemma_encodes_ascending(front, earlier);
        lemma_encodes_disjoint(front, earlier);
        lemma_covers_ascending(back, low, high);
        lemma_covers_disjoint(back, low, high);
        assert forall|m: int|
            0 <= m < sequences.len() implies 1 <= (#[trigger] sequences[m]).len() <= 4 && forall|i: int|
            0 <= i < sequences[m].len() ==> (#[trigger] sequences[m][i]).low <= sequences[m][i].high by {
            if m < k {
                assert(front[m] == sequences[m]);
            } else {
                assert(back[m - k] == sequences[m]);
            }
        }
        assert forall|j: int, m: int, c: u32, d: u32|
            0 <= j < m < sequences.len() && c <= MAX_CHARACTER && d <= MAX_CHARACTER
                && #[trigger] matched(sequences[j], encode_scalar(c)) && #[trigger] matched(
                sequences[m],
                encode_scalar(d),
            ) implies c < d by {
            if m < k {
                assert(front[j] == sequences[j]);
                assert(front[m] == sequences[m]);
                assert(matched(front[j], encode_scalar(c)));
                assert(matched(front[m], encode_scalar(d)));
            } else if j >= k {
                assert(back[j - k] == sequences[j]);
                assert(back[m - k] == sequences[m]);
                assert(matched(back[j - k], encode_scalar(c)));
                assert(matched(back[m - k], encode_scalar(d)));
            } else {
                assert(front[j] == sequences[j]);
                assert(matched(front[j], encode_scalar(c)));
                let c0 = choose|c0: u32| #[trigger] in_ranges(earlier, c0) && encode_scalar(c0) == encode_scalar(c);
                let i = choose|i: int|
                    0 <= i < earlier.len() && (earlier[i].0 as u32) <= c0 <= (#[trigger] earlier[i]).1 as u32;
                assert(back[m - k] == sequences[m]);
                assert(matched(back[m - k], encode_scalar(d)));
                let d0 = choose|d0: u32| low <= d0 <= high && #[trigger] encode_scalar(d0) == encode_scalar(d);
                assert(ranges[i] == earlier[i]);
                assert(ranges[ranges.len() - 1] == ranges.last());
                assert((ranges[i].1 as u32) < (ranges[ranges.len() - 1].0 as u32));
                vstd::utf8::char_is_scalar(ranges[i].1);
                lemma_encode_injective(c0, c);
                lemma_encode_injective(d0, d);
            }
        }
    }
}

} // verus!
