use vstd::prelude::*;

use crate::automata::encoding::ByteRange;
use vstd::set_lib::{lemma_int_range, lemma_set_disjoint_lens, lemma_subset_equality, set_int_range};

verus! {

/// The number of the bytes of `ranges`, a byte that two ranges hold counted
/// two times.
pub open spec fn byte_count(ranges: Seq<ByteRange>) -> int
    decreases ranges.len(),
{
    if ranges.len() == 0 {
        0
    } else {
        byte_count(ranges.drop_last()) + (ranges.last().high - ranges.last().low + 1)
    }
}

/// Returns `true` if `ranges` hold each byte of the alphabet.
///
/// For ranges that share no byte, the result is `true` exactly where each
/// byte lies in one of them.
///
/// The labels of one state match no byte in common, thus the count of the
/// bytes of the ranges says whether they cover the alphabet. A `match` of such
/// ranges needs no arm for the rest, because the compiler reports an arm that
/// no byte reaches.
pub fn covers(ranges: &[ByteRange]) -> (covered: bool)
    requires
        forall|i: int| 0 <= i < ranges@.len() ==> (#[trigger] ranges@[i]).low <= ranges@[i].high,
    ensures
        covered == (byte_count(ranges@) == 256),
        apart(ranges@) ==> (covered <==> forall|b: u8| #[trigger] in_some(ranges@, b)),
{
    let mut count: usize = 0;
    let mut i: usize = 0;
    while i < ranges.len()
        invariant
            i <= ranges@.len(),
            forall|k: int| 0 <= k < ranges@.len() ==> (#[trigger] ranges@[k]).low <= ranges@[k].high,
            count == byte_count(ranges@.take(i as int)),
            count <= 256,
        decreases ranges@.len() - i,
    {
        let range = ranges[i];
        proof {
            assert(ranges@.take(i + 1).drop_last() =~= ranges@.take(i as int));
        }
        count = count + (range.high - range.low) as usize + 1;
        i = i + 1;
        if count > 256 {
            proof {
                lemma_count_grows(ranges@, i as int);
                if apart(ranges@) {
                    lemma_covers_every_byte(ranges@);
                }
            }
            return false;
        }
    }
    proof {
        assert(ranges@.take(ranges@.len() as int) =~= ranges@);
        if apart(ranges@) {
            lemma_covers_every_byte(ranges@);
        }
    }
    count == 256
}

/// The count of the bytes of a longer prefix of `ranges` is at least that of
/// a shorter one.
proof fn lemma_count_grows(ranges: Seq<ByteRange>, prefix: int)
    requires
        0 <= prefix <= ranges.len(),
        forall|k: int| 0 <= k < ranges.len() ==> (#[trigger] ranges[k]).low <= ranges[k].high,
    ensures
        byte_count(ranges.take(prefix)) <= byte_count(ranges),
    decreases ranges.len() - prefix,
{
    if prefix < ranges.len() {
        lemma_count_grows(ranges, prefix + 1);
        assert(ranges.take(prefix + 1).drop_last() =~= ranges.take(prefix));
    } else {
        assert(ranges.take(prefix) =~= ranges);
    }
}

/// The bytes that some range of `ranges` holds.
pub open spec fn held(ranges: Seq<ByteRange>) -> Set<int> {
    Set::new(|b: int| exists|i: int| 0 <= i < ranges.len() && (#[trigger] ranges[i]).low <= b <= ranges[i].high)
}

/// Whether a range of `ranges` holds `byte`.
pub open spec fn in_some(ranges: Seq<ByteRange>, byte: u8) -> bool {
    exists|i: int| 0 <= i < ranges.len() && (#[trigger] ranges[i]).low <= byte <= ranges[i].high
}

/// Whether no byte lies in two ranges of `ranges`.
pub open spec fn apart(ranges: Seq<ByteRange>) -> bool {
    forall|i: int, j: int|
        0 <= i < j < ranges.len() ==> (#[trigger] ranges[i]).high < (#[trigger] ranges[j]).low
            || ranges[j].high < ranges[i].low
}

/// Ranges that share no byte count each byte that they hold once.
proof fn lemma_count_held(ranges: Seq<ByteRange>)
    requires
        forall|k: int| 0 <= k < ranges.len() ==> (#[trigger] ranges[k]).low <= ranges[k].high,
        apart(ranges),
    ensures
        held(ranges).finite(),
        held(ranges).len() == byte_count(ranges),
    decreases ranges.len(),
{
    if ranges.len() == 0 {
        assert(held(ranges) =~= Set::<int>::empty());
    } else {
        let prefix = ranges.drop_last();
        let last = ranges.last();
        assert(apart(prefix)) by {
            assert forall|i: int, j: int| 0 <= i < j < prefix.len() implies (#[trigger] prefix[i]).high
                < (#[trigger] prefix[j]).low || prefix[j].high < prefix[i].low by {
                assert(prefix[i] == ranges[i] && prefix[j] == ranges[j]);
            }
        }
        lemma_count_held(prefix);
        let tail = set_int_range(last.low as int, last.high + 1);
        lemma_int_range(last.low as int, last.high + 1);
        assert(held(ranges) =~= held(prefix) + tail) by {
            assert forall|b: int| held(ranges).contains(b) implies (held(prefix) + tail).contains(b) by {
                let i = choose|i: int| 0 <= i < ranges.len() && (#[trigger] ranges[i]).low <= b <= ranges[i].high;
                if i < prefix.len() {
                    assert(prefix[i] == ranges[i]);
                }
            }
            assert forall|b: int| (held(prefix) + tail).contains(b) implies held(ranges).contains(b) by {
                if held(prefix).contains(b) {
                    let i = choose|i: int| 0 <= i < prefix.len() && (#[trigger] prefix[i]).low <= b <= prefix[i].high;
                    assert(prefix[i] == ranges[i]);
                } else {
                    assert(ranges[ranges.len() - 1] == last);
                }
            }
        }
        assert(held(prefix).disjoint(tail)) by {
            assert forall|b: int| held(prefix).contains(b) implies !tail.contains(b) by {
                let i = choose|i: int| 0 <= i < prefix.len() && (#[trigger] prefix[i]).low <= b <= prefix[i].high;
                assert(prefix[i] == ranges[i]);
                assert(ranges[ranges.len() - 1] == last);
            }
        }
        lemma_set_disjoint_lens(held(prefix), tail);
    }
}

/// The count of [`covers`] is the test of the alphabet: for ranges that
/// share no byte, their bytes count 256 exactly where each byte lies in one
/// of them.
pub proof fn lemma_covers_every_byte(ranges: Seq<ByteRange>)
    requires
        forall|k: int| 0 <= k < ranges.len() ==> (#[trigger] ranges[k]).low <= ranges[k].high,
        apart(ranges),
    ensures
        byte_count(ranges) == 256 <==> forall|b: u8| #[trigger] in_some(ranges, b),
{
    lemma_count_held(ranges);
    let all = set_int_range(0, 256);
    lemma_int_range(0, 256);
    assert(held(ranges).subset_of(all)) by {
        assert forall|b: int| held(ranges).contains(b) implies all.contains(b) by {
            let i = choose|i: int| 0 <= i < ranges.len() && (#[trigger] ranges[i]).low <= b <= ranges[i].high;
        }
    }
    if byte_count(ranges) == 256 {
        lemma_subset_equality(held(ranges), all);
        assert forall|b: u8| #[trigger] in_some(ranges, b) by {
            assert(all.contains(b as int));
            assert(held(ranges).contains(b as int));
        }
    }
    if forall|b: u8| #[trigger] in_some(ranges, b) {
        assert(held(ranges) =~= all) by {
            assert forall|b: int| all.contains(b) implies held(ranges).contains(b) by {
                let byte = b as u8;
                assert(in_some(ranges, byte));
            }
        }
    }
}

} // verus!
