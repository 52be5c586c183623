//! The classes of a partition of byte ranges depend on which bytes the
//! ranges match, and not on the sequence of the ranges.
use vstd::prelude::*;

use super::utf8::{ByteRange, matched_by};
use crate::automata::label::{Label, LabelClass, is_partition};

verus! {

/// Whether each label of `labels` that matches `first` matches `second`, and
/// the other way round.
pub open spec fn same_matching(labels: Seq<ByteRange>, first: u8, second: u8) -> bool {
    forall|i: int|
        #![trigger labels[i].spec_matches(first), labels[i].spec_matches(second)]
        0 <= i < labels.len() ==> (labels[i].spec_matches(first) <==> labels[i].spec_matches(second))
}

/// Whether `classes` is the partition of `labels` into ascending ranges of
/// bytes, each as long as it can be: two classes that touch differ in the
/// labels that match them.
pub open spec fn coarse_partition(labels: Seq<ByteRange>, classes: Seq<LabelClass<ByteRange>>) -> bool {
    &&& is_partition(labels, classes)
    &&& forall|c: int| 0 <= c < classes.len() ==> (#[trigger] classes[c]).label.low <= classes[c].label.high
    &&& forall|c: int, d: int|
        0 <= c < d < classes.len() ==> (#[trigger] classes[c]).label.high < (#[trigger] classes[d]).label.low
    &&& forall|c: int|
        0 <= c < classes.len() - 1 && (#[trigger] classes[c]).label.high + 1 == classes[c + 1].label.low
            ==> classes[c].matching_labels@ != classes[c + 1].matching_labels@
}

/// Whether `high` ends the run of bytes from `low` that the same labels of
/// `labels` match: each byte from `low` to `high` is matched as `low` is, and
/// the byte after `high` is not.
pub open spec fn run_ends(labels: Seq<ByteRange>, low: u8, high: u8) -> bool {
    &&& low <= high
    &&& forall|b: u8| low <= b <= high ==> #[trigger] matched_by(labels, b) && same_matching(labels, b, low)
    &&& high < 255 ==> !matched_by(labels, (high + 1) as u8) || !same_matching(
        labels,
        (high + 1) as u8,
        low,
    )
}

/// Whether `low` is the first byte above `after` that a label of `labels`
/// matches.
pub open spec fn run_starts(labels: Seq<ByteRange>, after: int, low: u8) -> bool {
    &&& after < low
    &&& matched_by(labels, low)
    &&& forall|b: u8| after < b < low ==> !#[trigger] matched_by(labels, b)
}

/// Whether two sequences of labels match alike: the same bytes, and the same
/// bytes with the same labels.
pub open spec fn alike(first: Seq<ByteRange>, second: Seq<ByteRange>) -> bool {
    &&& forall|b: u8| #[trigger] matched_by(first, b) <==> matched_by(second, b)
    &&& forall|a: u8, b: u8| #[trigger] same_matching(first, a, b) <==> #[trigger] same_matching(second, a, b)
}

/// The highest byte of the class before class `c`, or -1 for the first.
pub open spec fn before_class(classes: Seq<LabelClass<ByteRange>>, c: int) -> int {
    if c == 0 {
        -1
    } else {
        classes[c - 1].label.high as int
    }
}

/// Two strictly ascending sequences of the same numbers are equal.
proof fn lemma_ascending_equal(first: Seq<usize>, second: Seq<usize>)
    requires
        forall|k: int, m: int| 0 <= k < m < first.len() ==> first[k] < first[m],
        forall|k: int, m: int| 0 <= k < m < second.len() ==> second[k] < second[m],
        forall|v: usize| first.contains(v) <==> second.contains(v),
    ensures
        first == second,
    decreases first.len() + second.len(),
{
    if first.len() == 0 {
        if second.len() > 0 {
            assert(second.contains(second[0]));
        }
        assert(first =~= second);
    } else if second.len() == 0 {
        assert(first.contains(first[0]));
    } else {
        let a = first.last();
        let b = second.last();
        assert(first.contains(a));
        assert(second.contains(b));
        let i = choose|i: int| 0 <= i < second.len() && second[i] == a;
        let j = choose|j: int| 0 <= j < first.len() && first[j] == b;
        if i < second.len() - 1 {
            assert(second[i] < second[second.len() - 1]);
        }
        if j < first.len() - 1 {
            assert(first[j] < first[first.len() - 1]);
        }
        assert(a == b);
        let f = first.drop_last();
        let s = second.drop_last();
        assert forall|v: usize| f.contains(v) <==> s.contains(v) by {
            if f.contains(v) {
                let k = choose|k: int| 0 <= k < f.len() && f[k] == v;
                assert(first.contains(v));
                let m = choose|m: int| 0 <= m < second.len() && second[m] == v;
                assert(first[k] < a);
                if m == second.len() - 1 {
                    assert(false);
                }
                assert(s[m] == v);
            }
            if s.contains(v) {
                let k = choose|k: int| 0 <= k < s.len() && s[k] == v;
                assert(second.contains(v));
                let m = choose|m: int| 0 <= m < first.len() && first[m] == v;
                assert(second[k] < b);
                if m == first.len() - 1 {
                    assert(false);
                }
                assert(f[m] == v);
            }
        }
        lemma_ascending_equal(f, s);
        assert(first =~= f.push(a));
        assert(second =~= s.push(b));
    }
}

/// Each class of a coarse partition is a run of bytes, and starts at the
/// first matched byte above the class before it; no byte above the last
/// class is matched.
proof fn lemma_class_runs(labels: Seq<ByteRange>, classes: Seq<LabelClass<ByteRange>>)
    requires
        coarse_partition(labels, classes),
    ensures
        forall|c: int| 0 <= c < classes.len() ==> #[trigger] run_ends(
            labels,
            classes[c].label.low,
            classes[c].label.high,
        ),
        forall|c: int| 0 <= c < classes.len() ==> #[trigger] run_starts(
            labels,
            before_class(classes, c),
            classes[c].label.low,
        ),
        classes.len() == 0 ==> forall|b: u8| !#[trigger] matched_by(labels, b),
        classes.len() > 0 ==> forall|b: u8| classes[classes.len() - 1].label.high < b ==> !#[trigger] matched_by(labels, b),
{
    assert forall|c: int, b: u8|
        0 <= c < classes.len() && #[trigger] classes[c].label.spec_matches(b) implies matched_by(labels, b)
            && same_matching(labels, b, classes[c].label.low) by {
        let class = classes[c];
        assert(class.label.spec_matches(b));
        assert(class.label.spec_matches(class.label.low));
        let first = class.matching_labels@[0] as int;
        assert(class.matching_labels@.contains(first as usize));
        assert(labels[first].spec_matches(b));
    }
    assert forall|b: u8| #[trigger] matched_by(labels, b) implies exists|c: int|
        0 <= c < classes.len() && #[trigger] classes[c].label.spec_matches(b) by {
        let i = choose|i: int| 0 <= i < labels.len() && #[trigger] labels[i].spec_matches(b);
        let c = choose|c: int| 0 <= c < classes.len() && #[trigger] classes[c].label.spec_matches(b);
    }
    assert forall|c: int| 0 <= c < classes.len() implies #[trigger] run_ends(
        labels,
        classes[c].label.low,
        classes[c].label.high,
    ) by {
        let low = classes[c].label.low;
        let high = classes[c].label.high;
        assert forall|b: u8| low <= b <= high implies #[trigger] matched_by(labels, b) && same_matching(labels, b, low) by {
            assert(classes[c].label.spec_matches(b));
        }
        if high < 255 {
            let next = (high + 1) as u8;
            if matched_by(labels, next) && same_matching(labels, next, low) {
                let d = choose|d: int| 0 <= d < classes.len() && #[trigger] classes[d].label.spec_matches(next);
                if d < c {
                    assert(classes[d].label.high < classes[c].label.low);
                } else if d == c {
                } else {
                    if d > c + 1 {
                        assert(classes[c + 1].label.high < classes[d].label.low);
                        assert(classes[c].label.high < classes[c + 1].label.low);
                    }
                    assert(d == c + 1);
                    assert(classes[c].label.high + 1 == classes[c + 1].label.low);
                    let one = classes[c];
                    let two = classes[c + 1];
                    assert(one.label.spec_matches(low));
                    assert(two.label.spec_matches(next));
                    assert forall|v: usize| one.matching_labels@.contains(v) <==> two.matching_labels@.contains(v) by {
                        if one.matching_labels@.contains(v) {
                            let k = choose|k: int| 0 <= k < one.matching_labels@.len() && one.matching_labels@[k] == v;
                            assert(labels[v as int].spec_matches(low));
                            assert(labels[v as int].spec_matches(next));
                        }
                        if two.matching_labels@.contains(v) {
                            let k = choose|k: int| 0 <= k < two.matching_labels@.len() && two.matching_labels@[k] == v;
                            assert(labels[v as int].spec_matches(next));
                            assert(labels[v as int].spec_matches(low));
                        }
                    }
                    lemma_ascending_equal(one.matching_labels@, two.matching_labels@);
                }
            }
        }
    }
    assert forall|c: int| 0 <= c < classes.len() implies #[trigger] run_starts(
        labels,
        before_class(classes, c),
        classes[c].label.low,
    ) by {
        let after = before_class(classes, c);
        let low = classes[c].label.low;
        assert(classes[c].label.spec_matches(low));
        assert forall|b: u8| after < b < low implies !#[trigger] matched_by(labels, b) by {
            if matched_by(labels, b) {
                let d = choose|d: int| 0 <= d < classes.len() && #[trigger] classes[d].label.spec_matches(b);
                if d < c {
                    if d < c - 1 {
                        assert(classes[d].label.high < classes[c - 1].label.low);
                    }
                } else if d > c {
                    assert(classes[c].label.high < classes[d].label.low);
                }
            }
        }
    }
    if classes.len() > 0 {
        let last = classes.len() - 1;
        assert forall|b: u8| classes[last].label.high < b implies !#[trigger] matched_by(labels, b) by {
            if matched_by(labels, b) {
                let d = choose|d: int| 0 <= d < classes.len() && #[trigger] classes[d].label.spec_matches(b);
                if d < last {
                    assert(classes[d].label.high < classes[last].label.low);
                }
            }
        }
    }
}

/// A run from one byte ends at one byte.
proof fn lemma_run_unique(labels: Seq<ByteRange>, low: u8, first: u8, second: u8)
    requires
        run_ends(labels, low, first),
        run_ends(labels, low, second),
    ensures
        first == second,
{
    if first < second {
        let next = (first + 1) as u8;
        assert(low <= next <= second);
        assert(matched_by(labels, next) && same_matching(labels, next, low));
    } else if second < first {
        let next = (second + 1) as u8;
        assert(low <= next <= first);
        assert(matched_by(labels, next) && same_matching(labels, next, low));
    }
}

/// The next run above one byte starts at one byte.
proof fn lemma_start_unique(labels: Seq<ByteRange>, after: int, first: u8, second: u8)
    requires
        run_starts(labels, after, first),
        run_starts(labels, after, second),
    ensures
        first == second,
{
    if first < second {
        assert(!matched_by(labels, first));
    } else if second < first {
        assert(!matched_by(labels, second));
    }
}

/// The classes of two coarse partitions of labels that match alike agree
/// before `k`.
proof fn lemma_prefix_equal(
    first_labels: Seq<ByteRange>,
    first: Seq<LabelClass<ByteRange>>,
    second_labels: Seq<ByteRange>,
    second: Seq<LabelClass<ByteRange>>,
    k: int,
)
    requires
        coarse_partition(first_labels, first),
        coarse_partition(second_labels, second),
        alike(first_labels, second_labels),
        0 <= k <= first.len(),
        k <= second.len(),
    ensures
        forall|j: int| 0 <= j < k ==> #[trigger] first[j].label == second[j].label,
    decreases k,
{
    if k > 0 {
        lemma_prefix_equal(first_labels, first, second_labels, second, k - 1);
        lemma_class_runs(first_labels, first);
        lemma_class_runs(second_labels, second);
        let j = k - 1;
        let after = before_class(first, j);
        assert(after == before_class(second, j)) by {
            if j > 0 {
                assert(first[j - 1].label == second[j - 1].label);
            }
        }
        let low = first[j].label.low;
        assert(run_starts(first_labels, after, low));
        assert(run_starts(second_labels, after, second[j].label.low));
        assert(run_starts(first_labels, after, second[j].label.low)) by {
            assert(matched_by(second_labels, second[j].label.low));
            assert forall|b: u8| after < b < second[j].label.low implies !#[trigger] matched_by(first_labels, b) by {
                assert(!matched_by(second_labels, b));
            }
        }
        lemma_start_unique(first_labels, after, low, second[j].label.low);
        assert(run_ends(first_labels, low, first[j].label.high));
        assert(run_ends(second_labels, low, second[j].label.high));
        assert(run_ends(first_labels, low, second[j].label.high)) by {
            let high = second[j].label.high;
            assert forall|b: u8| low <= b <= high implies #[trigger] matched_by(first_labels, b) && same_matching(first_labels, b, low) by {
                assert(matched_by(second_labels, b) && same_matching(second_labels, b, low));
            }
            if high < 255 {
                let next = (high + 1) as u8;
                assert(!matched_by(second_labels, next) || !same_matching(second_labels, next, low));
                assert(matched_by(first_labels, next) == matched_by(second_labels, next));
                assert(same_matching(first_labels, next, low) == same_matching(second_labels, next, low));
            }
        }
        lemma_run_unique(first_labels, low, first[j].label.high, second[j].label.high);
        assert(first[j].label == second[j].label);
    }
}

/// Two coarse partitions of labels that match alike hold the same classes.
proof fn lemma_coarse_unique(
    first_labels: Seq<ByteRange>,
    first: Seq<LabelClass<ByteRange>>,
    second_labels: Seq<ByteRange>,
    second: Seq<LabelClass<ByteRange>>,
)
    requires
        coarse_partition(first_labels, first),
        coarse_partition(second_labels, second),
        alike(first_labels, second_labels),
    ensures
        first.len() == second.len(),
        forall|c: int| 0 <= c < first.len() ==> #[trigger] first[c].label == second[c].label,
{
    lemma_class_runs(first_labels, first);
    lemma_class_runs(second_labels, second);
    if first.len() > second.len() {
        let m = second.len() as int;
        lemma_prefix_equal(first_labels, first, second_labels, second, m);
        let low = first[m].label.low;
        assert(run_starts(first_labels, before_class(first, m), low));
        assert(matched_by(second_labels, low));
        if m > 0 {
            assert(first[m - 1].label == second[m - 1].label);
        }
    } else if second.len() > first.len() {
        let m = first.len() as int;
        lemma_prefix_equal(first_labels, first, second_labels, second, m);
        let low = second[m].label.low;
        assert(run_starts(second_labels, before_class(second, m), low));
        assert(matched_by(first_labels, low));
        if m > 0 {
            assert(first[m - 1].label == second[m - 1].label);
        }
    } else {
        lemma_prefix_equal(first_labels, first, second_labels, second, first.len() as int);
    }
}

/// Whether `order` holds each index below `count` once.
pub open spec fn permutes(order: Seq<int>, count: int) -> bool {
    &&& order.len() == count
    &&& forall|i: int| 0 <= i < count ==> 0 <= #[trigger] order[i] < count
    &&& forall|i: int, j: int| 0 <= i < j < count ==> #[trigger] order[i] != #[trigger] order[j]
    &&& forall|j: int| 0 <= j < count ==> #[trigger] taken(order, j)
}

/// Whether an index of `order` holds `j`.
pub open spec fn taken(order: Seq<int>, j: int) -> bool {
    exists|i: int| 0 <= i < order.len() && #[trigger] order[i] == j
}

/// The labels of `labels` in the sequence that `order` gives.
pub open spec fn reordered(labels: Seq<ByteRange>, order: Seq<int>) -> Seq<ByteRange> {
    Seq::new(labels.len(), |i: int| labels[order[i]])
}

/// Labels in another sequence match alike.
proof fn lemma_reordered_alike(labels: Seq<ByteRange>, order: Seq<int>)
    requires
        permutes(order, labels.len() as int),
    ensures
        alike(labels, reordered(labels, order)),
{
    let other = reordered(labels, order);
    assert forall|b: u8| #[trigger] matched_by(labels, b) <==> matched_by(other, b) by {
        if matched_by(labels, b) {
            let j = choose|j: int| 0 <= j < labels.len() && #[trigger] labels[j].spec_matches(b);
            assert(taken(order, j));
            let i = choose|i: int| 0 <= i < labels.len() && #[trigger] order[i] == j;
            assert(other[i].spec_matches(b));
        }
        if matched_by(other, b) {
            let i = choose|i: int| 0 <= i < other.len() && #[trigger] other[i].spec_matches(b);
            assert(labels[order[i]].spec_matches(b));
        }
    }
    assert forall|a: u8, b: u8| #[trigger] same_matching(labels, a, b) <==> #[trigger] same_matching(other, a, b) by {
        if same_matching(labels, a, b) {
            assert forall|i: int| 0 <= i < other.len() implies (other[i].spec_matches(a) <==> other[i].spec_matches(b)) by {
                assert(labels[order[i]].spec_matches(a) <==> labels[order[i]].spec_matches(b));
            }
        }
        if same_matching(other, a, b) {
            assert forall|j: int| 0 <= j < labels.len() implies (labels[j].spec_matches(a) <==> labels[j].spec_matches(b)) by {
                assert(taken(order, j));
                let i = choose|i: int| 0 <= i < labels.len() && #[trigger] order[i] == j;
                assert(other[i].spec_matches(a) <==> other[i].spec_matches(b));
            }
        }
    }
}

/// The partition of byte ranges does not depend on the sequence of the
/// ranges: reordering the labels gives the same classes in the same
/// sequence, and each class holds the same labels under their new indexes.
pub proof fn lemma_partition_order_free(
    labels: Seq<ByteRange>,
    order: Seq<int>,
    classes: Seq<LabelClass<ByteRange>>,
    reordered_classes: Seq<LabelClass<ByteRange>>,
)
    requires
        permutes(order, labels.len() as int),
        coarse_partition(labels, classes),
        coarse_partition(reordered(labels, order), reordered_classes),
    ensures
        classes.len() == reordered_classes.len(),
        forall|c: int| 0 <= c < classes.len() ==> #[trigger] classes[c].label == reordered_classes[c].label,
        forall|c: int, i: int|
            0 <= c < classes.len() && 0 <= i < labels.len() ==> (#[trigger] reordered_classes[c].matching_labels@.contains(
                i as usize,
            ) <==> classes[c].matching_labels@.contains(order[i] as usize)),
{
    let other = reordered(labels, order);
    lemma_reordered_alike(labels, order);
    lemma_coarse_unique(labels, classes, other, reordered_classes);
    assert forall|c: int, i: int|
        0 <= c < classes.len() && 0 <= i < labels.len() implies (#[trigger] reordered_classes[c].matching_labels@.contains(
            i as usize,
        ) <==> classes[c].matching_labels@.contains(order[i] as usize)) by {
        let symbol = classes[c].label.low;
        assert(classes[c].label.spec_matches(symbol));
        assert(reordered_classes[c].label.spec_matches(symbol));
        assert(reordered_classes[c].matching_labels@.contains(i as usize) <==> other[i].spec_matches(symbol));
        assert(0 <= order[i] < labels.len());
        assert(classes[c].matching_labels@.contains(order[i] as usize) <==> labels[order[i]].spec_matches(symbol));
    }
}

} // verus!
