use vstd::prelude::*;

verus! {

/// Defines the symbols that take a transition.
///
/// Each label must match at least one symbol.
pub trait Label: Copy + Sized {
    /// A symbol in the input alphabet.
    type Symbol: Copy;

    /// Whether this label matches `symbol`.
    spec fn spec_matches(&self, symbol: Self::Symbol) -> bool;

    /// Returns whether this label matches `symbol`.
    fn matches(&self, symbol: Self::Symbol) -> (matched: bool)
        ensures
            matched == self.spec_matches(symbol),
    ;
}

/// Holds one disjoint label and the input labels that contain it.
#[derive(Debug, Clone)]
pub struct LabelClass<L> {
    /// The disjoint label.
    pub label: L,
    /// The indexes of the input labels that hold the label, in ascending sequence.
    pub matching_labels: Vec<usize>,
}

impl<L> LabelClass<L> {
    /// Creates a label class.
    pub fn new(label: L, matching_labels: Vec<usize>) -> (class: Self)
        requires
            matching_labels@.len() > 0,
        ensures
            class.label == label,
            class.matching_labels@ == matching_labels@,
    {
        LabelClass { label, matching_labels }
    }

    /// Returns the disjoint label.
    pub fn get_label(&self) -> (label: &L)
        ensures
            *label == self.label,
    {
        &self.label
    }

    /// Returns the indexes of the matching input labels.
    pub fn get_matching_labels(&self) -> (indexes: &Vec<usize>)
        ensures
            indexes@ == self.matching_labels@,
    {
        &self.matching_labels
    }
}

/// Whether `classes` is a partition of `labels`.
///
/// Each class holds at least one input label, in ascending sequence of the
/// indexes. A symbol that an input label matches belongs to one class, and
/// the class holds each input label that matches the symbol and no other. A
/// symbol that no input label matches belongs to no class.
pub open spec fn is_partition<L: Label>(labels: Seq<L>, classes: Seq<LabelClass<L>>) -> bool {
    &&& forall|c: int|
        0 <= c < classes.len() ==> {
            let indexes = (#[trigger] classes[c]).matching_labels@;
            &&& indexes.len() > 0
            &&& forall|k: int| 0 <= k < indexes.len() ==> indexes[k] < labels.len()
            &&& forall|k: int, m: int| 0 <= k < m < indexes.len() ==> indexes[k] < indexes[m]
        }
    &&& forall|c: int, symbol: L::Symbol|
        #![trigger classes[c].label.spec_matches(symbol)]
        0 <= c < classes.len() && classes[c].label.spec_matches(symbol) ==> forall|i: int|
            0 <= i < labels.len() ==> (classes[c].matching_labels@.contains(i as usize)
                <==> #[trigger] labels[i].spec_matches(symbol))
    &&& forall|c: int, d: int, symbol: L::Symbol|
        #![trigger classes[c].label.spec_matches(symbol), classes[d].label.spec_matches(symbol)]
        0 <= c < d < classes.len() && classes[c].label.spec_matches(symbol) ==> !classes[d].label.spec_matches(symbol)
    &&& forall|i: int, symbol: L::Symbol|
        #![trigger labels[i].spec_matches(symbol)]
        0 <= i < labels.len() && labels[i].spec_matches(symbol) ==> exists|c: int|
            0 <= c < classes.len() && #[trigger] classes[c].label.spec_matches(symbol)
}

/// Whether `label` matches a symbol.
pub open spec fn inhabited<L: Label>(label: L) -> bool {
    exists|symbol: L::Symbol| #[trigger] label.spec_matches(symbol)
}

/// Splits labels into disjoint classes.
pub trait Partitionable: Label {
    /// Partitions `labels` by their matching input indexes.
    ///
    /// The classes are disjoint and cover the exact union of `labels`, and
    /// each class matches a symbol.
    fn partition(labels: &[Self]) -> (classes: Vec<LabelClass<Self>>)
        ensures
            is_partition(labels@, classes@),
            forall|c: int| 0 <= c < classes@.len() ==> #[trigger] inhabited(classes@[c].label),
    ;
}

} // verus!
