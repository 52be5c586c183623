use vstd::prelude::*;

verus! {

/// Stores the permitted repetition counts for an expression.
///
/// The optional maximum is never less than the minimum.
#[derive(Debug, Clone, Copy, PartialEq, Eq, Structural, PartialOrd, Ord, Hash)]
pub struct Quantifier {
    minimum: usize,
    maximum: Option<usize>,
}

/// Reports an inverted [`Quantifier`] range.
#[derive(Debug, Clone, Copy, PartialEq, Eq, Structural)]
pub struct QuantifierRangeError {
    /// The requested minimum.
    pub minimum: usize,
    /// The requested maximum.
    pub maximum: usize,
}

impl Quantifier {
    /// The minimum repetition count.
    pub closed spec fn spec_minimum(self) -> usize {
        self.minimum
    }

    /// The maximum repetition count, if one exists.
    pub closed spec fn spec_maximum(self) -> Option<usize> {
        self.maximum
    }

    /// Whether the maximum, if one exists, is at least the minimum.
    pub open spec fn well_formed(self) -> bool {
        self.spec_maximum() matches Some(maximum) ==> self.spec_minimum() <= maximum
    }

    /// The `*` quantifier, which permits zero or more repetitions.
    pub fn zero_or_more() -> (quantifier: Self)
        ensures
            quantifier.spec_minimum() == 0,
            quantifier.spec_maximum() is None,
    {
        Self::at_least(0)
    }

    /// The `+` quantifier, which permits one or more repetitions.
    pub fn one_or_more() -> (quantifier: Self)
        ensures
            quantifier.spec_minimum() == 1,
            quantifier.spec_maximum() is None,
    {
        Self::at_least(1)
    }

    /// The `?` quantifier, which permits zero or one repetition.
    pub fn zero_or_one() -> (quantifier: Self)
        ensures
            quantifier.spec_minimum() == 0,
            quantifier.spec_maximum() == Some(1usize),
    {
        Quantifier { minimum: 0, maximum: Some(1) }
    }

    /// Creates a quantifier for exactly `count` repetitions.
    pub fn exactly(count: usize) -> (quantifier: Self)
        ensures
            quantifier.spec_minimum() == count,
            quantifier.spec_maximum() == Some(count),
    {
        Quantifier { minimum: count, maximum: Some(count) }
    }

    /// Creates a quantifier for `minimum` or more repetitions.
    pub fn at_least(minimum: usize) -> (quantifier: Self)
        ensures
            quantifier.spec_minimum() == minimum,
            quantifier.spec_maximum() is None,
    {
        Quantifier { minimum, maximum: None }
    }

    /// Creates a quantifier for `minimum..=maximum` repetitions.
    ///
    /// An inverted range gives a [`QuantifierRangeError`].
    pub fn range(minimum: usize, maximum: usize) -> (result: Result<Self, QuantifierRangeError>)
        ensures
            maximum < minimum <==> result is Err,
            result matches Err(error) ==> error == (QuantifierRangeError { minimum, maximum }),
            result matches Ok(quantifier) ==> quantifier.spec_minimum() == minimum
                && quantifier.spec_maximum() == Some(maximum),
    {
        if maximum < minimum {
            return Err(QuantifierRangeError { minimum, maximum });
        }
        Ok(Quantifier { minimum, maximum: Some(maximum) })
    }

    /// Returns the minimum repetition count.
    pub fn minimum(self) -> (minimum: usize)
        ensures
            minimum == self.spec_minimum(),
    {
        self.minimum
    }

    /// Returns the maximum repetition count, if one exists.
    pub fn maximum(self) -> (maximum: Option<usize>)
        ensures
            maximum == self.spec_maximum(),
    {
        self.maximum
    }

    /// Whether Thompson construction can use one operand fragment.
    pub open spec fn spec_direct(self) -> bool {
        (self.spec_minimum() == 0 && self.spec_maximum() is None) || (self.spec_minimum() == 1
            && self.spec_maximum() is None) || (self.spec_minimum() == 0 && self.spec_maximum()
            == Some(1usize))
    }

    /// Returns whether Thompson construction can use one operand fragment.
    pub fn has_direct_construction(self) -> (direct: bool)
        ensures
            direct == self.spec_direct(),
    {
        match (self.minimum, self.maximum) {
            (0, None) => true,
            (1, None) => true,
            (0, Some(1)) => true,
            _ => false,
        }
    }
}

} // verus!
