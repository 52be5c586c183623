use vstd::prelude::*;

use super::ast::saturated;
use super::charset::CharSet;
use super::quantifier::Quantifier;

verus! {

/// Stores one node of a parsed regex syntax tree.
///
/// Each node denotes a regular language.
#[derive(Debug, PartialEq, Eq)]
pub enum Expression {
    // Concatenation and alternation use flat lists. Tree depth follows group
    // nesting instead of pattern length.
    /// Matches the empty string.
    Epsilon,
    /// Matches one character from the set.
    Class(CharSet),
    /// Matches each part in sequence.
    Concatenation(Vec<Expression>),
    /// Matches one of the branches.
    Alternation(Vec<Expression>),
    /// Matches the expression as many times as the quantifier permits.
    Repetition(Box<Expression>, Quantifier),
}

/// The parts that a concatenation of `expression` holds.
pub open spec fn parts_of(expression: Expression) -> Seq<Expression> {
    match expression {
        Expression::Concatenation(parts) => parts@,
        _ => seq![expression],
    }
}

/// The branches that an alternation of `expression` holds.
pub open spec fn branches_of(expression: Expression) -> Seq<Expression> {
    match expression {
        Expression::Alternation(branches) => branches@,
        _ => seq![expression],
    }
}

/// Whether `result` concatenates `left` and `right`, with no epsilon operand
/// and one flat list of parts.
pub open spec fn is_concatenation_of(left: Expression, right: Expression, result: Expression) -> bool {
    if left is Epsilon {
        result == right
    } else if right is Epsilon {
        result == left
    } else {
        result is Concatenation && parts_of(result) == parts_of(left) + parts_of(right)
    }
}

/// Whether `result` is the flat alternation of `left` and `right`.
pub open spec fn is_alternation_of(left: Expression, right: Expression, result: Expression) -> bool {
    result is Alternation && branches_of(result) == branches_of(left) + branches_of(right)
}

/// Whether `expression` matches the empty string.
pub open spec fn is_nullable_spec(expression: Expression) -> bool
    decreases expression,
{
    match expression {
        Expression::Epsilon => true,
        Expression::Class(_) => false,
        Expression::Concatenation(parts) => all_nullable(parts@),
        Expression::Alternation(branches) => any_nullable(branches@),
        Expression::Repetition(inner, quantifier) => quantifier.spec_minimum() == 0
            || is_nullable_spec(*inner),
    }
}

/// Whether each expression of `expressions` matches the empty string.
pub open spec fn all_nullable(expressions: Seq<Expression>) -> bool
    decreases expressions,
{
    if expressions.len() == 0 {
        true
    } else {
        all_nullable(expressions.drop_last()) && is_nullable_spec(expressions.last())
    }
}

/// Whether an expression of `expressions` matches the empty string.
pub open spec fn any_nullable(expressions: Seq<Expression>) -> bool
    decreases expressions,
{
    if expressions.len() == 0 {
        false
    } else {
        any_nullable(expressions.drop_last()) || is_nullable_spec(expressions.last())
    }
}

/// The node count of `expression` after bounded repetitions expand.
pub open spec fn expanded(expression: Expression) -> int
    decreases expression,
{
    match expression {
        Expression::Epsilon => 1,
        Expression::Class(_) => 1,
        Expression::Concatenation(parts) => 1 + expanded_all(parts@),
        Expression::Alternation(branches) => 1 + expanded_all(branches@),
        Expression::Repetition(inner, quantifier) => if quantifier.spec_direct() {
            expanded(*inner) + 1
        } else {
            let minimum = quantifier.spec_minimum() as int;
            let maximum = match quantifier.spec_maximum() {
                Some(maximum) => maximum as int,
                None => minimum + 1,
            };
            expanded(*inner) * maximum + if maximum > minimum {
                maximum - minimum
            } else {
                0
            } + 1
        },
    }
}

/// The sum of the expanded counts of `expressions`.
pub open spec fn expanded_all(expressions: Seq<Expression>) -> int
    decreases expressions,
{
    if expressions.len() == 0 {
        0
    } else {
        expanded_all(expressions.drop_last()) + expanded(expressions.last())
    }
}

proof fn lemma_expanded_positive(expression: Expression)
    ensures
        expanded(expression) >= 1,
    decreases expression,
{
    match expression {
        Expression::Concatenation(parts) => lemma_expanded_all_nonnegative(parts@),
        Expression::Alternation(branches) => lemma_expanded_all_nonnegative(branches@),
        Expression::Repetition(inner, quantifier) => {
            lemma_expanded_positive(*inner);
            let minimum = quantifier.spec_minimum() as int;
            let maximum = match quantifier.spec_maximum() {
                Some(maximum) => maximum as int,
                None => minimum + 1,
            };
            assert(expanded(*inner) * maximum >= 0) by (nonlinear_arith)
                requires
                    expanded(*inner) >= 1,
                    maximum >= 0,
            ;
        },
        _ => {},
    }
}

proof fn lemma_expanded_all_nonnegative(expressions: Seq<Expression>)
    ensures
        expanded_all(expressions) >= 0,
    decreases expressions,
{
    if expressions.len() > 0 {
        lemma_expanded_all_nonnegative(expressions.drop_last());
        lemma_expanded_positive(expressions.last());
    }
}

proof fn lemma_saturated_product(value: int, factor: int)
    requires
        value >= 0,
        factor >= 0,
    ensures
        saturated(saturated(value) * factor) == saturated(value * factor),
{
    if factor > 0 && value > usize::MAX {
        assert(saturated(value) * factor >= usize::MAX) by (nonlinear_arith)
            requires
                saturated(value) == usize::MAX,
                factor >= 1,
        ;
        assert(value * factor >= usize::MAX) by (nonlinear_arith)
            requires
                value > usize::MAX,
                factor >= 1,
        ;
    }
}

/// Returns `left * right`, or [`usize::MAX`] if the product is above it.
fn saturating_times(left: usize, right: usize) -> (product: usize)
    ensures
        product == saturated(left * right),
{
    if left == 0 {
        return 0;
    }
    if right > usize::MAX / left {
        proof {
            assert(left * right > usize::MAX) by (nonlinear_arith)
                requires
                    left >= 1,
                    right > usize::MAX / left,
            ;
        }
        usize::MAX
    } else {
        proof {
            assert(left * right <= usize::MAX) by (nonlinear_arith)
                requires
                    left >= 1,
                    right <= usize::MAX / left,
            ;
        }
        left * right
    }
}

impl Expression {
    /// Concatenates `self` with `other`.
    ///
    /// The result flattens nested concatenations and removes epsilon operands.
    pub fn concat(self, other: Self) -> (result: Self)
        ensures
            is_concatenation_of(self, other, result),
    {
        match (self, other) {
            (Expression::Epsilon, node) => node,
            (node, Expression::Epsilon) => node,
            (left, right) => {
                let mut parts = left.into_concatenation_parts();
                let mut rest = right.into_concatenation_parts();
                parts.append(&mut rest);
                Expression::Concatenation(parts)
            },
        }
    }

    /// Alternates between `self` and `other` in one flat node.
    pub fn alternate(self, other: Self) -> (result: Self)
        ensures
            is_alternation_of(self, other, result),
    {
        let mut branches = self.into_alternation_branches();
        let mut rest = other.into_alternation_branches();
        branches.append(&mut rest);
        Expression::Alternation(branches)
    }

    fn into_concatenation_parts(self) -> (parts: Vec<Self>)
        ensures
            parts@ == parts_of(self),
    {
        match self {
            Expression::Concatenation(parts) => parts,
            node => {
                let mut parts = Vec::new();
                parts.push(node);
                parts
            },
        }
    }

    fn into_alternation_branches(self) -> (branches: Vec<Self>)
        ensures
            branches@ == branches_of(self),
    {
        match self {
            Expression::Alternation(branches) => branches,
            node => {
                let mut branches = Vec::new();
                branches.push(node);
                branches
            },
        }
    }

    /// Applies the `*` quantifier to `self`.
    pub fn star(self) -> (result: Self)
        ensures
            result matches Expression::Repetition(inner, quantifier) && *inner == self
                && quantifier.spec_minimum() == 0 && quantifier.spec_maximum() is None,
    {
        self.repeated(Quantifier::zero_or_more())
    }

    /// Applies the `+` quantifier to `self`.
    pub fn plus(self) -> (result: Self)
        ensures
            result matches Expression::Repetition(inner, quantifier) && *inner == self
                && quantifier.spec_minimum() == 1 && quantifier.spec_maximum() is None,
    {
        self.repeated(Quantifier::one_or_more())
    }

    /// Applies the `?` quantifier to `self`.
    pub fn optional(self) -> (result: Self)
        ensures
            result matches Expression::Repetition(inner, quantifier) && *inner == self
                && quantifier.spec_minimum() == 0 && quantifier.spec_maximum() == Some(1usize),
    {
        self.repeated(Quantifier::zero_or_one())
    }

    /// Applies `quantifier` to `self`.
    pub fn repeated(self, quantifier: Quantifier) -> (result: Self)
        ensures
            result == Expression::Repetition(Box::new(self), quantifier),
    {
        Expression::Repetition(Box::new(self), quantifier)
    }

    /// Returns whether this expression matches the empty string.
    ///
    /// Lexer rules must not be nullable because each match must consume input.
    pub fn is_nullable(&self) -> (nullable: bool)
        ensures
            nullable == is_nullable_spec(*self),
            *self is Class ==> !nullable,
            *self matches Expression::Concatenation(parts) ==> (nullable <==> forall|i: int|
                0 <= i < parts@.len() ==> #[trigger] is_nullable_spec(parts@[i])),
            *self matches Expression::Alternation(branches) ==> (nullable <==> exists|i: int|
                0 <= i < branches@.len() && #[trigger] is_nullable_spec(branches@[i])),
        decreases self,
    {
        proof {
            lemma_nullable_forms(*self);
        }
        match self {
            Expression::Epsilon => true,
            Expression::Class(_) => false,
            Expression::Concatenation(parts) => Self::all_are_nullable(parts),
            Expression::Alternation(branches) => Self::any_is_nullable(branches),
            Expression::Repetition(inner, quantifier) => quantifier.minimum() == 0
                || inner.is_nullable(),
        }
    }

    fn all_are_nullable(parts: &Vec<Expression>) -> (nullable: bool)
        ensures
            nullable == all_nullable(parts@),
        decreases parts,
    {
        let mut i: usize = 0;
        while i < parts.len()
            invariant
                i <= parts@.len(),
                all_nullable(parts@.take(i as int)),
            decreases parts@.len() - i,
        {
            proof {
                assert(parts@.take(i + 1).drop_last() =~= parts@.take(i as int));
            }
            if !parts[i].is_nullable() {
                proof {
                    lemma_all_prefix(parts@, i + 1);
                }
                return false;
            }
            i = i + 1;
        }
        proof {
            assert(parts@.take(parts@.len() as int) =~= parts@);
        }
        true
    }

    fn any_is_nullable(branches: &Vec<Expression>) -> (nullable: bool)
        ensures
            nullable == any_nullable(branches@),
        decreases branches,
    {
        let mut i: usize = 0;
        while i < branches.len()
            invariant
                i <= branches@.len(),
                !any_nullable(branches@.take(i as int)),
            decreases branches@.len() - i,
        {
            proof {
                assert(branches@.take(i + 1).drop_last() =~= branches@.take(i as int));
            }
            if branches[i].is_nullable() {
                proof {
                    lemma_any_prefix(branches@, i + 1);
                }
                return true;
            }
            i = i + 1;
        }
        proof {
            assert(branches@.take(branches@.len() as int) =~= branches@);
        }
        false
    }

    /// Returns the node count after bounded repetitions expand.
    ///
    /// This estimate predicts Thompson construction size. It saturates at
    /// [`usize::MAX`].
    pub fn expanded_size(&self) -> (count: usize)
        ensures
            count == saturated(expanded(*self)),
            count >= 1,
        decreases self,
    {
        proof {
            lemma_expanded_positive(*self);
        }
        match self {
            Expression::Epsilon => 1,
            Expression::Class(_) => 1,
            Expression::Concatenation(parts) => Self::expanded_sizes(parts),
            Expression::Alternation(branches) => Self::expanded_sizes(branches),
            Expression::Repetition(inner, quantifier) => {
                proof {
                    lemma_expanded_positive(**inner);
                }
                if quantifier.has_direct_construction() {
                    inner.expanded_size().saturating_add(1)
                } else {
                    let minimum = quantifier.minimum();
                    let maximum = match quantifier.maximum() {
                        Some(maximum) => maximum,
                        None => minimum.saturating_add(1),
                    };
                    let inner_size = inner.expanded_size();
                    proof {
                        lemma_saturated_product(expanded(**inner), maximum as int);
                        assert(expanded(**inner) * maximum >= 0) by (nonlinear_arith)
                            requires
                                expanded(**inner) >= 1,
                                maximum >= 0,
                        ;
                        if quantifier.spec_maximum() is None && minimum == usize::MAX {
                            assert(expanded(**inner) * (minimum + 1) >= usize::MAX) by (nonlinear_arith)
                                requires
                                    expanded(**inner) >= 1,
                                    minimum == usize::MAX,
                            ;
                            assert(inner_size as int * maximum >= usize::MAX) by (nonlinear_arith)
                                requires
                                    inner_size >= 1,
                                    maximum == usize::MAX,
                            ;
                        }
                    }
                    saturating_times(inner_size, maximum).saturating_add(
                        maximum.saturating_sub(minimum),
                    ).saturating_add(1)
                }
            },
        }
    }

    fn expanded_sizes(expressions: &Vec<Expression>) -> (count: usize)
        ensures
            count == saturated(1 + expanded_all(expressions@)),
        decreases expressions,
    {
        let mut total: usize = 1;
        let mut i: usize = 0;
        while i < expressions.len()
            invariant
                i <= expressions@.len(),
                total == saturated(1 + expanded_all(expressions@.take(i as int))),
            decreases expressions@.len() - i,
        {
            proof {
                assert(expressions@.take(i + 1).drop_last() =~= expressions@.take(i as int));
                lemma_expanded_all_nonnegative(expressions@.take(i as int));
                lemma_expanded_positive(expressions@[i as int]);
            }
            total = total.saturating_add(expressions[i].expanded_size());
            i = i + 1;
        }
        proof {
            assert(expressions@.take(expressions@.len() as int) =~= expressions@);
        }
        total
    }
}

proof fn lemma_all_prefix(expressions: Seq<Expression>, k: int)
    requires
        0 <= k <= expressions.len(),
        !all_nullable(expressions.take(k)),
    ensures
        !all_nullable(expressions),
    decreases expressions.len() - k,
{
    if k < expressions.len() {
        assert(expressions.take(k + 1).drop_last() =~= expressions.take(k));
        lemma_all_prefix(expressions, k + 1);
    } else {
        assert(expressions.take(k) =~= expressions);
    }
}

proof fn lemma_any_prefix(expressions: Seq<Expression>, k: int)
    requires
        0 <= k <= expressions.len(),
        any_nullable(expressions.take(k)),
    ensures
        any_nullable(expressions),
    decreases expressions.len() - k,
{
    if k < expressions.len() {
        assert(expressions.take(k + 1).drop_last() =~= expressions.take(k));
        lemma_any_prefix(expressions, k + 1);
    } else {
        assert(expressions.take(k) =~= expressions);
    }
}

/// Each expression of `expressions` matches the empty string exactly where
/// no expression of them reads a character.
proof fn lemma_all_nullable_every(expressions: Seq<Expression>)
    ensures
        all_nullable(expressions) <==> forall|i: int|
            0 <= i < expressions.len() ==> #[trigger] is_nullable_spec(expressions[i]),
    decreases expressions.len(),
{
    if expressions.len() > 0 {
        let prefix = expressions.drop_last();
        lemma_all_nullable_every(prefix);
        assert forall|i: int| 0 <= i < prefix.len() implies prefix[i] == expressions[i] by {}
        if forall|i: int| 0 <= i < expressions.len() ==> #[trigger] is_nullable_spec(expressions[i]) {
            assert forall|i: int| 0 <= i < prefix.len() implies #[trigger] is_nullable_spec(prefix[i]) by {
                assert(is_nullable_spec(expressions[i]));
            }
            assert(is_nullable_spec(expressions[expressions.len() - 1]));
        }
        if all_nullable(expressions) {
            assert forall|i: int| 0 <= i < expressions.len() implies #[trigger] is_nullable_spec(expressions[i]) by {
                if i < prefix.len() {
                    assert(is_nullable_spec(prefix[i]));
                }
            }
        }
    }
}

/// An expression of `expressions` matches the empty string exactly where
/// some expression of them does.
proof fn lemma_any_nullable_some(expressions: Seq<Expression>)
    ensures
        any_nullable(expressions) <==> exists|i: int|
            0 <= i < expressions.len() && #[trigger] is_nullable_spec(expressions[i]),
    decreases expressions.len(),
{
    if expressions.len() > 0 {
        let prefix = expressions.drop_last();
        lemma_any_nullable_some(prefix);
        if any_nullable(prefix) {
            let i = choose|i: int| 0 <= i < prefix.len() && #[trigger] is_nullable_spec(prefix[i]);
            assert(expressions[i] == prefix[i]);
        }
        if is_nullable_spec(expressions.last()) {
            assert(is_nullable_spec(expressions[expressions.len() - 1]));
        }
        if exists|i: int| 0 <= i < expressions.len() && #[trigger] is_nullable_spec(expressions[i]) {
            let i = choose|i: int| 0 <= i < expressions.len() && #[trigger] is_nullable_spec(expressions[i]);
            if i < prefix.len() {
                assert(prefix[i] == expressions[i]);
                assert(is_nullable_spec(prefix[i]));
            }
        }
    }
}

/// What matches the empty string, by the form of an expression: an epsilon
/// does; a class never does, since it reads one character; a concatenation
/// does exactly where each of its parts does, wherever a part that reads a
/// character stands; an alternation does exactly where one of its branches
/// does; a repetition does where it permits zero copies or its operand does.
pub proof fn lemma_nullable_forms(expression: Expression)
    ensures
        expression is Epsilon ==> is_nullable_spec(expression),
        expression is Class ==> !is_nullable_spec(expression),
        expression matches Expression::Concatenation(parts) ==> (is_nullable_spec(expression) <==> forall|i: int|
            0 <= i < parts@.len() ==> #[trigger] is_nullable_spec(parts@[i])),
        expression matches Expression::Alternation(branches) ==> (is_nullable_spec(expression) <==> exists|i: int|
            0 <= i < branches@.len() && #[trigger] is_nullable_spec(branches@[i])),
        expression matches Expression::Repetition(inner, quantifier) ==> (is_nullable_spec(expression) <==> quantifier.spec_minimum() == 0
            || is_nullable_spec(*inner)),
{
    match expression {
        Expression::Concatenation(parts) => lemma_all_nullable_every(parts@),
        Expression::Alternation(branches) => lemma_any_nullable_some(branches@),
        _ => {},
    }
}

/// An expression matches the empty string exactly where each part of its
/// concatenation does.
proof fn lemma_nullable_by_parts(expression: Expression)
    ensures
        is_nullable_spec(expression) <==> forall|i: int|
            0 <= i < parts_of(expression).len() ==> #[trigger] is_nullable_spec(parts_of(expression)[i]),
{
    lemma_nullable_forms(expression);
    if !(expression is Concatenation) {
        assert(parts_of(expression)[0] == expression);
    }
}

/// An expression matches the empty string exactly where a branch of its
/// alternation does.
proof fn lemma_nullable_by_branches(expression: Expression)
    ensures
        is_nullable_spec(expression) <==> exists|i: int|
            0 <= i < branches_of(expression).len() && #[trigger] is_nullable_spec(branches_of(expression)[i]),
{
    lemma_nullable_forms(expression);
    if !(expression is Alternation) {
        assert(branches_of(expression)[0] == expression);
    }
}

/// The concatenation of two expressions matches the empty string exactly
/// where both do: an identifier `[a-z][a-z0-9]*` does not, since its first
/// part reads a character.
pub proof fn lemma_concat_nullable(left: Expression, right: Expression, result: Expression)
    requires
        is_concatenation_of(left, right, result),
    ensures
        is_nullable_spec(result) <==> is_nullable_spec(left) && is_nullable_spec(right),
{
    lemma_nullable_forms(left);
    lemma_nullable_forms(right);
    if !(left is Epsilon) && !(right is Epsilon) {
        let first = parts_of(left);
        let second = parts_of(right);
        let all = parts_of(result);
        lemma_nullable_by_parts(left);
        lemma_nullable_by_parts(right);
        lemma_nullable_by_parts(result);
        assert(all == first + second);
        if is_nullable_spec(left) && is_nullable_spec(right) {
            assert forall|i: int| 0 <= i < all.len() implies #[trigger] is_nullable_spec(all[i]) by {
                if i < first.len() {
                    assert(all[i] == first[i]);
                    assert(is_nullable_spec(first[i]));
                } else {
                    assert(all[i] == second[i - first.len()]);
                    assert(is_nullable_spec(second[i - first.len()]));
                }
            }
        }
        if is_nullable_spec(result) {
            assert forall|i: int| 0 <= i < first.len() implies #[trigger] is_nullable_spec(first[i]) by {
                assert(all[i] == first[i]);
                assert(is_nullable_spec(all[i]));
            }
            assert forall|i: int| 0 <= i < second.len() implies #[trigger] is_nullable_spec(second[i]) by {
                assert(all[i + first.len()] == second[i]);
                assert(is_nullable_spec(all[i + first.len()]));
            }
        }
    }
}

/// The alternation of two expressions matches the empty string exactly
/// where one of them does.
pub proof fn lemma_alternate_nullable(left: Expression, right: Expression, result: Expression)
    requires
        is_alternation_of(left, right, result),
    ensures
        is_nullable_spec(result) <==> is_nullable_spec(left) || is_nullable_spec(right),
{
    let first = branches_of(left);
    let second = branches_of(right);
    let all = branches_of(result);
    lemma_nullable_by_branches(left);
    lemma_nullable_by_branches(right);
    lemma_nullable_by_branches(result);
    assert(all == first + second);
    if is_nullable_spec(left) {
        let i = choose|i: int| 0 <= i < first.len() && #[trigger] is_nullable_spec(first[i]);
        assert(all[i] == first[i]);
    }
    if is_nullable_spec(right) {
        let i = choose|i: int| 0 <= i < second.len() && #[trigger] is_nullable_spec(second[i]);
        assert(all[i + first.len()] == second[i]);
    }
    if is_nullable_spec(result) {
        let i = choose|i: int| 0 <= i < all.len() && #[trigger] is_nullable_spec(all[i]);
        if i < first.len() {
            assert(all[i] == first[i]);
        } else {
            assert(all[i] == second[i - first.len()]);
        }
    }
}

/// Grouping does not change a concatenation of expressions.
pub proof fn lemma_concatenation_grouping(
    a: Expression,
    b: Expression,
    c: Expression,
    ab: Expression,
    left: Expression,
    bc: Expression,
    right: Expression,
)
    requires
        is_concatenation_of(a, b, ab),
        is_concatenation_of(ab, c, left),
        is_concatenation_of(b, c, bc),
        is_concatenation_of(a, bc, right),
    ensures
        left == right || (left is Concatenation && right is Concatenation && parts_of(left)
            == parts_of(right)),
{
    assert(parts_of(a) + parts_of(b) + parts_of(c) =~= parts_of(a) + (parts_of(b) + parts_of(c)));
}

/// Grouping does not change an alternation of expressions.
pub proof fn lemma_alternation_grouping(
    a: Expression,
    b: Expression,
    c: Expression,
    ab: Expression,
    left: Expression,
    bc: Expression,
    right: Expression,
)
    requires
        is_alternation_of(a, b, ab),
        is_alternation_of(ab, c, left),
        is_alternation_of(b, c, bc),
        is_alternation_of(a, bc, right),
    ensures
        left is Alternation && right is Alternation && branches_of(left) == branches_of(right),
{
    assert(branches_of(a) + branches_of(b) + branches_of(c) =~= branches_of(a) + (branches_of(b)
        + branches_of(c)));
}

/// Copies each expression of `expressions`, in sequence.
fn copy_all(expressions: &Vec<Expression>) -> (copies: Vec<Expression>)
    ensures
        copies@.len() == expressions@.len(),
    decreases expressions, 0nat,
{
    let mut copies: Vec<Expression> = Vec::new();
    let mut i: usize = 0;
    while i < expressions.len()
        invariant
            i <= expressions@.len(),
            copies@.len() == i,
        decreases expressions@.len() - i,
    {
        proof {
            assert(decreases_to!(expressions => expressions@));
            assert(decreases_to!(expressions@ => expressions@[i as int]));
        }
        copies.push(copy_tree(&expressions[i]));
        i = i + 1;
    }
    copies
}

/// Copies the tree of `expression`.
fn copy_tree(expression: &Expression) -> (copy: Expression)
    decreases expression, 1nat,
{
    match expression {
        Expression::Epsilon => Expression::Epsilon,
        Expression::Class(set) => Expression::Class(set.clone()),
        Expression::Concatenation(parts) => Expression::Concatenation(copy_all(parts)),
        Expression::Alternation(branches) => Expression::Alternation(copy_all(branches)),
        Expression::Repetition(inner, quantifier) => Expression::Repetition(
            Box::new(copy_tree(inner)),
            *quantifier,
        ),
    }
}

impl Clone for Expression {
    fn clone(&self) -> (copy: Self) {
        copy_tree(self)
    }
}

} // verus!
