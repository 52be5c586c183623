use vstd::prelude::*;

use super::charset::CharSet;

verus! {

/// A node of the syntax tree of a regular expression.
///
/// Each node matches a set of strings. A leaf is an [`Epsilon`](Node::Epsilon)
/// or a [`Class`](Node::Class). Each other variant holds the nodes that its
/// operator applies to.
#[derive(Debug, PartialEq, Eq)]
pub enum Node {
    // A concatenation and an alternation hold their children in a list. They
    // do not nest in pairs. Thus the depth of a tree is the depth of the
    // groups in the pattern, and not the length of the pattern.
    /// Matches the empty string.
    Epsilon,
    /// Matches one character from the set.
    Class(CharSet),
    /// Matches each part in sequence.
    Concatenation(Vec<Node>),
    /// Matches one of the branches.
    Alternation(Vec<Node>),
    /// Matches the expression as many times as the repetition permits.
    Repetition(Box<Node>, Repetitions),
    /// Matches the expression zero or more times.
    Star(Box<Node>),
    /// Matches the expression one or more times.
    Plus(Box<Node>),
    /// Matches the expression zero times or one time.
    Optional(Box<Node>),
}

/// The number of times that a [`Repetition`](Node::Repetition) matches its
/// expression.
#[derive(Debug, Clone, Copy, PartialEq, Eq, Structural, PartialOrd, Ord, Hash)]
pub enum Repetitions {
    /// Matches a minimum of the first count of times, and a maximum of the
    /// second count of times.
    Range(usize, usize),
    /// Matches a minimum of this count of times. There is no maximum.
    AtLeast(usize),
}

/// The parts that a concatenation of `node` holds: the parts of a
/// concatenation, or the node alone.
pub open spec fn concatenation_parts(node: Node) -> Seq<Node> {
    match node {
        Node::Concatenation(parts) => parts@,
        _ => seq![node],
    }
}

/// The branches that an alternation of `node` holds: the branches of an
/// alternation, or the node alone.
pub open spec fn alternation_branches(node: Node) -> Seq<Node> {
    match node {
        Node::Alternation(branches) => branches@,
        _ => seq![node],
    }
}

/// Whether `result` is the node that matches `left` and then `right`: an
/// [`Epsilon`](Node::Epsilon) operand gives the other operand, and two other
/// operands give one flat concatenation of their parts.
pub open spec fn is_concat(left: Node, right: Node, result: Node) -> bool {
    if left is Epsilon {
        result == right
    } else if right is Epsilon {
        result == left
    } else {
        result is Concatenation && concatenation_parts(result) == concatenation_parts(left)
            + concatenation_parts(right)
    }
}

/// Whether `result` is the flat alternation of the branches of `left` and
/// then those of `right`.
pub open spec fn is_alternate(left: Node, right: Node, result: Node) -> bool {
    result is Alternation && alternation_branches(result) == alternation_branches(left)
        + alternation_branches(right)
}

/// Whether `first` and `second` are the same node, up to the storage of the
/// parts of a concatenation or of the branches of an alternation.
pub open spec fn same_node(first: Node, second: Node) -> bool {
    ||| first == second
    ||| first is Concatenation && second is Concatenation && concatenation_parts(first)
        == concatenation_parts(second)
    ||| first is Alternation && second is Alternation && alternation_branches(first)
        == alternation_branches(second)
}

/// The minimum count of `repetitions`.
pub open spec fn minimum_of(repetitions: Repetitions) -> usize {
    match repetitions {
        Repetitions::Range(minimum, _) => minimum,
        Repetitions::AtLeast(minimum) => minimum,
    }
}

/// Whether `node` matches the empty string.
pub open spec fn nullable(node: Node) -> bool
    decreases node,
{
    match node {
        Node::Epsilon => true,
        Node::Star(_) => true,
        Node::Optional(_) => true,
        Node::Class(_) => false,
        Node::Concatenation(parts) => all_nullable(parts@),
        Node::Alternation(branches) => any_nullable(branches@),
        Node::Plus(inner) => nullable(*inner),
        Node::Repetition(inner, repetitions) => minimum_of(repetitions) == 0 || nullable(*inner),
    }
}

/// Whether each node of `nodes` matches the empty string.
pub open spec fn all_nullable(nodes: Seq<Node>) -> bool
    decreases nodes,
{
    if nodes.len() == 0 {
        true
    } else {
        all_nullable(nodes.drop_last()) && nullable(nodes.last())
    }
}

/// Whether a node of `nodes` matches the empty string.
pub open spec fn any_nullable(nodes: Seq<Node>) -> bool
    decreases nodes,
{
    if nodes.len() == 0 {
        false
    } else {
        any_nullable(nodes.drop_last()) || nullable(nodes.last())
    }
}

/// The first repetition of `node`, in the sequence of the pattern, whose
/// maximum is below its minimum.
pub open spec fn first_inverted(node: Node) -> Option<Repetitions>
    decreases node,
{
    match node {
        Node::Epsilon => None,
        Node::Class(_) => None,
        Node::Concatenation(parts) => first_inverted_of(parts@),
        Node::Alternation(branches) => first_inverted_of(branches@),
        Node::Star(inner) => first_inverted(*inner),
        Node::Plus(inner) => first_inverted(*inner),
        Node::Optional(inner) => first_inverted(*inner),
        Node::Repetition(inner, repetitions) => match repetitions {
            Repetitions::Range(minimum, maximum) => if maximum < minimum {
                Some(repetitions)
            } else {
                first_inverted(*inner)
            },
            Repetitions::AtLeast(_) => first_inverted(*inner),
        },
    }
}

/// The first inverted repetition of the first node of `nodes` that holds one.
pub open spec fn first_inverted_of(nodes: Seq<Node>) -> Option<Repetitions>
    decreases nodes,
{
    if nodes.len() == 0 {
        None
    } else {
        match first_inverted_of(nodes.drop_last()) {
            Some(found) => Some(found),
            None => first_inverted(nodes.last()),
        }
    }
}

/// The number of the nodes of `node`, after each repetition expands into one
/// copy for each permitted repetition.
pub open spec fn size(node: Node) -> int
    decreases node,
{
    match node {
        Node::Epsilon => 1,
        Node::Class(_) => 1,
        Node::Concatenation(parts) => 1 + sizes(parts@),
        Node::Alternation(branches) => 1 + sizes(branches@),
        Node::Star(inner) => size(*inner) + 1,
        Node::Plus(inner) => size(*inner) + 1,
        Node::Optional(inner) => size(*inner) + 1,
        Node::Repetition(inner, repetitions) => {
            let (minimum, maximum) = match repetitions {
                Repetitions::Range(minimum, maximum) => (minimum as int, maximum as int),
                Repetitions::AtLeast(minimum) => (minimum as int, minimum + 1),
            };
            size(*inner) * maximum + if maximum > minimum {
                maximum - minimum
            } else {
                0
            } + 1
        },
    }
}

/// The sum of the sizes of `nodes`.
pub open spec fn sizes(nodes: Seq<Node>) -> int
    decreases nodes,
{
    if nodes.len() == 0 {
        0
    } else {
        sizes(nodes.drop_last()) + size(nodes.last())
    }
}

/// `value`, or [`usize::MAX`] if `value` is above it.
pub open spec fn saturated(value: int) -> int {
    if value > usize::MAX {
        usize::MAX as int
    } else {
        value
    }
}

proof fn lemma_size_positive(node: Node)
    ensures
        size(node) >= 1,
    decreases node,
{
    match node {
        Node::Concatenation(parts) => lemma_sizes_nonnegative(parts@),
        Node::Alternation(branches) => lemma_sizes_nonnegative(branches@),
        Node::Star(inner) => lemma_size_positive(*inner),
        Node::Plus(inner) => lemma_size_positive(*inner),
        Node::Optional(inner) => lemma_size_positive(*inner),
        Node::Repetition(inner, repetitions) => {
            lemma_size_positive(*inner);
            let maximum = match repetitions {
                Repetitions::Range(_, maximum) => maximum as int,
                Repetitions::AtLeast(minimum) => minimum + 1,
            };
            assert(size(*inner) * maximum >= 0) by (nonlinear_arith)
                requires
                    size(*inner) >= 1,
                    maximum >= 0,
            ;
        },
        _ => {},
    }
}

proof fn lemma_sizes_nonnegative(nodes: Seq<Node>)
    ensures
        sizes(nodes) >= 0,
    decreases nodes,
{
    if nodes.len() > 0 {
        lemma_sizes_nonnegative(nodes.drop_last());
        lemma_size_positive(nodes.last());
    }
}

proof fn lemma_saturated_mul(value: int, factor: int)
    requires
        value >= 0,
        factor >= 0,
    ensures
        saturated(saturated(value) * factor) == saturated(value * factor),
{
    if factor > 0 && value > usize::MAX {
        assert(saturated(value) * factor >= usize::MAX) by (nonlinear_arith)
            requires
                saturated(value) == usize::MAX,
                factor >= 1,
        ;
        assert(value * factor >= usize::MAX) by (nonlinear_arith)
            requires
                value > usize::MAX,
                factor >= 1,
        ;
    }
}

/// Returns `left * right`, or [`usize::MAX`] if the product is above it.
fn saturating_product(left: usize, right: usize) -> (product: usize)
    ensures
        product == saturated(left * right),
{
    if left == 0 {
        return 0;
    }
    if right > usize::MAX / left {
        proof {
            assert(left * right > usize::MAX) by (nonlinear_arith)
                requires
                    left >= 1,
                    right > usize::MAX / left,
            ;
        }
        usize::MAX
    } else {
        proof {
            assert(left * right <= usize::MAX) by (nonlinear_arith)
                requires
                    left >= 1,
                    right <= usize::MAX / left,
            ;
        }
        left * right
    }
}

impl Node {
    /// Returns a node that matches `self` and then `other`.
    ///
    /// The method flattens a concatenation into one node. It also removes an
    /// [`Epsilon`](Node::Epsilon) operand.
    pub fn concat(self, other: Self) -> (node: Self)
        ensures
            is_concat(self, other, node),
    {
        match (self, other) {
            (Node::Epsilon, node) => node,
            (node, Node::Epsilon) => node,
            (left, right) => {
                let mut parts = left.into_concatenation_parts();
                let mut rest = right.into_concatenation_parts();
                parts.append(&mut rest);
                Node::Concatenation(parts)
            },
        }
    }

    /// Returns a node that matches `self` or `other`.
    ///
    /// The method flattens an alternation into one node.
    pub fn alternate(self, other: Self) -> (node: Self)
        ensures
            is_alternate(self, other, node),
    {
        let mut branches = self.into_alternation_branches();
        let mut rest = other.into_alternation_branches();
        branches.append(&mut rest);
        Node::Alternation(branches)
    }

    fn into_concatenation_parts(self) -> (parts: Vec<Self>)
        ensures
            parts@ == concatenation_parts(self),
    {
        match self {
            Node::Concatenation(parts) => parts,
            node => {
                let mut parts = Vec::new();
                parts.push(node);
                parts
            },
        }
    }

    fn into_alternation_branches(self) -> (branches: Vec<Self>)
        ensures
            branches@ == alternation_branches(self),
    {
        match self {
            Node::Alternation(branches) => branches,
            node => {
                let mut branches = Vec::new();
                branches.push(node);
                branches
            },
        }
    }

    /// Returns a node that matches `self` zero or more times.
    pub fn star(self) -> (node: Self)
        ensures
            node == Node::Star(Box::new(self)),
    {
        Node::Star(Box::new(self))
    }

    /// Returns a node that matches `self` one or more times.
    pub fn plus(self) -> (node: Self)
        ensures
            node == Node::Plus(Box::new(self)),
    {
        Node::Plus(Box::new(self))
    }

    /// Returns a node that matches `self` zero times or one time.
    pub fn optional(self) -> (node: Self)
        ensures
            node == Node::Optional(Box::new(self)),
    {
        Node::Optional(Box::new(self))
    }

    /// Returns a node that matches `self` as many times as `repetitions`
    /// permits.
    pub fn repeated(self, repetitions: Repetitions) -> (node: Self)
        ensures
            node == Node::Repetition(Box::new(self), repetitions),
    {
        Node::Repetition(Box::new(self), repetitions)
    }

    /// Returns `true` if the node matches the empty string.
    ///
    /// A rule of a lexer needs a pattern that reads at least one character. A
    /// pattern that matches the empty string gives a match of no length, thus
    /// the lexer makes no progress.
    pub fn matches_empty(&self) -> (empty: bool)
        ensures
            empty == nullable(*self),
            *self is Class ==> !empty,
            *self matches Node::Concatenation(parts) ==> (empty <==> forall|i: int|
                0 <= i < parts@.len() ==> #[trigger] nullable(parts@[i])),
            *self matches Node::Alternation(branches) ==> (empty <==> exists|i: int|
                0 <= i < branches@.len() && #[trigger] nullable(branches@[i])),
        decreases self,
    {
        proof {
            lemma_nullable_forms(*self);
        }
        match self {
            Node::Epsilon => true,
            Node::Star(_) => true,
            Node::Optional(_) => true,
            Node::Class(_) => false,
            Node::Concatenation(parts) => Self::all_match_empty(parts),
            Node::Alternation(branches) => Self::any_matches_empty(branches),
            Node::Plus(inner) => inner.matches_empty(),
            Node::Repetition(inner, repetitions) => {
                let minimum = match repetitions {
                    Repetitions::Range(minimum, _) => *minimum,
                    Repetitions::AtLeast(minimum) => *minimum,
                };
                minimum == 0 || inner.matches_empty()
            },
        }
    }

    fn all_match_empty(parts: &Vec<Node>) -> (empty: bool)
        ensures
            empty == all_nullable(parts@),
        decreases parts,
    {
        let mut i: usize = 0;
        while i < parts.len()
            invariant
                i <= parts@.len(),
                all_nullable(parts@.take(i as int)),
            decreases parts@.len() - i,
        {
            proof {
                assert(parts@.take(i + 1).drop_last() =~= parts@.take(i as int));
            }
            if !parts[i].matches_empty() {
                proof {
                    lemma_all_nullable_prefix(parts@, i + 1);
                }
                return false;
            }
            i = i + 1;
        }
        proof {
            assert(parts@.take(parts@.len() as int) =~= parts@);
        }
        true
    }

    fn any_matches_empty(branches: &Vec<Node>) -> (empty: bool)
        ensures
            empty == any_nullable(branches@),
        decreases branches,
    {
        let mut i: usize = 0;
        while i < branches.len()
            invariant
                i <= branches@.len(),
                !any_nullable(branches@.take(i as int)),
            decreases branches@.len() - i,
        {
            proof {
                assert(branches@.take(i + 1).drop_last() =~= branches@.take(i as int));
            }
            if branches[i].matches_empty() {
                proof {
                    lemma_any_nullable_prefix(branches@, i + 1);
                }
                return true;
            }
            i = i + 1;
        }
        proof {
            assert(branches@.take(branches@.len() as int) =~= branches@);
        }
        false
    }

    /// Returns the first repetition of the tree whose maximum is below its
    /// minimum.
    ///
    /// Such a repetition matches nothing. The parser rejects it, but a tree
    /// that a caller builds by hand can hold one.
    pub fn inverted_repetition(&self) -> (found: Option<Repetitions>)
        ensures
            found == first_inverted(*self),
            found matches Some(repetitions) ==> holds_repetition(*self, repetitions) && is_inverted(repetitions),
            found is None ==> forall|repetitions: Repetitions|
                #[trigger] holds_repetition(*self, repetitions) ==> !is_inverted(repetitions),
            *self matches Node::Concatenation(parts) ==> (found is Some ==> exists|i: int|
                0 <= i < parts@.len() && #[trigger] holds_repetition(parts@[i], found->Some_0) && forall|j: int|
                    0 <= j < i ==> #[trigger] clean(parts@[j])),
            *self matches Node::Alternation(branches) ==> (found is Some ==> exists|i: int|
                0 <= i < branches@.len() && #[trigger] holds_repetition(branches@[i], found->Some_0) && forall|j: int|
                    0 <= j < i ==> #[trigger] clean(branches@[j])),
        decreases self,
    {
        proof {
            lemma_first_inverted_found(*self);
            if let Node::Concatenation(parts) = self {
                lemma_first_inverted_of_found(parts@);
            }
            if let Node::Alternation(branches) = self {
                lemma_first_inverted_of_found(branches@);
            }
        }
        match self {
            Node::Epsilon => None,
            Node::Class(_) => None,
            Node::Concatenation(parts) => Self::first_inverted_in(parts),
            Node::Alternation(branches) => Self::first_inverted_in(branches),
            Node::Star(inner) => inner.inverted_repetition(),
            Node::Plus(inner) => inner.inverted_repetition(),
            Node::Optional(inner) => inner.inverted_repetition(),
            Node::Repetition(inner, repetitions) => match *repetitions {
                Repetitions::Range(minimum, maximum) => {
                    if maximum < minimum {
                        Some(*repetitions)
                    } else {
                        inner.inverted_repetition()
                    }
                },
                Repetitions::AtLeast(_) => inner.inverted_repetition(),
            },
        }
    }

    fn first_inverted_in(nodes: &Vec<Node>) -> (found: Option<Repetitions>)
        ensures
            found == first_inverted_of(nodes@),
        decreases nodes,
    {
        let mut i: usize = 0;
        while i < nodes.len()
            invariant
                i <= nodes@.len(),
                first_inverted_of(nodes@.take(i as int)) is None,
            decreases nodes@.len() - i,
        {
            proof {
                assert(nodes@.take(i + 1).drop_last() =~= nodes@.take(i as int));
            }
            let found = nodes[i].inverted_repetition();
            if found.is_some() {
                proof {
                    lemma_first_inverted_prefix(nodes@, i + 1);
                }
                return found;
            }
            i = i + 1;
        }
        proof {
            assert(nodes@.take(nodes@.len() as int) =~= nodes@);
        }
        None
    }

    /// Returns the number of the nodes of the tree, after each repetition
    /// expands into one copy for each permitted repetition.
    ///
    /// The count saturates at [`usize::MAX`].
    pub fn expanded_size(&self) -> (count: usize)
        ensures
            count == saturated(size(*self)),
            count >= 1,
        decreases self,
    {
        proof {
            lemma_size_positive(*self);
        }
        match self {
            Node::Epsilon => 1,
            Node::Class(_) => 1,
            Node::Concatenation(parts) => Self::expanded_sizes(parts),
            Node::Alternation(branches) => Self::expanded_sizes(branches),
            Node::Star(inner) => {
                proof {
                    lemma_size_positive(**inner);
                }
                inner.expanded_size().saturating_add(1)
            },
            Node::Plus(inner) => {
                proof {
                    lemma_size_positive(**inner);
                }
                inner.expanded_size().saturating_add(1)
            },
            Node::Optional(inner) => {
                proof {
                    lemma_size_positive(**inner);
                }
                inner.expanded_size().saturating_add(1)
            },
            Node::Repetition(inner, repetitions) => {
                let (minimum, maximum) = match *repetitions {
                    Repetitions::Range(minimum, maximum) => (minimum, maximum),
                    Repetitions::AtLeast(minimum) => (minimum, minimum.saturating_add(1)),
                };
                let inner_size = inner.expanded_size();
                proof {
                    lemma_size_positive(**inner);
                    lemma_saturated_mul(size(**inner), maximum as int);
                    assert(size(**inner) * maximum >= 0) by (nonlinear_arith)
                        requires
                            size(**inner) >= 1,
                            maximum >= 0,
                    ;
                }
                let count = saturating_product(inner_size, maximum).saturating_add(
                    maximum.saturating_sub(minimum),
                ).saturating_add(1);
                proof {
                    if let Repetitions::AtLeast(m) = *repetitions {
                        if m == usize::MAX {
                            assert(size(**inner) * (m + 1) >= usize::MAX) by (nonlinear_arith)
                                requires
                                    size(**inner) >= 1,
                                    m == usize::MAX,
                            ;
                            assert(inner_size as int * maximum >= usize::MAX) by (nonlinear_arith)
                                requires
                                    inner_size >= 1,
                                    maximum == usize::MAX,
                            ;
                        }
                    }
                }
                count
            },
        }
    }

    fn expanded_sizes(nodes: &Vec<Node>) -> (count: usize)
        ensures
            count == saturated(1 + sizes(nodes@)),
        decreases nodes,
    {
        let mut total: usize = 1;
        let mut i: usize = 0;
        while i < nodes.len()
            invariant
                i <= nodes@.len(),
                total == saturated(1 + sizes(nodes@.take(i as int))),
            decreases nodes@.len() - i,
        {
            proof {
                assert(nodes@.take(i + 1).drop_last() =~= nodes@.take(i as int));
                lemma_sizes_nonnegative(nodes@.take(i as int));
                lemma_size_positive(nodes@[i as int]);
            }
            total = total.saturating_add(nodes[i].expanded_size());
            i = i + 1;
        }
        proof {
            assert(nodes@.take(nodes@.len() as int) =~= nodes@);
        }
        total
    }
}

proof fn lemma_all_nullable_prefix(nodes: Seq<Node>, k: int)
    requires
        0 <= k <= nodes.len(),
        !all_nullable(nodes.take(k)),
    ensures
        !all_nullable(nodes),
    decreases nodes.len() - k,
{
    if k < nodes.len() {
        assert(nodes.take(k + 1).drop_last() =~= nodes.take(k));
        lemma_all_nullable_prefix(nodes, k + 1);
    } else {
        assert(nodes.take(k) =~= nodes);
    }
}

proof fn lemma_any_nullable_prefix(nodes: Seq<Node>, k: int)
    requires
        0 <= k <= nodes.len(),
        any_nullable(nodes.take(k)),
    ensures
        any_nullable(nodes),
    decreases nodes.len() - k,
{
    if k < nodes.len() {
        assert(nodes.take(k + 1).drop_last() =~= nodes.take(k));
        lemma_any_nullable_prefix(nodes, k + 1);
    } else {
        assert(nodes.take(k) =~= nodes);
    }
}

proof fn lemma_first_inverted_prefix(nodes: Seq<Node>, k: int)
    requires
        0 <= k <= nodes.len(),
    ensures
        first_inverted_of(nodes.take(k)) is Some ==> first_inverted_of(nodes) == first_inverted_of(
            nodes.take(k),
        ),
    decreases nodes.len() - k,
{
    if k < nodes.len() {
        assert(nodes.take(k + 1).drop_last() =~= nodes.take(k));
        lemma_first_inverted_prefix(nodes, k + 1);
    } else {
        assert(nodes.take(k) =~= nodes);
    }
}

/// Each node of `nodes` matches the empty string exactly where no node of
/// them reads a character.
proof fn lemma_all_nullable_every(nodes: Seq<Node>)
    ensures
        all_nullable(nodes) <==> forall|i: int| 0 <= i < nodes.len() ==> #[trigger] nullable(nodes[i]),
    decreases nodes.len(),
{
    if nodes.len() > 0 {
        let prefix = nodes.drop_last();
        lemma_all_nullable_every(prefix);
        assert forall|i: int| 0 <= i < prefix.len() implies prefix[i] == nodes[i] by {}
        if forall|i: int| 0 <= i < nodes.len() ==> #[trigger] nullable(nodes[i]) {
            assert forall|i: int| 0 <= i < prefix.len() implies #[trigger] nullable(prefix[i]) by {
                assert(nullable(nodes[i]));
            }
            assert(nullable(nodes[nodes.len() - 1]));
        }
        if all_nullable(nodes) {
            assert forall|i: int| 0 <= i < nodes.len() implies #[trigger] nullable(nodes[i]) by {
                if i < prefix.len() {
                    assert(nullable(prefix[i]));
                }
            }
        }
    }
}

/// A node of `nodes` matches the empty string exactly where some node of
/// them does.
proof fn lemma_any_nullable_some(nodes: Seq<Node>)
    ensures
        any_nullable(nodes) <==> exists|i: int| 0 <= i < nodes.len() && #[trigger] nullable(nodes[i]),
    decreases nodes.len(),
{
    if nodes.len() > 0 {
        let prefix = nodes.drop_last();
        lemma_any_nullable_some(prefix);
        if any_nullable(prefix) {
            let i = choose|i: int| 0 <= i < prefix.len() && #[trigger] nullable(prefix[i]);
            assert(nodes[i] == prefix[i]);
        }
        if nullable(nodes.last()) {
            assert(nullable(nodes[nodes.len() - 1]));
        }
        if exists|i: int| 0 <= i < nodes.len() && #[trigger] nullable(nodes[i]) {
            let i = choose|i: int| 0 <= i < nodes.len() && #[trigger] nullable(nodes[i]);
            if i < prefix.len() {
                assert(prefix[i] == nodes[i]);
                assert(nullable(prefix[i]));
            }
        }
    }
}

/// What matches the empty string, by the form of a node: an epsilon, a star
/// and an optional node do; a class never does, since it reads one
/// character; a concatenation does exactly where each of its parts does,
/// wherever a part that reads a character stands; an alternation does
/// exactly where one of its branches does; a plus does where its operand
/// does; a repetition does where it permits zero copies or its operand does.
pub proof fn lemma_nullable_forms(node: Node)
    ensures
        node is Epsilon || node is Star || node is Optional ==> nullable(node),
        node is Class ==> !nullable(node),
        node matches Node::Concatenation(parts) ==> (nullable(node) <==> forall|i: int|
            0 <= i < parts@.len() ==> #[trigger] nullable(parts@[i])),
        node matches Node::Alternation(branches) ==> (nullable(node) <==> exists|i: int|
            0 <= i < branches@.len() && #[trigger] nullable(branches@[i])),
        node matches Node::Plus(inner) ==> (nullable(node) <==> nullable(*inner)),
        node matches Node::Repetition(inner, repetitions) ==> (nullable(node) <==> minimum_of(repetitions)
            == 0 || nullable(*inner)),
{
    match node {
        Node::Concatenation(parts) => lemma_all_nullable_every(parts@),
        Node::Alternation(branches) => lemma_any_nullable_some(branches@),
        _ => {},
    }
}

/// A node matches the empty string exactly where each part of its
/// concatenation does.
proof fn lemma_nullable_by_parts(node: Node)
    ensures
        nullable(node) <==> forall|i: int|
            0 <= i < concatenation_parts(node).len() ==> #[trigger] nullable(concatenation_parts(node)[i]),
{
    lemma_nullable_forms(node);
    if !(node is Concatenation) {
        assert(concatenation_parts(node)[0] == node);
    }
}

/// A node matches the empty string exactly where a branch of its alternation
/// does.
proof fn lemma_nullable_by_branches(node: Node)
    ensures
        nullable(node) <==> exists|i: int|
            0 <= i < alternation_branches(node).len() && #[trigger] nullable(alternation_branches(node)[i]),
{
    lemma_nullable_forms(node);
    if !(node is Alternation) {
        assert(alternation_branches(node)[0] == node);
    }
}

/// The concatenation of two nodes matches the empty string exactly where
/// both do: `ab*` does not, since `a` reads a character.
pub proof fn lemma_concat_nullable(left: Node, right: Node, result: Node)
    requires
        is_concat(left, right, result),
    ensures
        nullable(result) <==> nullable(left) && nullable(right),
{
    lemma_nullable_forms(left);
    lemma_nullable_forms(right);
    if !(left is Epsilon) && !(right is Epsilon) {
        let first = concatenation_parts(left);
        let second = concatenation_parts(right);
        let all = concatenation_parts(result);
        lemma_nullable_by_parts(left);
        lemma_nullable_by_parts(right);
        lemma_nullable_by_parts(result);
        assert(all == first + second);
        if nullable(left) && nullable(right) {
            assert forall|i: int| 0 <= i < all.len() implies #[trigger] nullable(all[i]) by {
                if i < first.len() {
                    assert(all[i] == first[i]);
                    assert(nullable(first[i]));
                } else {
                    assert(all[i] == second[i - first.len()]);
                    assert(nullable(second[i - first.len()]));
                }
            }
        }
        if nullable(result) {
            assert forall|i: int| 0 <= i < first.len() implies #[trigger] nullable(first[i]) by {
                assert(all[i] == first[i]);
                assert(nullable(all[i]));
            }
            assert forall|i: int| 0 <= i < second.len() implies #[trigger] nullable(second[i]) by {
                assert(all[i + first.len()] == second[i]);
                assert(nullable(all[i + first.len()]));
            }
        }
    }
}

/// The alternation of two nodes matches the empty string exactly where one
/// of them does.
pub proof fn lemma_alternate_nullable(left: Node, right: Node, result: Node)
    requires
        is_alternate(left, right, result),
    ensures
        nullable(result) <==> nullable(left) || nullable(right),
{
    let first = alternation_branches(left);
    let second = alternation_branches(right);
    let all = alternation_branches(result);
    lemma_nullable_by_branches(left);
    lemma_nullable_by_branches(right);
    lemma_nullable_by_branches(result);
    assert(all == first + second);
    if nullable(left) {
        let i = choose|i: int| 0 <= i < first.len() && #[trigger] nullable(first[i]);
        assert(all[i] == first[i]);
    }
    if nullable(right) {
        let i = choose|i: int| 0 <= i < second.len() && #[trigger] nullable(second[i]);
        assert(all[i + first.len()] == second[i]);
    }
    if nullable(result) {
        let i = choose|i: int| 0 <= i < all.len() && #[trigger] nullable(all[i]);
        if i < first.len() {
            assert(all[i] == first[i]);
        } else {
            assert(all[i] == second[i - first.len()]);
        }
    }
}

/// Whether the maximum of `repetitions` is below its minimum.
pub open spec fn is_inverted(repetitions: Repetitions) -> bool {
    repetitions matches Repetitions::Range(minimum, maximum) && maximum < minimum
}

/// Whether a repetition node of the tree of `node`, at any depth and in any
/// part or branch, repeats its operand as `repetitions` says.
pub open spec fn holds_repetition(node: Node, repetitions: Repetitions) -> bool
    decreases node,
{
    match node {
        Node::Epsilon => false,
        Node::Class(_) => false,
        Node::Concatenation(parts) => any_holds(parts@, repetitions),
        Node::Alternation(branches) => any_holds(branches@, repetitions),
        Node::Star(inner) => holds_repetition(*inner, repetitions),
        Node::Plus(inner) => holds_repetition(*inner, repetitions),
        Node::Optional(inner) => holds_repetition(*inner, repetitions),
        Node::Repetition(inner, found) => found == repetitions || holds_repetition(*inner, repetitions),
    }
}

/// Whether the tree of a node of `nodes` holds a repetition node of
/// `repetitions`.
pub open spec fn any_holds(nodes: Seq<Node>, repetitions: Repetitions) -> bool
    decreases nodes,
{
    if nodes.len() == 0 {
        false
    } else {
        any_holds(nodes.drop_last(), repetitions) || holds_repetition(nodes.last(), repetitions)
    }
}

/// The tree of a node of `nodes` holds a repetition exactly where the tree of
/// one of them does.
pub proof fn lemma_any_holds_some(nodes: Seq<Node>, repetitions: Repetitions)
    ensures
        any_holds(nodes, repetitions) <==> exists|i: int|
            0 <= i < nodes.len() && #[trigger] holds_repetition(nodes[i], repetitions),
    decreases nodes.len(),
{
    if nodes.len() > 0 {
        let prefix = nodes.drop_last();
        lemma_any_holds_some(prefix, repetitions);
        if any_holds(prefix, repetitions) {
            let i = choose|i: int| 0 <= i < prefix.len() && #[trigger] holds_repetition(prefix[i], repetitions);
            assert(nodes[i] == prefix[i]);
        }
        if holds_repetition(nodes.last(), repetitions) {
            assert(holds_repetition(nodes[nodes.len() - 1], repetitions));
        }
        if exists|i: int| 0 <= i < nodes.len() && #[trigger] holds_repetition(nodes[i], repetitions) {
            let i = choose|i: int| 0 <= i < nodes.len() && #[trigger] holds_repetition(nodes[i], repetitions);
            if i < prefix.len() {
                assert(prefix[i] == nodes[i]);
                assert(holds_repetition(prefix[i], repetitions));
            }
        }
    }
}

/// The search for an inverted repetition finds one exactly where the tree
/// holds one: what it finds is an inverted repetition of the tree, and where
/// it finds none, no repetition anywhere in the tree, in each part of a
/// concatenation and in each branch of an alternation, is inverted.
pub proof fn lemma_first_inverted_found(node: Node)
    ensures
        first_inverted(node) matches Some(found) ==> holds_repetition(node, found) && is_inverted(found),
        first_inverted(node) is None ==> forall|repetitions: Repetitions|
            #[trigger] holds_repetition(node, repetitions) ==> !is_inverted(repetitions),
    decreases node,
{
    match node {
        Node::Concatenation(parts) => {
            lemma_first_inverted_of_found(parts@);
            assert forall|repetitions: Repetitions|
                #[trigger] holds_repetition(node, repetitions) implies any_holds(parts@, repetitions) by {}
        },
        Node::Alternation(branches) => {
            lemma_first_inverted_of_found(branches@);
            assert forall|repetitions: Repetitions|
                #[trigger] holds_repetition(node, repetitions) implies any_holds(branches@, repetitions) by {}
        },
        Node::Star(inner) => {
            lemma_first_inverted_found(*inner);
            assert forall|repetitions: Repetitions|
                #[trigger] holds_repetition(node, repetitions) implies holds_repetition(*inner, repetitions) by {}
        },
        Node::Plus(inner) => {
            lemma_first_inverted_found(*inner);
            assert forall|repetitions: Repetitions|
                #[trigger] holds_repetition(node, repetitions) implies holds_repetition(*inner, repetitions) by {}
        },
        Node::Optional(inner) => {
            lemma_first_inverted_found(*inner);
            assert forall|repetitions: Repetitions|
                #[trigger] holds_repetition(node, repetitions) implies holds_repetition(*inner, repetitions) by {}
        },
        Node::Repetition(inner, found) => {
            lemma_first_inverted_found(*inner);
            assert forall|repetitions: Repetitions|
                #[trigger] holds_repetition(node, repetitions) && !is_inverted(found) implies holds_repetition(
                *inner,
                repetitions,
            ) || repetitions == found by {}
        },
        _ => {},
    }
}

/// Whether no repetition of the tree of `node` is inverted.
pub open spec fn clean(node: Node) -> bool {
    forall|repetitions: Repetitions| #[trigger] holds_repetition(node, repetitions) ==> !is_inverted(repetitions)
}

/// The search over `nodes` finds an inverted repetition exactly where the
/// tree of one of them holds one, and it finds one of the first node that
/// holds one: each node before that node is clean.
pub proof fn lemma_first_inverted_of_found(nodes: Seq<Node>)
    ensures
        first_inverted_of(nodes) matches Some(found) ==> any_holds(nodes, found) && is_inverted(found),
        first_inverted_of(nodes) is None ==> forall|repetitions: Repetitions|
            #[trigger] any_holds(nodes, repetitions) ==> !is_inverted(repetitions),
        first_inverted_of(nodes) matches Some(found) ==> exists|i: int|
            0 <= i < nodes.len() && #[trigger] holds_repetition(nodes[i], found) && forall|j: int|
                0 <= j < i ==> #[trigger] clean(nodes[j]),
    decreases nodes,
{
    if nodes.len() > 0 {
        let prefix = nodes.drop_last();
        lemma_first_inverted_of_found(prefix);
        lemma_first_inverted_found(nodes.last());
        if let Some(found) = first_inverted_of(prefix) {
            let i = choose|i: int|
                0 <= i < prefix.len() && #[trigger] holds_repetition(prefix[i], found) && forall|j: int|
                    0 <= j < i ==> #[trigger] clean(prefix[j]);
            assert(nodes[i] == prefix[i]);
            assert forall|j: int| 0 <= j < i implies #[trigger] clean(nodes[j]) by {
                assert(nodes[j] == prefix[j]);
                assert(clean(prefix[j]));
            }
        } else if let Some(found) = first_inverted(nodes.last()) {
            let i = nodes.len() - 1;
            assert(nodes[i] == nodes.last());
            assert forall|j: int| 0 <= j < i implies #[trigger] clean(nodes[j]) by {
                assert(nodes[j] == prefix[j]);
                assert forall|repetitions: Repetitions|
                    #[trigger] holds_repetition(nodes[j], repetitions) implies !is_inverted(repetitions) by {
                    lemma_any_holds_some(prefix, repetitions);
                    assert(holds_repetition(prefix[j], repetitions));
                    assert(any_holds(prefix, repetitions));
                }
            }
        }
        assert forall|repetitions: Repetitions|
            #[trigger] any_holds(nodes, repetitions) implies any_holds(prefix, repetitions) || holds_repetition(
            nodes.last(),
            repetitions,
        ) by {}
        if let Some(found) = first_inverted_of(prefix) {
            assert(any_holds(prefix, found));
        } else if let Some(found) = first_inverted(nodes.last()) {
            assert(holds_repetition(nodes.last(), found));
        }
    }
}

/// With [`Node::inverted_repetition`]'s result: a node holds an inverted
/// repetition, in any part or branch, exactly where the search finds one, and
/// the search finds only a repetition of the tree.
pub proof fn lemma_inverted_repetition_exact(node: Node, repetitions: Repetitions)
    requires
        holds_repetition(node, repetitions),
        is_inverted(repetitions),
    ensures
        first_inverted(node) is Some,
{
    lemma_first_inverted_found(node);
}

/// Grouping does not change a concatenation: `(a b) c` and `a (b c)` give
/// the same node.
pub proof fn lemma_concat_grouping(
    a: Node,
    b: Node,
    c: Node,
    ab: Node,
    left: Node,
    bc: Node,
    right: Node,
)
    requires
        is_concat(a, b, ab),
        is_concat(ab, c, left),
        is_concat(b, c, bc),
        is_concat(a, bc, right),
    ensures
        same_node(left, right),
{
    let pa = concatenation_parts(a);
    let pb = concatenation_parts(b);
    let pc = concatenation_parts(c);
    assert(pa + pb + pc =~= pa + (pb + pc));
}

/// Grouping does not change an alternation: `(a | b) | c` and `a | (b | c)`
/// give the same node.
pub proof fn lemma_alternate_grouping(
    a: Node,
    b: Node,
    c: Node,
    ab: Node,
    left: Node,
    bc: Node,
    right: Node,
)
    requires
        is_alternate(a, b, ab),
        is_alternate(ab, c, left),
        is_alternate(b, c, bc),
        is_alternate(a, bc, right),
    ensures
        same_node(left, right),
{
    let pa = alternation_branches(a);
    let pb = alternation_branches(b);
    let pc = alternation_branches(c);
    assert(pa + pb + pc =~= pa + (pb + pc));
}

/// An [`Epsilon`](Node::Epsilon) operand leaves a concatenation unchanged.
pub proof fn lemma_concat_epsilon(node: Node, left: Node, right: Node)
    requires
        is_concat(Node::Epsilon, node, left),
        is_concat(node, Node::Epsilon, right),
    ensures
        left == node,
        right == node,
{
}

/// Copies each node of `nodes`, in sequence.
fn copy_all(nodes: &Vec<Node>) -> (copies: Vec<Node>)
    ensures
        copies@.len() == nodes@.len(),
    decreases nodes, 0nat,
{
    let mut copies: Vec<Node> = Vec::new();
    let mut i: usize = 0;
    while i < nodes.len()
        invariant
            i <= nodes@.len(),
            copies@.len() == i,
        decreases nodes@.len() - i,
    {
        proof {
            assert(decreases_to!(nodes => nodes@));
            assert(decreases_to!(nodes@ => nodes@[i as int]));
        }
        copies.push(copy_tree(&nodes[i]));
        i = i + 1;
    }
    copies
}

/// Copies the tree of `node`.
fn copy_tree(node: &Node) -> (copy: Node)
    decreases node, 1nat,
{
    match node {
        Node::Epsilon => Node::Epsilon,
        Node::Class(set) => Node::Class(set.clone()),
        Node::Concatenation(parts) => Node::Concatenation(copy_all(parts)),
        Node::Alternation(branches) => Node::Alternation(copy_all(branches)),
        Node::Repetition(inner, repetitions) => Node::Repetition(Box::new(copy_tree(inner)), *repetitions),
        Node::Star(inner) => Node::Star(Box::new(copy_tree(inner))),
        Node::Plus(inner) => Node::Plus(Box::new(copy_tree(inner))),
        Node::Optional(inner) => Node::Optional(Box::new(copy_tree(inner))),
    }
}

impl Clone for Node {
    fn clone(&self) -> (copy: Self) {
        copy_tree(self)
    }
}

} // verus!
