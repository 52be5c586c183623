//! Checks the rules that a lexer author wrote before the lexer is built.
//!
//! The derive macro supplies the rules, and it holds the span of each rule.
//! Thus this module reports the index of the rule at fault, and the macro turns
//! that index into a span.
use vstd::prelude::*;

use crate::automata::error::{decimal, push_decimal};
use crate::automata::Overflow;
use crate::compiler::BuildErrorKind;
use crate::regex::ParseError;
use crate::table::{MAX_RULES, Tables};

verus! {

/// The pattern of one rule, as the author wrote it.
#[derive(Debug, Clone, PartialEq, Eq)]
pub enum Pattern {
    /// A regular expression. The parser reads it.
    Regex(String),
    /// A literal. Each character matches itself, thus a regex character needs
    /// no escape.
    Literal(String),
}

/// What the checks read of one rule of a lexer.
#[derive(Debug, Clone)]
pub struct Rule {
    /// The pattern that the rule matches.
    pub pattern: Pattern,
    /// The indexes of the start conditions of the rule. An empty list means
    /// the first condition.
    pub conditions: Vec<usize>,
    /// The index of the start condition that the scan changes to after the
    /// match.
    pub go: Option<u16>,
}

/// What the checks read of the lexer that a lexer author wrote.
///
/// [`rules`](Self::rules) is in the sequence of precedence. The earliest rule
/// wins a tie at the same length.
#[derive(Debug, Clone)]
pub struct Specification {
    /// The number of the named start conditions, or `None` if the lexer reads
    /// under one condition.
    pub conditions: Option<usize>,
    /// The rules, in the sequence of precedence.
    pub rules: Vec<Rule>,
}

/// A failure to build the source of a lexer.
///
/// The index of the rule gives the derive macro the span for its
/// `compile_error!`.
#[derive(Debug, PartialEq, Eq)]
#[non_exhaustive]
pub struct GenerateError {
    /// The index of the rule at fault. A fault of the whole lexer gives `None`.
    pub rule: Option<usize>,
    /// The kind of the failure.
    pub kind: GenerateErrorKind,
}

/// The kind of failure that a [`GenerateError`] reports.
#[derive(Debug, PartialEq, Eq)]
#[non_exhaustive]
pub enum GenerateErrorKind {
    /// The parser cannot read the pattern of a rule.
    Pattern(ParseError),
    /// A check on a rule or on the whole lexer failed.
    Rule(BuildErrorKind),
    /// The lexer holds more rules than a table numbers.
    TooManyRules {
        /// The number of the rules of the lexer.
        count: usize,
        /// The maximum number of the rules.
        maximum: usize,
    },
    /// A rule can never win a match, thus it gives no token. An earlier rule
    /// matches each text that this rule matches, and the earliest rule wins a
    /// tie.
    NeverWins,
    /// The scan enters a start condition that no rule reads. The scan then
    /// gives a fault at each byte, and it stays under that condition to the
    /// end of the input.
    NeverRead,
    /// A rule reads under a start condition that the scan never enters. No
    /// `go` of a rule that the scan reaches names that condition, thus the rule
    /// never matches.
    NeverEntered,
}

impl GenerateErrorKind {
    /// Joins this kind to the rule at `rule`, then gives the error.
    pub fn in_rule(self, rule: usize) -> (error: GenerateError)
        ensures
            error == (GenerateError { rule: Some(rule), kind: self }),
    {
        GenerateError { rule: Some(rule), kind: self }
    }

    /// Joins this kind to the whole lexer, then gives the error.
    pub fn in_lexer(self) -> (error: GenerateError)
        ensures
            error == (GenerateError { rule: None, kind: self }),
    {
        GenerateError { rule: None, kind: self }
    }

    /// The correction that the lexer author must make, where one is known.
    pub open spec fn spec_help(&self) -> Option<Seq<char>> {
        match *self {
            GenerateErrorKind::Pattern(error) => error.kind.spec_help(),
            GenerateErrorKind::Rule(kind) => Some(kind.spec_help()),
            GenerateErrorKind::TooManyRules { .. } => Some("Divide the lexer into two lexers."@),
            GenerateErrorKind::NeverWins => Some("An earlier rule matches each text that this rule matches. Put this rule before that one, or write a pattern that only this rule matches."@),
            GenerateErrorKind::NeverRead => Some("Write a rule that reads under this start condition, or remove the `go` that enters it."@),
            GenerateErrorKind::NeverEntered => Some("Write `go` and this start condition on a rule that the scan reaches, or read this rule under another condition."@),
        }
    }

    /// Returns the correction that the lexer author must make.
    pub fn help(&self) -> (help: Option<&'static str>)
        ensures
            match help {
                Some(text) => self.spec_help() == Some(text@),
                None => self.spec_help() is None,
            },
    {
        match self {
            GenerateErrorKind::Pattern(error) => error.kind.help(),
            GenerateErrorKind::Rule(kind) => Some(kind.help()),
            GenerateErrorKind::TooManyRules { .. } => Some("Divide the lexer into two lexers."),
            GenerateErrorKind::NeverWins => Some("An earlier rule matches each text that this rule matches. Put this rule before that one, or write a pattern that only this rule matches."),
            GenerateErrorKind::NeverRead => Some("Write a rule that reads under this start condition, or remove the `go` that enters it."),
            GenerateErrorKind::NeverEntered => Some("Write `go` and this start condition on a rule that the scan reaches, or read this rule under another condition."),
        }
    }

    /// The message of the failure.
    pub open spec fn spec_message(&self) -> Seq<char> {
        match *self {
            GenerateErrorKind::Pattern(error) => error.spec_message(),
            GenerateErrorKind::Rule(kind) => kind.spec_message(),
            GenerateErrorKind::TooManyRules { count, maximum } => "the lexer holds "@ + decimal(
                count as nat,
            ) + " rules, above the limit of "@ + decimal(maximum as nat),
            GenerateErrorKind::NeverWins => "the rule can never win a match"@,
            GenerateErrorKind::NeverRead => "the scan enters a start condition that no rule reads"@,
            GenerateErrorKind::NeverEntered => "the rule reads under a start condition that the scan never enters"@,
        }
    }

    /// Returns the message of the failure.
    pub fn message(&self) -> (text: String)
        ensures
            text@ == self.spec_message(),
    {
        match self {
            GenerateErrorKind::Pattern(error) => error.message(),
            GenerateErrorKind::Rule(kind) => kind.message(),
            GenerateErrorKind::TooManyRules { count, maximum } => {
                let mut text = String::from_str("the lexer holds ");
                push_decimal(&mut text, *count);
                text.append(" rules, above the limit of ");
                push_decimal(&mut text, *maximum);
                text
            },
            GenerateErrorKind::NeverWins => String::from_str("the rule can never win a match"),
            GenerateErrorKind::NeverRead => String::from_str(
                "the scan enters a start condition that no rule reads",
            ),
            GenerateErrorKind::NeverEntered => String::from_str(
                "the rule reads under a start condition that the scan never enters",
            ),
        }
    }
}

impl GenerateError {
    /// Returns the message of the error, which is the message of its kind.
    pub fn message(&self) -> (text: String)
        ensures
            text@ == self.kind.spec_message(),
    {
        self.kind.message()
    }
}

/// Returns the error of a fault of the whole lexer.
pub fn failed(kind: BuildErrorKind) -> (error: GenerateError)
    ensures
        error == (GenerateError { rule: None, kind: GenerateErrorKind::Rule(kind) }),
{
    GenerateErrorKind::Rule(kind).in_lexer()
}

/// Returns the error of a lexer that needs a larger automaton than one
/// automaton holds.
pub fn overflow(full: Overflow) -> (errors: Vec<GenerateError>)
    ensures
        errors@ == seq![
            GenerateError {
                rule: None,
                kind: GenerateErrorKind::Rule(
                    BuildErrorKind::TooLarge { part: full.part, maximum: full.maximum },
                ),
            },
        ],
{
    let kind = BuildErrorKind::from(full);
    let mut errors: Vec<GenerateError> = Vec::new();
    errors.push(failed(kind));
    errors
}

/// The start conditions that `rule` reads under: its conditions, or the first
/// condition where it names none.
pub open spec fn under(rule: Rule) -> Seq<usize> {
    if rule.conditions@.len() == 0 {
        seq![0usize]
    } else {
        rule.conditions@
    }
}

/// The number of the start conditions of `specification`: one for each name,
/// and at least one.
pub open spec fn condition_count(specification: Specification) -> nat {
    match specification.conditions {
        Some(names) => if names > 1 {
            names as nat
        } else {
            1
        },
        None => 1,
    }
}

/// Whether a rule of `rules` reads under `condition`.
pub open spec fn read_under(rules: Seq<Rule>, condition: int) -> bool {
    exists|r: int, k: int|
        0 <= r < rules.len() && 0 <= k < under(rules[r]).len() && #[trigger] under(rules[r])[k]
            == condition
}

/// Whether `rule` reads under a condition of `conditions`.
pub open spec fn reaches(rule: Rule, conditions: Set<int>) -> bool {
    exists|k: int| 0 <= k < under(rule).len() && #[trigger] conditions.contains(under(rule)[k] as int)
}

/// Whether `conditions` holds the first condition, and the condition of each
/// `go` below `count` of a rule that reads under a condition of
/// `conditions`.
pub open spec fn closed(rules: Seq<Rule>, count: nat, conditions: Set<int>) -> bool {
    &&& conditions.contains(0)
    &&& forall|r: int|
        0 <= r < rules.len() && #[trigger] reaches(rules[r], conditions) && rules[r].go is Some
            && rules[r].go->Some_0 < count ==> conditions.contains(rules[r].go->Some_0 as int)
}

/// The start conditions that the scan enters: the conditions below `count`
/// that each closed set of conditions holds.
pub open spec fn entered_conditions(rules: Seq<Rule>, count: nat) -> Set<int> {
    Set::new(
        |condition: int|
            0 <= condition < count && forall|conditions: Set<int>|
                #[trigger] closed(rules, count, conditions) ==> conditions.contains(condition),
    )
}

/// The fault of the rule at `index`, if any: a rule under no condition that
/// the scan enters, or a rule whose `go` names a condition that no rule reads.
pub open spec fn fault_of(rules: Seq<Rule>, count: nat, index: int) -> Option<GenerateError> {
    let rule = rules[index];
    if !reaches(rule, entered_conditions(rules, count)) {
        Some(GenerateError { rule: Some(index as usize), kind: GenerateErrorKind::NeverEntered })
    } else if rule.go is Some && !(rule.go->Some_0 < count && read_under(
        rules,
        rule.go->Some_0 as int,
    )) {
        Some(GenerateError { rule: Some(index as usize), kind: GenerateErrorKind::NeverRead })
    } else {
        None
    }
}

/// The faults of the first `length` rules, in the sequence of the rules.
pub open spec fn faults(rules: Seq<Rule>, count: nat, length: nat) -> Seq<GenerateError>
    decreases length,
{
    if length == 0 {
        Seq::empty()
    } else {
        faults(rules, count, (length - 1) as nat) + match fault_of(rules, count, length - 1) {
            Some(error) => seq![error],
            None => Seq::empty(),
        }
    }
}

/// The number of the entries of `flags` that are `false`.
pub open spec fn unset(flags: Seq<bool>) -> nat
    decreases flags.len(),
{
    if flags.len() == 0 {
        0
    } else {
        unset(flags.drop_last()) + if flags.last() {
            0nat
        } else {
            1nat
        }
    }
}

/// Setting an entry that is `false` leaves one entry less that is `false`.
pub(crate) proof fn lemma_unset_update(flags: Seq<bool>, index: int)
    requires
        0 <= index < flags.len(),
        !flags[index],
    ensures
        unset(flags.update(index, true)) + 1 == unset(flags),
    decreases flags.len(),
{
    let after = flags.update(index, true);
    if index < flags.len() - 1 {
        lemma_unset_update(flags.drop_last(), index);
        assert(after.drop_last() =~= flags.drop_last().update(index, true));
    } else {
        assert(after.drop_last() =~= flags.drop_last());
    }
}

/// The set of the conditions that `flags` holds.
pub open spec fn flagged(flags: Seq<bool>) -> Set<int> {
    Set::new(|condition: int| 0 <= condition < flags.len() && flags[condition])
}

/// Returns whether `rule` reads under a condition that `flags` holds.
fn reads_under(rule: &Rule, flags: &[bool]) -> (reads: bool)
    requires
        forall|k: int| 0 <= k < under(*rule).len() ==> (#[trigger] under(*rule)[k]) < flags@.len(),
    ensures
        reads == reaches(*rule, flagged(flags@)),
{
    if rule.conditions.len() == 0 {
        assert(under(*rule)[0] < flags@.len());
        let reads = flags[0];
        proof {
            if reads {
                assert(flagged(flags@).contains(under(*rule)[0] as int));
            }
        }
        return reads;
    }
    let mut k: usize = 0;
    while k < rule.conditions.len()
        invariant
            rule.conditions@.len() > 0,
            forall|j: int| 0 <= j < under(*rule).len() ==> (#[trigger] under(*rule)[j]) < flags@.len(),
            k <= rule.conditions@.len(),
            forall|j: int| 0 <= j < k ==> !flags@[#[trigger] rule.conditions@[j] as int],
        decreases rule.conditions@.len() - k,
    {
        assert(under(*rule)[k as int] == rule.conditions@[k as int]);
        if flags[rule.conditions[k]] {
            proof {
                assert(under(*rule)[k as int] == rule.conditions@[k as int]);
                assert(flagged(flags@).contains(under(*rule)[k as int] as int));
            }
            return true;
        }
        k = k + 1;
    }
    proof {
        if reaches(*rule, flagged(flags@)) {
            let j = choose|j: int| 0 <= j < under(*rule).len() && #[trigger] flagged(flags@).contains(
                under(*rule)[j] as int,
            );
            assert(!flags@[rule.conditions@[j] as int]);
        }
    }
    false
}

/// Reports each start condition that the scan cannot use.
///
/// The scan begins under the first condition. A rule that the scan reaches
/// enters another condition with its `go`, thus the conditions that the scan
/// enters grow from the first one. A condition that no rule reads stops the
/// scan, because each byte under it gives a fault. A rule under a condition
/// that the scan never enters cannot match.
///
/// Each condition of a rule is a condition of the lexer; a `go` comes from
/// the caller, thus a `go` outside the lexer names a condition that no rule
/// reads.
///
/// A first condition that no rule reads names the lexer. Otherwise the
/// function returns one error for each rule that enters a condition that no
/// rule reads, and one error for each rule that reads under no condition that
/// the scan enters, in the sequence of the rules.
pub fn entered(specification: &Specification) -> (result: Result<(), Vec<GenerateError>>)
    requires
        forall|r: int, k: int|
            0 <= r < specification.rules@.len() && 0 <= k < under(specification.rules@[r]).len()
                ==> #[trigger] under(specification.rules@[r])[k] < condition_count(*specification),
    ensures
        ({
            let rules = specification.rules@;
            let count = condition_count(*specification);
            if !read_under(rules, 0) {
                result matches Err(errors) && errors@ == seq![
                    GenerateError { rule: None, kind: GenerateErrorKind::NeverRead },
                ]
            } else {
                &&& result is Ok <==> faults(rules, count, rules.len()).len() == 0
                &&& result matches Err(errors) ==> errors@ == faults(rules, count, rules.len())
            }
        }),
{
    let ghost rules = specification.rules@;
    let count: usize = match specification.conditions {
        Some(names) => if names > 1 {
            names
        } else {
            1
        },
        None => 1,
    };
    let mut read: Vec<bool> = Vec::new();
    while read.len() < count
        invariant
            read@.len() <= count,
            forall|c: int| 0 <= c < read@.len() ==> !(#[trigger] read@[c]),
        decreases count - read@.len(),
    {
        read.push(false);
    }
    let mut r: usize = 0;
    while r < specification.rules.len()
        invariant
            rules == specification.rules@,
            count == condition_count(*specification),
            forall|i: int, k: int|
                0 <= i < rules.len() && 0 <= k < under(rules[i]).len() ==> #[trigger] under(rules[i])[k]
                    < count,
            r <= rules.len(),
            read@.len() == count,
            forall|c: int|
                0 <= c < count ==> (#[trigger] read@[c] <==> exists|i: int, k: int|
                    0 <= i < r && 0 <= k < under(rules[i]).len() && #[trigger] under(rules[i])[k]
                        == c),
        decreases rules.len() - r,
    {
        let rule = &specification.rules[r];
        if rule.conditions.len() == 0 {
            read.set(0, true);
            proof {
                assert(under(rules[r as int])[0] == 0);
            }
        } else {
            let mut k: usize = 0;
            let ghost before = read@;
            while k < rule.conditions.len()
                invariant
                    rules == specification.rules@,
                    r < rules.len(),
                    *rule == rules[r as int],
                    rule.conditions@.len() > 0,
                    before.len() == count,
                    forall|i: int, j: int|
                        0 <= i < rules.len() && 0 <= j < under(rules[i]).len() ==> #[trigger] under(
                            rules[i],
                        )[j] < count,
                    k <= rule.conditions@.len(),
                    read@.len() == count,
                    forall|c: int|
                        0 <= c < count ==> (#[trigger] read@[c] <==> (before[c] || exists|j: int|
                            0 <= j < k && #[trigger] rule.conditions@[j] == c)),
                decreases rule.conditions@.len() - k,
            {
                proof {
                    assert(under(rules[r as int])[k as int] == rule.conditions@[k as int]);
                    assert(under(rules[r as int])[k as int] < count);
                }
                read.set(rule.conditions[k], true);
                k = k + 1;
            }
            proof {
                assert forall|c: int| 0 <= c < count implies (#[trigger] read@[c] <==> exists|
                    i: int,
                    k: int,
                |
                    0 <= i < r + 1 && 0 <= k < under(rules[i]).len() && #[trigger] under(rules[i])[k]
                        == c) by {
                    if read@[c] && !before[c] {
                        let j = choose|j: int| 0 <= j < rule.conditions@.len() && #[trigger] rule.conditions@[j] == c;
                        assert(under(rules[r as int])[j] == c);
                    }
                    if exists|i: int, k: int|
                        0 <= i < r + 1 && 0 <= k < under(rules[i]).len() && #[trigger] under(
                            rules[i],
                        )[k] == c {
                        let (i, k) = choose|i: int, k: int|
                            0 <= i < r + 1 && 0 <= k < under(rules[i]).len() && #[trigger] under(
                                rules[i],
                            )[k] == c;
                        if i == r {
                            assert(rule.conditions@[k] == c);
                        }
                    }
                }
            }
        }
        r = r + 1;
    }
    if !read[0] {
        proof {
            if read_under(rules, 0) {
                let (i, k) = choose|i: int, k: int|
                    0 <= i < rules.len() && 0 <= k < under(rules[i]).len() && #[trigger] under(rules[i])[k]
                        == 0;
                assert(read@[0]);
            }
        }
        let mut errors: Vec<GenerateError> = Vec::new();
        errors.push(GenerateErrorKind::NeverRead.in_lexer());
        return Err(errors);
    }
    let mut entered: Vec<bool> = Vec::new();
    while entered.len() < count
        invariant
            entered@.len() <= count,
            forall|c: int| 0 <= c < entered@.len() ==> !(#[trigger] entered@[c]),
        decreases count - entered@.len(),
    {
        entered.push(false);
    }
    entered.set(0, true);
    proof {
        assert forall|c: int| 0 <= c < count && #[trigger] entered@[c] implies forall|
            conditions: Set<int>,
        | #[trigger] closed(rules, count as nat, conditions) ==> conditions.contains(c) by {
            assert(c == 0);
        }
    }
    let mut moved = true;
    while moved
        invariant
            rules == specification.rules@,
            count == condition_count(*specification),
            forall|i: int, k: int|
                0 <= i < rules.len() && 0 <= k < under(rules[i]).len() ==> #[trigger] under(rules[i])[k]
                    < count,
            entered@.len() == count,
            entered@[0],
            forall|c: int|
                0 <= c < count && #[trigger] entered@[c] ==> forall|conditions: Set<int>|
                    #[trigger] closed(rules, count as nat, conditions) ==> conditions.contains(c),
            !moved ==> closed(rules, count as nat, flagged(entered@)),
        decreases unset(entered@) + if moved {
            1nat
        } else {
            0nat
        },
    {
        moved = false;
        let ghost start = entered@;
        let mut r: usize = 0;
        while r < specification.rules.len()
            invariant
                rules == specification.rules@,
                count == condition_count(*specification),
                forall|i: int, k: int|
                    0 <= i < rules.len() && 0 <= k < under(rules[i]).len() ==> #[trigger] under(
                        rules[i],
                    )[k] < count,
                r <= rules.len(),
                entered@.len() == count,
                start.len() == count,
                entered@[0],
                forall|c: int|
                    0 <= c < count && #[trigger] entered@[c] ==> forall|conditions: Set<int>|
                        #[trigger] closed(rules, count as nat, conditions) ==> conditions.contains(c),
                !moved ==> entered@ == start,
                moved ==> unset(entered@) < unset(start),
                !moved ==> forall|i: int|
                    0 <= i < r && #[trigger] reaches(rules[i], flagged(entered@)) && rules[i].go is Some
                        && rules[i].go->Some_0 < count ==> entered@[rules[i].go->Some_0 as int],
            decreases rules.len() - r,
        {
            let rule = &specification.rules[r];
            match rule.go {
                Some(go) => {
                    let target = go as usize;
                    if target < count && !entered[target] {
                        proof {
                            assert forall|k: int| 0 <= k < under(*rule).len() implies (#[trigger] under(
                                *rule,
                            )[k]) < entered@.len() by {
                                assert(under(rules[r as int])[k] < count);
                            }
                        }
                        if reads_under(rule, entered.as_slice()) {
                            let ghost before = entered@;
                            proof {
                                lemma_unset_update(before, target as int);
                                assert forall|conditions: Set<int>| #[trigger] closed(
                                    rules,
                                    count as nat,
                                    conditions,
                                ) implies conditions.contains(target as int) by {
                                    let k = choose|k: int|
                                        0 <= k < under(*rule).len() && #[trigger] flagged(before).contains(
                                            under(*rule)[k] as int,
                                        );
                                    let c = under(*rule)[k] as int;
                                    assert(before[c]);
                                    assert(conditions.contains(c));
                                    assert(reaches(rules[r as int], conditions));
                                }
                            }
                            entered.set(target, true);
                            moved = true;
                            proof {
                                assert forall|c: int|
                                    0 <= c < count && #[trigger] entered@[c] implies forall|
                                    conditions: Set<int>,
                                | #[trigger] closed(rules, count as nat, conditions)
                                    ==> conditions.contains(c) by {
                                    if c != target {
                                        assert(before[c]);
                                    }
                                }
                            }
                        }
                    }
                },
                None => {},
            }
            r = r + 1;
        }
    }
    proof {
        let found = flagged(entered@);
        let wanted = entered_conditions(rules, count as nat);
        assert forall|c: int| found.contains(c) implies wanted.contains(c) by {
            assert(entered@[c]);
        }
        assert forall|c: int| wanted.contains(c) implies found.contains(c) by {
            assert(closed(rules, count as nat, found));
        }
        assert(found =~= wanted);
    }
    let mut errors: Vec<GenerateError> = Vec::new();
    let mut i: usize = 0;
    while i < specification.rules.len()
        invariant
            rules == specification.rules@,
            count == condition_count(*specification),
            forall|j: int, k: int|
                0 <= j < rules.len() && 0 <= k < under(rules[j]).len() ==> #[trigger] under(rules[j])[k]
                    < count,
            entered@.len() == count,
            read@.len() == count,
            flagged(entered@) == entered_conditions(rules, count as nat),
            forall|c: int|
                0 <= c < count ==> (#[trigger] read@[c] <==> exists|j: int, k: int|
                    0 <= j < rules.len() && 0 <= k < under(rules[j]).len() && #[trigger] under(
                        rules[j],
                    )[k] == c),
            i <= rules.len(),
            errors@ == faults(rules, count as nat, i as nat),
        decreases rules.len() - i,
    {
        let rule = &specification.rules[i];
        proof {
            assert forall|k: int| 0 <= k < under(*rule).len() implies (#[trigger] under(*rule)[k])
                < entered@.len() by {
                assert(under(rules[i as int])[k] < count);
            }
        }
        let ghost prior = errors@;
        if !reads_under(rule, entered.as_slice()) {
            errors.push(GenerateErrorKind::NeverEntered.in_rule(i));
        } else {
            match rule.go {
                Some(go) => {
                    let target = go as usize;
                    let known = target < count && read[target];
                    proof {
                        if target < count {
                            assert(read@[target as int] == read_under(rules, target as int));
                        }
                    }
                    if !known {
                        errors.push(GenerateErrorKind::NeverRead.in_rule(i));
                    }
                },
                None => {},
            }
        }
        proof {
            assert(faults(rules, count as nat, (i + 1) as nat) == prior + match fault_of(
                rules,
                count as nat,
                i as int,
            ) {
                Some(error) => seq![error],
                None => Seq::empty(),
            });
            assert(errors@ =~= faults(rules, count as nat, (i + 1) as nat));
        }
        i = i + 1;
    }
    if errors.len() == 0 {
        Ok(())
    } else {
        Err(errors)
    }
}

/// Whether a state of `accept` accepts `rule`: holds `rule` plus one.
pub open spec fn wins(accept: Seq<u16>, rule: int) -> bool {
    exists|state: int| 0 <= state < accept.len() && accept[state] == rule + 1
}

/// The errors of the first `length` rules that no state of `accept` accepts,
/// in the sequence of the rules.
pub open spec fn losers(accept: Seq<u16>, length: nat) -> Seq<GenerateError>
    decreases length,
{
    if length == 0 {
        Seq::empty()
    } else {
        losers(accept, (length - 1) as nat) + if wins(accept, length - 1) {
            Seq::empty()
        } else {
            seq![GenerateError { rule: Some((length - 1) as usize), kind: GenerateErrorKind::NeverWins }]
        }
    }
}

/// Reports each rule of `count` rules that can never win a match.
///
/// A state of the tables holds the rule of the highest precedence of the
/// rules that accept there. Thus a rule that no state holds loses each match
/// to an earlier rule, and no input gives it. Such a rule is a mistake in the
/// sequence of the rules, and not a rule of the language.
///
/// The function returns one error for each rule that no accept of `tables`
/// names, in the sequence of the rules.
pub fn reachable(tables: &Tables, count: usize) -> (result: Result<(), Vec<GenerateError>>)
    requires
        count <= MAX_RULES,
    ensures
        result is Ok <==> losers(tables.spec_accept(), count as nat).len() == 0,
        result matches Err(errors) ==> errors@ == losers(tables.spec_accept(), count as nat),
{
    let accept = tables.accept();
    let mut winners: Vec<bool> = Vec::new();
    while winners.len() < count
        invariant
            winners@.len() <= count,
            forall|r: int| 0 <= r < winners@.len() ==> !(#[trigger] winners@[r]),
        decreases count - winners@.len(),
    {
        winners.push(false);
    }
    let mut state: usize = 0;
    while state < accept.len()
        invariant
            accept@ == tables.spec_accept(),
            winners@.len() == count,
            state <= accept@.len(),
            forall|r: int|
                0 <= r < count ==> (#[trigger] winners@[r] <==> exists|s: int|
                    0 <= s < state && accept@[s] == r + 1),
        decreases accept@.len() - state,
    {
        let value = accept[state];
        if value > 0 && ((value - 1) as usize) < count {
            winners.set((value - 1) as usize, true);
        }
        proof {
            assert forall|r: int| 0 <= r < count implies (#[trigger] winners@[r] <==> exists|s: int|
                0 <= s < state + 1 && accept@[s] == r + 1) by {
                if accept@[state as int] == r + 1 {
                    assert(0 <= state < state + 1 && accept@[state as int] == r + 1);
                }
            }
        }
        state = state + 1;
    }
    let mut errors: Vec<GenerateError> = Vec::new();
    let mut rule: usize = 0;
    while rule < count
        invariant
            accept@ == tables.spec_accept(),
            winners@.len() == count,
            forall|r: int|
                0 <= r < count ==> (#[trigger] winners@[r] <==> wins(accept@, r)),
            rule <= count,
            errors@ == losers(accept@, rule as nat),
        decreases count - rule,
    {
        if !winners[rule] {
            errors.push(GenerateErrorKind::NeverWins.in_rule(rule));
        }
        rule = rule + 1;
        proof {
            assert(errors@ =~= losers(accept@, rule as nat));
        }
    }
    if errors.len() == 0 {
        Ok(())
    } else {
        Err(errors)
    }
}

} // verus!
