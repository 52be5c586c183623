//! The start conditions of a lexer declaration and the rules that read under
//! them.
//!
//! A rule names its modes and the mode that it changes to. This module
//! resolves each name to the index of its start condition, and reports a name
//! that the lexer does not declare.
use vstd::prelude::*;

use crate::automata::BuildError;
use crate::regex::ParseError;
use crate::regex::expression::{Expression, is_nullable_spec};

verus! {

/// A state-stack operation performed after a rule is accepted.
#[derive(Debug, Clone)]
pub enum Transition {
    /// Leave the stack unchanged.
    Stay,
    /// Replace the current mode.
    Begin(String),
    /// Push a mode onto the stack.
    Push(String),
    /// Pop the current mode.
    Pop,
}

/// What the resolution of the modes reads of one rule supplied to the code
/// generator: its pattern, its modes, and its transition.
#[derive(Debug, Clone)]
pub struct RuleSpec {
    /// The pattern of the rule.
    pub pattern: String,
    /// The names of the modes under which the rule reads.
    pub modes: Vec<String>,
    /// The operation on the stack of modes after the rule matches.
    pub transition: Transition,
}

impl RuleSpec {
    /// Creates a rule that consumes input without producing a token. It reads
    /// under the mode `INITIAL` and leaves the stack of modes as it is.
    pub fn skip(pattern: &str) -> (rule: Self)
        ensures
            rule.pattern@ == pattern@,
            rule.modes@.len() == 1,
            rule.modes@[0]@ == "INITIAL"@,
            rule.transition is Stay,
    {
        let mut modes: Vec<String> = Vec::new();
        modes.push(String::from_str("INITIAL"));
        RuleSpec { pattern: String::from_str(pattern), modes, transition: Transition::Stay }
    }

    /// Restricts this rule to the named start conditions.
    pub fn in_modes(self, modes: Vec<String>) -> (rule: Self)
        ensures
            rule.pattern == self.pattern,
            rule.modes == modes,
            rule.transition == self.transition,
    {
        RuleSpec { pattern: self.pattern, modes, transition: self.transition }
    }

    /// Sets the operation on the stack of modes after this rule matches.
    pub fn transition(self, transition: Transition) -> (rule: Self)
        ensures
            rule.pattern == self.pattern,
            rule.modes == self.modes,
            rule.transition == transition,
    {
        RuleSpec { pattern: self.pattern, modes: self.modes, transition }
    }
}

/// Reports a lexer compilation failure.
#[derive(Debug)]
pub struct CompileError {
    message: String,
}

impl CompileError {
    /// The text of the failure.
    pub closed spec fn spec_message(&self) -> Seq<char> {
        self.message@
    }

    /// Returns the text of the failure.
    pub fn message(&self) -> (message: &str)
        ensures
            message@ == self.spec_message(),
    {
        self.message.as_str()
    }

    /// Returns the failure of a pattern that the parser cannot read.
    pub fn parse(error: &ParseError) -> (compile: Self)
        ensures
            compile.spec_message() == error.spec_message(),
    {
        CompileError { message: error.message() }
    }

    /// Returns the failure of an automaton above its capacity.
    pub fn build(error: &BuildError) -> (compile: Self)
        ensures
            compile.spec_message() == error.spec_message(),
    {
        CompileError { message: error.message() }
    }
}

/// Identifies a start condition of one lexer.
#[derive(Debug, Clone, Copy, PartialEq, Eq, Structural, PartialOrd, Ord, Hash)]
pub struct StartConditionId(pub usize);

impl StartConditionId {
    /// Creates an identifier for the start condition at `index`.
    pub fn new(index: usize) -> (id: Self)
        ensures
            id.0 == index,
    {
        StartConditionId(index)
    }

    /// Returns the declaration index of the start condition.
    pub fn index(self) -> (index: usize)
        ensures
            index == self.0,
    {
        self.0
    }
}

/// A named lexer mode that selects one start state.
#[derive(Debug, Clone)]
pub struct StartCondition {
    name: String,
}

impl StartCondition {
    /// The source-level name.
    pub closed spec fn spec_name(&self) -> Seq<char> {
        self.name@
    }

    /// Creates a start condition with its source-level name.
    pub fn new(name: String) -> (condition: Self)
        ensures
            condition.spec_name() == name@,
    {
        StartCondition { name }
    }

    /// Returns the source-level name.
    pub fn name(&self) -> (name: &str)
        ensures
            name@ == self.spec_name(),
    {
        self.name.as_str()
    }
}

/// A transition whose mode is resolved to its start condition.
#[derive(Debug, Clone, Copy, PartialEq, Eq, Structural)]
pub enum ResolvedTransition {
    /// Leave the stack unchanged.
    Stay,
    /// Replace the current mode.
    Begin(StartConditionId),
    /// Push a mode onto the stack.
    Push(StartConditionId),
    /// Pop the current mode.
    Pop,
}

/// One rule whose modes are resolved to their start conditions.
#[derive(Debug, Clone)]
pub struct ResolvedRule {
    /// The pattern of the rule.
    pub pattern: String,
    /// The start conditions under which the rule reads, in the sequence of
    /// its modes.
    pub start_conditions: Vec<StartConditionId>,
    /// The operation on the stack of modes after the rule matches.
    pub transition: ResolvedTransition,
}

/// The start conditions of a lexer, and its rules with their modes resolved.
#[derive(Debug, Clone)]
pub struct Resolution {
    /// The start conditions: `INITIAL`, then each mode in its sequence.
    pub conditions: Vec<StartCondition>,
    /// The rules, in the sequence of their declaration.
    pub rules: Vec<ResolvedRule>,
}

/// The name that `name` stands for: `Initial` names `INITIAL`.
pub open spec fn canonical(name: Seq<char>) -> Seq<char> {
    if name == "Initial"@ {
        "INITIAL"@
    } else {
        name
    }
}

/// Whether the mode at `index` is reserved, or repeats a mode before it.
pub open spec fn bad_mode(modes: Seq<Seq<char>>, index: int) -> bool {
    ||| modes[index] == "INITIAL"@
    ||| modes[index] == "Initial"@
    ||| exists|earlier: int| 0 <= earlier < index && modes[earlier] == modes[index]
}

/// The index of the first of the first `length` modes that is reserved or
/// repeats a mode before it.
pub open spec fn first_bad_mode(modes: Seq<Seq<char>>, length: nat) -> Option<int>
    decreases length,
{
    if length == 0 {
        None
    } else {
        match first_bad_mode(modes, (length - 1) as nat) {
            Some(index) => Some(index),
            None => if bad_mode(modes, length - 1) {
                Some(length - 1)
            } else {
                None
            },
        }
    }
}

/// The index of the first of the first `length` names that is `name`.
pub open spec fn position(names: Seq<Seq<char>>, name: Seq<char>, length: nat) -> Option<int>
    decreases length,
{
    if length == 0 {
        None
    } else {
        match position(names, name, (length - 1) as nat) {
            Some(index) => Some(index),
            None => if names[length - 1] == name {
                Some(length - 1)
            } else {
                None
            },
        }
    }
}

/// The start condition that `name` names among `names`.
pub open spec fn resolved(names: Seq<Seq<char>>, name: Seq<char>) -> Option<StartConditionId> {
    match position(names, canonical(name), names.len()) {
        Some(index) => Some(StartConditionId(index as usize)),
        None => None,
    }
}

/// The message of a name that no start condition has.
pub open spec fn unknown_message(name: Seq<char>) -> Seq<char> {
    "unknown lexer mode `"@ + canonical(name) + "`"@
}

/// The start conditions of the first `length` modes, or the message of the
/// first mode that no start condition has.
pub open spec fn resolved_modes(names: Seq<Seq<char>>, modes: Seq<Seq<char>>, length: nat) -> Result<
    Seq<StartConditionId>,
    Seq<char>,
>
    decreases length,
{
    if length == 0 {
        Ok(Seq::empty())
    } else {
        match resolved_modes(names, modes, (length - 1) as nat) {
            Err(message) => Err(message),
            Ok(ids) => match resolved(names, modes[length - 1]) {
                Some(id) => Ok(ids.push(id)),
                None => Err(unknown_message(modes[length - 1])),
            },
        }
    }
}

/// The views of the names of `strings`.
pub open spec fn views(strings: Seq<String>) -> Seq<Seq<char>> {
    strings.map_values(|text: String| text@)
}

/// The resolution of one rule among the start conditions of `names`, or the
/// message of its first failure.
pub open spec fn resolved_rule(names: Seq<Seq<char>>, rule: RuleSpec) -> Result<
    (Seq<StartConditionId>, ResolvedTransition),
    Seq<char>,
> {
    let modes = views(rule.modes@);
    match resolved_modes(names, modes, modes.len()) {
        Err(message) => Err(message),
        Ok(ids) => if ids.len() == 0 {
            Err("a lexer rule must be enabled in at least one mode"@)
        } else {
            match rule.transition {
                Transition::Stay => Ok((ids, ResolvedTransition::Stay)),
                Transition::Begin(name) => match resolved(names, name@) {
                    Some(id) => Ok((ids, ResolvedTransition::Begin(id))),
                    None => Err(unknown_message(name@)),
                },
                Transition::Push(name) => match resolved(names, name@) {
                    Some(id) => Ok((ids, ResolvedTransition::Push(id))),
                    None => Err(unknown_message(name@)),
                },
                Transition::Pop => if exists|k: int| 0 <= k < ids.len() && (#[trigger] ids[k]).0 == 0 {
                    Err("a `pop` rule cannot be enabled in INITIAL"@)
                } else {
                    Ok((ids, ResolvedTransition::Pop))
                },
            }
        },
    }
}

/// The index of the first of the first `length` rules that fails to resolve.
pub open spec fn first_failure(names: Seq<Seq<char>>, rules: Seq<RuleSpec>, length: nat) -> Option<int>
    decreases length,
{
    if length == 0 {
        None
    } else {
        match first_failure(names, rules, (length - 1) as nat) {
            Some(index) => Some(index),
            None => if resolved_rule(names, rules[length - 1]) is Err {
                Some(length - 1)
            } else {
                None
            },
        }
    }
}

/// Whether `rule` is the resolution of `specification` among `names`.
pub open spec fn resolves(names: Seq<Seq<char>>, specification: RuleSpec, rule: ResolvedRule) -> bool {
    &&& rule.pattern@ == specification.pattern@
    &&& resolved_rule(names, specification) == Ok::<
        (Seq<StartConditionId>, ResolvedTransition),
        Seq<char>,
    >((rule.start_conditions@, rule.transition))
}

/// The names of `conditions`.
pub open spec fn names_of(conditions: Seq<StartCondition>) -> Seq<Seq<char>> {
    conditions.map_values(|condition: StartCondition| condition.spec_name())
}

/// Returns whether `first` and `second` hold the same text.
fn same_text(first: &str, second: &str) -> (same: bool)
    ensures
        same == (first@ == second@),
{
    String::from_str(first) == String::from_str(second)
}

/// Returns the start condition of `conditions` that `name` names.
fn resolve_name(conditions: &[StartCondition], name: &str) -> (result: Result<
    StartConditionId,
    CompileError,
>)
    ensures
        match resolved(names_of(conditions@), name@) {
            Some(id) => result == Ok::<StartConditionId, CompileError>(id),
            None => result matches Err(error) && error.spec_message() == unknown_message(name@),
        },
{
    let ghost names = names_of(conditions@);
    let wanted = if same_text(name, "Initial") {
        String::from_str("INITIAL")
    } else {
        String::from_str(name)
    };
    proof {
        reveal_strlit("Initial");
        reveal_strlit("INITIAL");
    }
    assert(wanted@ == canonical(name@));
    let mut index: usize = 0;
    while index < conditions.len()
        invariant
            names == names_of(conditions@),
            wanted@ == canonical(name@),
            index <= conditions@.len(),
            position(names, wanted@, index as nat) is None,
        decreases conditions@.len() - index,
    {
        let found = conditions[index].name == wanted;
        if found {
            proof {
                assert(names[index as int] == conditions@[index as int].spec_name());
                assert(position(names, wanted@, (index + 1) as nat) == Some(index as int));
                lemma_position_stays(names, wanted@, (index + 1) as nat, names.len());
            }
            return Ok(StartConditionId::new(index));
        }
        proof {
            assert(names[index as int] == conditions@[index as int].spec_name());
        }
        index = index + 1;
    }
    let mut message = String::from_str("unknown lexer mode `");
    message.append(wanted.as_str());
    message.append("`");
    Err(CompileError { message })
}

/// A name that a prefix of `names` holds keeps its position in a longer
/// prefix.
proof fn lemma_position_stays(names: Seq<Seq<char>>, name: Seq<char>, short: nat, long: nat)
    requires
        short <= long,
        position(names, name, short) is Some,
    ensures
        position(names, name, long) == position(names, name, short),
    decreases long - short,
{
    if short < long {
        lemma_position_stays(names, name, short, (long - 1) as nat);
    }
}

/// A name at the front of `names` is found there.
proof fn lemma_position_front(names: Seq<Seq<char>>, name: Seq<char>, length: nat)
    requires
        1 <= length <= names.len(),
        names[0] == name,
    ensures
        position(names, name, length) == Some(0int),
    decreases length,
{
    if length > 1 {
        lemma_position_front(names, name, (length - 1) as nat);
    } else {
        assert(position(names, name, 0) is None);
        assert(names[length - 1] == name);
    }
}

/// Where the first `length` modes resolve, the start condition at each index
/// is the one that the mode at that index names.
proof fn lemma_resolved_each(names: Seq<Seq<char>>, modes: Seq<Seq<char>>, length: nat)
    requires
        length <= modes.len(),
    ensures
        resolved_modes(names, modes, length) matches Ok(ids) ==> ids.len() == length && forall|k: int|
            0 <= k < length ==> resolved(names, modes[k]) == Some(#[trigger] ids[k]),
        resolved_modes(names, modes, length) is Ok ==> forall|k: int|
            0 <= k < length ==> (#[trigger] resolved(names, modes[k])) is Some,
    decreases length,
{
    if length > 0 {
        lemma_resolved_each(names, modes, (length - 1) as nat);
        if let Ok(ids) = resolved_modes(names, modes, length) {
            let before = resolved_modes(names, modes, (length - 1) as nat)->Ok_0;
            assert(ids == before.push(resolved(names, modes[length - 1])->Some_0));
            assert forall|k: int| 0 <= k < length implies resolved(names, modes[k]) == Some(#[trigger] ids[k]) by {
                if k < length - 1 {
                    assert(ids[k] == before[k]);
                }
            }
        }
    }
}

/// A rule that pops the stack of modes never reads under `INITIAL`: where
/// the start conditions begin with `INITIAL`, a pop rule that names
/// `INITIAL` (or `Initial`) among its modes, at any position, fails to
/// resolve, and a pop rule that resolves holds no start condition 0.
pub proof fn lemma_pop_leaves_initial(names: Seq<Seq<char>>, rule: RuleSpec)
    ensures
        resolved_rule(names, rule) matches Ok((ids, transition)) ==> (transition is Pop ==> forall|k: int|
            0 <= k < ids.len() ==> (#[trigger] ids[k]).0 != 0),
        names.len() > 0 && names[0] == "INITIAL"@ && rule.transition is Pop && (exists|k: int|
            0 <= k < rule.modes@.len() && canonical(#[trigger] rule.modes@[k]@) == "INITIAL"@)
            ==> resolved_rule(names, rule) is Err,
{
    let modes = views(rule.modes@);
    lemma_resolved_each(names, modes, modes.len());
    if names.len() > 0 && names[0] == "INITIAL"@ && rule.transition is Pop && (exists|k: int|
        0 <= k < rule.modes@.len() && canonical(#[trigger] rule.modes@[k]@) == "INITIAL"@) {
        let k = choose|k: int| 0 <= k < rule.modes@.len() && canonical(#[trigger] rule.modes@[k]@) == "INITIAL"@;
        assert(modes[k] == rule.modes@[k]@);
        lemma_position_front(names, "INITIAL"@, names.len());
        assert(resolved(names, modes[k]) == Some(StartConditionId(0)));
        if let Ok(ids) = resolved_modes(names, modes, modes.len()) {
            assert(ids[k].0 == 0);
        }
    }
}

/// Returns the resolution of `specification` among `conditions`, or its first
/// failure.
fn resolve_rule(conditions: &[StartCondition], specification: &RuleSpec) -> (result: Result<
    ResolvedRule,
    CompileError,
>)
    ensures
        match resolved_rule(names_of(conditions@), *specification) {
            Ok(_) => result matches Ok(rule) && resolves(names_of(conditions@), *specification, rule),
            Err(message) => result matches Err(error) && error.spec_message() == message,
        },
        result matches Ok(rule) ==> (rule.transition is Pop ==> forall|k: int|
            0 <= k < rule.start_conditions@.len() ==> (#[trigger] rule.start_conditions@[k]).0 != 0),
{
    proof {
        lemma_pop_leaves_initial(names_of(conditions@), *specification);
    }
    let ghost names = names_of(conditions@);
    let ghost modes = views(specification.modes@);
    let mut enabled: Vec<StartConditionId> = Vec::new();
    let mut k: usize = 0;
    while k < specification.modes.len()
        invariant
            names == names_of(conditions@),
            modes == views(specification.modes@),
            k <= modes.len(),
            resolved_modes(names, modes, k as nat) == Ok::<Seq<StartConditionId>, Seq<char>>(enabled@),
        decreases modes.len() - k,
    {
        match resolve_name(conditions, specification.modes[k].as_str()) {
            Ok(id) => {
                enabled.push(id);
            },
            Err(error) => {
                proof {
                    lemma_modes_fail(names, modes, (k + 1) as nat, modes.len());
                }
                return Err(error);
            },
        }
        k = k + 1;
    }
    if enabled.len() == 0 {
        return Err(CompileError { message: String::from_str("a lexer rule must be enabled in at least one mode") });
    }
    let transition = match &specification.transition {
        Transition::Stay => ResolvedTransition::Stay,
        Transition::Begin(name) => match resolve_name(conditions, name.as_str()) {
            Ok(id) => ResolvedTransition::Begin(id),
            Err(error) => {
                return Err(error);
            },
        },
        Transition::Push(name) => match resolve_name(conditions, name.as_str()) {
            Ok(id) => ResolvedTransition::Push(id),
            Err(error) => {
                return Err(error);
            },
        },
        Transition::Pop => {
            let mut initial = false;
            let mut m: usize = 0;
            while m < enabled.len()
                invariant
                    m <= enabled@.len(),
                    initial == exists|j: int| 0 <= j < m && (#[trigger] enabled@[j]).0 == 0,
                decreases enabled@.len() - m,
            {
                if enabled[m].index() == 0 {
                    initial = true;
                }
                m = m + 1;
            }
            if initial {
                return Err(CompileError { message: String::from_str("a `pop` rule cannot be enabled in INITIAL") });
            }
            ResolvedTransition::Pop
        },
    };
    Ok(ResolvedRule { pattern: specification.pattern.clone(), start_conditions: enabled, transition })
}

/// A mode that fails to resolve fails each longer prefix of the modes.
proof fn lemma_modes_fail(names: Seq<Seq<char>>, modes: Seq<Seq<char>>, short: nat, long: nat)
    requires
        short <= long,
        resolved_modes(names, modes, short) is Err,
    ensures
        resolved_modes(names, modes, long) == resolved_modes(names, modes, short),
    decreases long - short,
{
    if short < long {
        lemma_modes_fail(names, modes, short, (long - 1) as nat);
    }
}

/// The message of a mode that is reserved or declared two times.
pub open spec fn reserved_message(mode: Seq<char>) -> Seq<char> {
    "duplicate or reserved lexer mode `"@ + mode + "`"@
}

/// Resolves the modes of a lexer and the modes of each of its rules: the
/// checks of the names of a build of a lexer with named start conditions.
/// A build reads the pattern of each rule after it resolves the modes of that
/// rule, and before the next rule; [`check_rules`] gives that sequence.
///
/// The start conditions are `INITIAL`, then each mode. A mode that is
/// `INITIAL`, `Initial`, or a mode before it fails first. Then each rule in
/// its sequence resolves its modes, needs at least one, and resolves its
/// transition; `Initial` names `INITIAL`, and a rule that pops the stack does
/// not read under `INITIAL`. The first failure gives the error.
pub fn resolve_modes(modes: Vec<String>, specifications: Vec<RuleSpec>) -> (result: Result<
    Resolution,
    CompileError,
>)
    ensures
        match first_bad_mode(views(modes@), modes@.len()) {
            Some(index) => result matches Err(error) && error.spec_message() == reserved_message(
                views(modes@)[index],
            ),
            None => {
                let names = seq!["INITIAL"@] + views(modes@);
                match first_failure(names, specifications@, specifications@.len()) {
                    Some(index) => result matches Err(error) && resolved_rule(
                        names,
                        specifications@[index],
                    ) == Err::<(Seq<StartConditionId>, ResolvedTransition), Seq<char>>(
                        error.spec_message(),
                    ),
                    None => result matches Ok(resolution) && names_of(resolution.conditions@) == names
                        && resolution.rules@.len() == specifications@.len() && forall|i: int|
                        0 <= i < specifications@.len() ==> resolves(
                            names,
                            specifications@[i],
                            #[trigger] resolution.rules@[i],
                        ),
                }
            },
        },
        result matches Ok(resolution) ==> forall|i: int, k: int|
            0 <= i < resolution.rules@.len() && (#[trigger] resolution.rules@[i]).transition is Pop && 0 <= k
                < resolution.rules@[i].start_conditions@.len() ==> (
            #[trigger] resolution.rules@[i].start_conditions@[k]).0 != 0,
{
    let ghost names_in = views(modes@);
    let mut conditions: Vec<StartCondition> = Vec::new();
    conditions.push(StartCondition::new(String::from_str("INITIAL")));
    proof {
        assert(names_of(conditions@) =~= seq!["INITIAL"@] + names_in.take(0));
    }
    let mut i: usize = 0;
    while i < modes.len()
        invariant
            names_in == views(modes@),
            i <= modes@.len(),
            names_of(conditions@) == seq!["INITIAL"@] + names_in.take(i as int),
            conditions@.len() == i + 1,
            first_bad_mode(names_in, i as nat) is None,
        decreases modes@.len() - i,
    {
        let mode = &modes[i];
        proof {
            reveal_strlit("INITIAL");
            reveal_strlit("Initial");
        }
        let reserved = same_text(mode.as_str(), "INITIAL") || same_text(mode.as_str(), "Initial");
        let mut repeated = false;
        let mut j: usize = 0;
        while j < conditions.len()
            invariant
                j <= conditions@.len(),
                repeated == exists|k: int| 0 <= k < j && (#[trigger] conditions@[k]).spec_name() == mode@,
            decreases conditions@.len() - j,
        {
            if conditions[j].name == *mode {
                repeated = true;
            }
            j = j + 1;
        }
        proof {
            assert(names_in[i as int] == mode@);
            let names = names_of(conditions@);
            if repeated {
                let k = choose|k: int| 0 <= k < j && (#[trigger] conditions@[k]).spec_name() == mode@;
                assert(names[k] == conditions@[k].spec_name());
                assert(names[k] == mode@);
                if k > 0 {
                    assert(names[k] == names_in.take(i as int)[k - 1]);
                    assert(names_in[k - 1] == mode@);
                    assert(bad_mode(names_in, i as int));
                } else {
                    assert(names[0] == "INITIAL"@);
                    assert(bad_mode(names_in, i as int));
                }
            }
            if bad_mode(names_in, i as int) && !reserved {
                let earlier = choose|earlier: int| 0 <= earlier < i && names_in[earlier] == names_in[i as int];
                assert(names[earlier + 1] == names_in.take(i as int)[earlier]);
                assert(names[earlier + 1] == conditions@[earlier + 1].spec_name());
                assert(conditions@[earlier + 1].spec_name() == mode@);
                assert(repeated);
            }
        }
        if reserved || repeated {
            let mut message = String::from_str("duplicate or reserved lexer mode `");
            message.append(mode.as_str());
            message.append("`");
            proof {
                assert(first_bad_mode(names_in, (i + 1) as nat) == Some(i as int));
                lemma_bad_mode_stays(names_in, (i + 1) as nat, names_in.len());
            }
            return Err(CompileError { message });
        }
        let ghost before = conditions@;
        conditions.push(StartCondition::new(mode.clone()));
        proof {
            assert(conditions@[i + 1].spec_name() == mode@);
            assert(names_in.take(i + 1) =~= names_in.take(i as int).push(names_in[i as int]));
            assert(names_of(conditions@) =~= names_of(before).push(mode@));
            assert(first_bad_mode(names_in, (i + 1) as nat) is None);
        }
        i = i + 1;
        proof {
            assert(names_of(conditions@) =~= seq!["INITIAL"@] + names_in.take(i as int));
        }
    }
    let ghost names = seq!["INITIAL"@] + names_in;
    proof {
        assert(names_in.take(modes@.len() as int) =~= names_in);
        assert(names_of(conditions@) == names);
    }
    let mut rules: Vec<ResolvedRule> = Vec::new();
    let mut r: usize = 0;
    while r < specifications.len()
        invariant
            names == names_of(conditions@),
            names == seq!["INITIAL"@] + names_in,
            names_in == views(modes@),
            first_bad_mode(names_in, names_in.len()) is None,
            r <= specifications@.len(),
            rules@.len() == r,
            first_failure(names, specifications@, r as nat) is None,
            forall|k: int| 0 <= k < r ==> resolves(names, specifications@[k], #[trigger] rules@[k]),
        decreases specifications@.len() - r,
    {
        match resolve_rule(conditions.as_slice(), &specifications[r]) {
            Ok(rule) => {
                rules.push(rule);
            },
            Err(error) => {
                proof {
                    assert(first_failure(names, specifications@, (r + 1) as nat) == Some(r as int));
                    lemma_failure_stays(names, specifications@, (r + 1) as nat, specifications@.len());
                }
                return Err(error);
            },
        }
        r = r + 1;
    }
    Ok(Resolution { conditions, rules })
}

/// A bad mode of a prefix stays the first bad mode of a longer prefix.
proof fn lemma_bad_mode_stays(modes: Seq<Seq<char>>, short: nat, long: nat)
    requires
        short <= long,
        first_bad_mode(modes, short) is Some,
    ensures
        first_bad_mode(modes, long) == first_bad_mode(modes, short),
    decreases long - short,
{
    if short < long {
        lemma_bad_mode_stays(modes, short, (long - 1) as nat);
    }
}

/// A failing rule of a prefix stays the first failure of a longer prefix.
proof fn lemma_failure_stays(names: Seq<Seq<char>>, rules: Seq<RuleSpec>, short: nat, long: nat)
    requires
        short <= long,
        first_failure(names, rules, short) is Some,
    ensures
        first_failure(names, rules, long) == first_failure(names, rules, short),
    decreases long - short,
{
    if short < long {
        lemma_failure_stays(names, rules, short, (long - 1) as nat);
    }
}

/// The first rule of the first `length` rules that fails: its modes or its
/// transition do not resolve among `names`, or its pattern gave a parse
/// error in `patterns`. A rule resolves its modes before its pattern is read.
pub open spec fn first_rule_failure(
    names: Seq<Seq<char>>,
    rules: Seq<RuleSpec>,
    patterns: Seq<Result<Expression, ParseError>>,
    length: nat,
) -> Option<int>
    decreases length,
{
    if length == 0 {
        None
    } else {
        match first_rule_failure(names, rules, patterns, (length - 1) as nat) {
            Some(index) => Some(index),
            None => if resolved_rule(names, rules[length - 1]) is Err || patterns[length - 1] is Err {
                Some(length - 1)
            } else {
                None
            },
        }
    }
}

/// Whether a pattern of `patterns` matches the empty string.
pub open spec fn some_nullable(patterns: Seq<Result<Expression, ParseError>>) -> bool {
    exists|i: int|
        0 <= i < patterns.len() && (#[trigger] patterns[i] matches Ok(expression) && is_nullable_spec(
            expression,
        ))
}

/// The message of a rule whose pattern matches the empty string.
pub open spec fn nullable_message() -> Seq<char> {
    "a lexer rule must consume at least one byte"@
}

/// Where no pattern before `length` failed, the first failure of the rules
/// is the first rule whose modes fail.
proof fn lemma_parsed_prefix(
    names: Seq<Seq<char>>,
    rules: Seq<RuleSpec>,
    patterns: Seq<Result<Expression, ParseError>>,
    length: nat,
)
    requires
        length <= patterns.len(),
        forall|i: int| 0 <= i < length ==> #[trigger] patterns[i] is Ok,
    ensures
        first_rule_failure(names, rules, patterns, length) == first_failure(names, rules, length),
    decreases length,
{
    if length > 0 {
        lemma_parsed_prefix(names, rules, patterns, (length - 1) as nat);
    }
}

/// A failing rule of a prefix stays the first failure of a longer prefix.
proof fn lemma_rule_failure_stays(
    names: Seq<Seq<char>>,
    rules: Seq<RuleSpec>,
    patterns: Seq<Result<Expression, ParseError>>,
    short: nat,
    long: nat,
)
    requires
        short <= long,
        first_rule_failure(names, rules, patterns, short) is Some,
    ensures
        first_rule_failure(names, rules, patterns, long) == first_rule_failure(names, rules, patterns, short),
    decreases long - short,
{
    if short < long {
        lemma_rule_failure_stays(names, rules, patterns, short, (long - 1) as nat);
    }
}

/// The first failure of the first `length` rules depends on those rules
/// alone.
proof fn lemma_failure_prefix(names: Seq<Seq<char>>, rules: Seq<RuleSpec>, other: Seq<RuleSpec>, length: nat)
    requires
        length <= rules.len(),
        length <= other.len(),
        forall|i: int| 0 <= i < length ==> rules[i] == other[i],
    ensures
        first_failure(names, rules, length) == first_failure(names, other, length),
    decreases length,
{
    if length > 0 {
        lemma_failure_prefix(names, rules, other, (length - 1) as nat);
    }
}

/// The first failure of the first `length` rules is one of them.
proof fn lemma_failure_below(names: Seq<Seq<char>>, rules: Seq<RuleSpec>, length: nat)
    ensures
        first_failure(names, rules, length) matches Some(index) ==> 0 <= index < length,
    decreases length,
{
    if length > 0 {
        lemma_failure_below(names, rules, (length - 1) as nat);
    }
}

/// Checks the rules of a lexer with named start conditions, with the parse
/// of the pattern of each rule in `patterns`, at the same index.
///
/// A mode that is `INITIAL`, `Initial`, or a mode before it fails first, as
/// [`resolve_modes`] gives it. Then the rules go in their sequence: a rule
/// resolves its modes and its transition, then its pattern is read, and the
/// first of these failures gives the error. Where each rule passes, a
/// pattern that matches the empty string fails with "a lexer rule must
/// consume at least one byte". Else the result is the resolution of the
/// modes.
pub fn check_rules(
    modes: Vec<String>,
    specifications: Vec<RuleSpec>,
    patterns: &[Result<Expression, ParseError>],
) -> (result: Result<Resolution, CompileError>)
    requires
        patterns@.len() == specifications@.len(),
    ensures
        match first_bad_mode(views(modes@), modes@.len()) {
            Some(index) => result matches Err(error) && error.spec_message() == reserved_message(
                views(modes@)[index],
            ),
            None => {
                let names = seq!["INITIAL"@] + views(modes@);
                match first_rule_failure(names, specifications@, patterns@, specifications@.len()) {
                    Some(index) => result matches Err(error) && error.spec_message() == match resolved_rule(
                        names,
                        specifications@[index],
                    ) {
                        Err(message) => message,
                        Ok(_) => patterns@[index]->Err_0.spec_message(),
                    },
                    None => if some_nullable(patterns@) {
                        result matches Err(error) && error.spec_message() == nullable_message()
                    } else {
                        result matches Ok(resolution) && names_of(resolution.conditions@) == names
                            && resolution.rules@.len() == specifications@.len() && forall|i: int|
                            0 <= i < specifications@.len() ==> resolves(
                                names,
                                specifications@[i],
                                #[trigger] resolution.rules@[i],
                            )
                    },
                }
            },
        },
        result matches Ok(resolution) ==> forall|i: int, k: int|
            0 <= i < resolution.rules@.len() && (#[trigger] resolution.rules@[i]).transition is Pop && 0 <= k
                < resolution.rules@[i].start_conditions@.len() ==> (
            #[trigger] resolution.rules@[i].start_conditions@[k]).0 != 0,
        result is Ok ==> forall|i: int|
            0 <= i < patterns@.len() ==> ((#[trigger] patterns@[i]) matches Ok(expression)
                && !is_nullable_spec(expression)),
{
    let ghost all = specifications@;
    let ghost names = seq!["INITIAL"@] + views(modes@);
    let count = patterns.len();
    let mut parsed: usize = 0;
    while parsed < count && patterns[parsed].is_ok()
        invariant
            count == patterns@.len(),
            all == specifications@,
            count == all.len(),
            parsed <= count,
            forall|i: int| 0 <= i < parsed ==> #[trigger] patterns@[i] is Ok,
        decreases count - parsed,
    {
        parsed = parsed + 1;
    }
    let mut kept = specifications;
    if parsed < count {
        kept.truncate(parsed + 1);
    }
    let ghost prefix = kept@;
    let resolution = match resolve_modes(modes, kept) {
        Ok(resolution) => resolution,
        Err(error) => {
            proof {
                if first_bad_mode(views(modes@), modes@.len()) is None {
                    let length = prefix.len();
                    lemma_failure_prefix(names, prefix, all, length);
                    lemma_parsed_prefix(names, all, patterns@, parsed as nat);
                    lemma_failure_below(names, all, length as nat);
                    let index = first_failure(names, all, length as nat)->Some_0;
                    if parsed < count {
                        if first_failure(names, all, parsed as nat) is None {
                            assert(first_failure(names, all, length as nat) == Some(parsed as int));
                        } else {
                            lemma_failure_stays(names, all, parsed as nat, length as nat);
                        }
                    }
                    assert(first_rule_failure(names, all, patterns@, length as nat) == Some(index)) by {
                        if parsed < count {
                            if first_failure(names, all, parsed as nat) is None {
                                assert(first_rule_failure(names, all, patterns@, parsed as nat) is None);
                            } else {
                                lemma_failure_stays(names, all, parsed as nat, length as nat);
                            }
                        } else {
                            lemma_parsed_prefix(names, all, patterns@, length as nat);
                        }
                    }
                    lemma_rule_failure_stays(names, all, patterns@, length as nat, all.len());
                    assert(prefix[index] == all[index]);
                    assert(resolved_rule(names, all[index]) == Err::<(Seq<StartConditionId>, ResolvedTransition), Seq<char>>(
                        error.spec_message(),
                    ));
                }
            }
            return Err(error);
        },
    };
    if parsed < count {
        let error = match &patterns[parsed] {
            Err(error) => error,
            Ok(_) => {
                proof {
                    assert(false);
                }
                return Ok(resolution);
            },
        };
        proof {
            lemma_failure_prefix(names, prefix, all, prefix.len() as nat);
            lemma_parsed_prefix(names, all, patterns@, parsed as nat);
            if first_failure(names, all, parsed as nat) is Some {
                lemma_failure_stays(names, all, parsed as nat, (parsed + 1) as nat);
            }
            assert(first_rule_failure(names, all, patterns@, (parsed + 1) as nat) == Some(parsed as int));
            lemma_rule_failure_stays(names, all, patterns@, (parsed + 1) as nat, all.len());
        }
        return Err(CompileError::parse(error));
    }
    proof {
        lemma_failure_prefix(names, prefix, all, all.len());
        lemma_parsed_prefix(names, all, patterns@, all.len());
    }
    let mut i: usize = 0;
    while i < count
        invariant
            count == patterns@.len(),
            count == all.len(),
            first_bad_mode(views(modes@), modes@.len()) is None,
            first_rule_failure(names, all, patterns@, all.len()) is None,
            all == specifications@,
            names == seq!["INITIAL"@] + views(modes@),
            names_of(resolution.conditions@) == names,
            resolution.rules@.len() == all.len(),
            forall|k: int| 0 <= k < all.len() ==> resolves(names, all[k], #[trigger] resolution.rules@[k]),
            i <= count,
            forall|k: int| 0 <= k < patterns@.len() ==> #[trigger] patterns@[k] is Ok,
            forall|k: int| 0 <= k < i ==> !is_nullable_spec(#[trigger] patterns@[k]->Ok_0),
        decreases count - i,
    {
        if let Ok(expression) = &patterns[i] {
            if expression.is_nullable() {
                proof {
                    assert(patterns@[i as int] matches Ok(expression) && is_nullable_spec(expression));
                    assert(some_nullable(patterns@));
                }
                let error = CompileError { message: String::from_str("a lexer rule must consume at least one byte") };
                proof {
                    assert(error.spec_message() == nullable_message());
                }
                return Err(error);
            }
        }
        i = i + 1;
    }
    proof {
        assert(!some_nullable(patterns@)) by {
            if some_nullable(patterns@) {
                let k = choose|k: int|
                    0 <= k < patterns@.len() && (#[trigger] patterns@[k] matches Ok(expression) && is_nullable_spec(expression));
                assert(!is_nullable_spec(patterns@[k]->Ok_0));
            }
        }
    }
    Ok(resolution)
}

} // verus!
