//! The limits of the `find` function of the emitted source, which keeps the
//! state of the scan in the program counter.
use vstd::prelude::*;

use crate::automata::dfa::Dfa;
use crate::automata::encoding::ByteRange;
use crate::automata::StateId;
use crate::compiler::Accepts;

verus! {

/// The maximum number of the states of an automaton that the emitted source
/// writes as code.
///
/// One state gives one arm, and one arm holds a comparison for each label of
/// that state. A lexer above this limit thus gives a function that costs
/// more compile time than the scan saves. Such a lexer keeps the scan of the
/// tables.
pub const MAX_CODE_STATES: usize = 1024;

/// The number of the states below which one arm holds two states after the
/// state of that arm.
pub const DEEP_STATES: usize = 128;

/// The number of the states below which one arm holds one state after the
/// state of that arm.
pub const SHALLOW_STATES: usize = 512;

/// Returns the number of the states that one arm holds after the state of
/// that arm, for a lexer of `states` states.
///
/// A lexer of few states holds two states in each arm, and a lexer of many
/// states holds none. The source grows with the depth, thus the depth falls
/// as the lexer grows.
pub fn depth(states: usize) -> (depth: usize)
    ensures
        depth == depth_of(states),
{
    if states < DEEP_STATES {
        2
    } else if states < SHALLOW_STATES {
        1
    } else {
        0
    }
}

/// Returns the depth of the `find` function of a lexer of `states` states,
/// inside a limit of `limit` states.
///
/// The result is `None` where the lexer holds more than `limit` states: such
/// a lexer gets no code and keeps the scan of the tables. Else it is the
/// [`depth`] of the lexer. The emitted source takes [`MAX_CODE_STATES`] as
/// the limit.
pub fn code_depth(states: usize, limit: usize) -> (found: Option<usize>)
    ensures
        found is None <==> states > limit,
        found is Some ==> found->0 == depth_of(states),
{
    if states > limit {
        return None;
    }
    Some(depth(states))
}

/// The number of the states that one arm holds after the state of that arm,
/// for a lexer of `states` states.
pub open spec fn depth_of(states: usize) -> usize {
    if states < DEEP_STATES {
        2
    } else if states < SHALLOW_STATES {
        1
    } else {
        0
    }
}

/// Returns the first start state of `dfa` that accepts a rule in
/// `accepts`, or `None` where no start state accepts.
///
/// A start state that accepts means that a rule matches the empty string.
/// The `find` function of such a lexer is refused: it would report a match
/// that reads no byte.
pub fn accepting_start(dfa: &Dfa<ByteRange>, accepts: &Accepts<u16>) -> (found: Option<StateId>)
    requires
        dfa.well_formed(),
        accepts.spec_accepts().len() == dfa.spec_state_count(),
    ensures
        found is None <==> forall|k: int|
            0 <= k < dfa.spec_starts().len() ==> accepts.spec_accepts()[(#[trigger] dfa.spec_starts()[k])@ as int] is None,
        found matches Some(state) ==> exists|k: int|
            0 <= k < dfa.spec_starts().len() && #[trigger] dfa.spec_starts()[k] == state
                && accepts.spec_accepts()[state@ as int] is Some && forall|j: int|
                0 <= j < k ==> accepts.spec_accepts()[(#[trigger] dfa.spec_starts()[j])@ as int] is None,
{
    let starts = dfa.start_states();
    let mut k: usize = 0;
    while k < starts.len()
        invariant
            starts@ == dfa.spec_starts(),
            dfa.well_formed(),
            accepts.spec_accepts().len() == dfa.spec_state_count(),
            k <= starts@.len(),
            forall|j: int| 0 <= j < k ==> accepts.spec_accepts()[(#[trigger] dfa.spec_starts()[j])@ as int] is None,
        decreases starts@.len() - k,
    {
        let start = starts[k];
        proof {
            assert(dfa.spec_starts()[k as int] == start);
        }
        if accepts.get(start).is_some() {
            return Some(start);
        }
        k = k + 1;
    }
    None
}

} // verus!
