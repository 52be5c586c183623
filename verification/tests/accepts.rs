use lxr_codegen::automata::StateId;
use lxr_codegen::compiler::Accepts;

fn state(index: usize) -> StateId {
    StateId::new(index)
}

fn accepts() -> Accepts<u32> {
    Accepts::new(4, vec![(state(1), 7), (state(3), 3)])
}

/// Builds the subsets of three states from one group of states for each state.
fn subsets(groups: &[&[usize]]) -> Vec<Vec<StateId>> {
    groups
        .iter()
        .map(|states| states.iter().map(|&index| state(index)).collect())
        .collect()
}

#[test]
fn only_a_state_that_a_mark_names_accepts() {
    let accepts = accepts();

    assert_eq!(accepts.get(state(0)), None);
    assert_eq!(accepts.get(state(1)), Some(&7));
    assert_eq!(accepts.state_count(), 4);
}

#[test]
fn the_lowest_accept_of_a_set_is_the_lowest_accept_of_its_states() {
    let accepts = accepts();

    assert_eq!(accepts.lowest(&[state(1), state(3)]), Some(3));
    assert_eq!(accepts.lowest(&[state(1)]), Some(7));
    assert_eq!(accepts.lowest(&[state(0), state(2)]), None);
    assert_eq!(accepts.lowest(&[]), None);
}

#[test]
fn minimization_gives_the_accept_of_the_states_that_joined() {
    let accepts = accepts().minimized(&[state(0), state(1), state(0), state(2)], 3);

    assert_eq!(accepts.state_count(), 3);
    assert_eq!(accepts.get(state(0)), None);
    assert_eq!(accepts.get(state(1)), Some(&7));
    assert_eq!(accepts.get(state(2)), Some(&3));
}

#[test]
fn determinization_gives_the_lowest_accept_of_each_set() {
    let accepts = accepts().determinized(&subsets(&[&[0], &[1, 3], &[3]]));

    assert_eq!(accepts.state_count(), 3);
    assert_eq!(accepts.get(state(0)), None);
    assert_eq!(accepts.get(state(1)), Some(&3));
    assert_eq!(accepts.get(state(2)), Some(&3));
}

#[test]
fn a_mark_keeps_its_accept_in_any_sequence() {
    let accepts: Accepts<u16> = Accepts::new(3, vec![(state(2), 9), (state(0), 4)]);

    assert_eq!(accepts.get(state(0)), Some(&4));
    assert_eq!(accepts.get(state(1)), None);
    assert_eq!(accepts.get(state(2)), Some(&9));
    assert_eq!(accepts.lowest(&[state(2), state(1), state(0)]), Some(4));
}
