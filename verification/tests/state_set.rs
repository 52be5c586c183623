use lxr_codegen::automata::StateId;
use lxr_codegen::automata::state_set::StateSet;

#[test]
fn insertion_keeps_each_state_one_time() {
    let mut states = StateSet::new(3);

    assert!(states.insert(StateId::new(2)));
    assert!(states.insert(StateId::new(0)));
    assert!(!states.insert(StateId::new(2)));
    assert_eq!(states.members(), &[StateId::new(2), StateId::new(0)]);
}

#[test]
fn a_clear_permits_each_state_again() {
    let mut states = StateSet::new(2);
    states.insert(StateId::new(1));

    states.clear();

    assert!(states.is_empty());
    assert!(states.insert(StateId::new(1)));
}
