use lxr_codegen::automata::encoding::ByteRange;
use lxr_codegen::automata::{StateId, Transition};
use lxr_codegen::code::state::arms;

fn to(byte: u8, target: usize) -> Transition<ByteRange> {
    Transition { label: ByteRange::new(byte, byte), target: StateId::new(target) }
}

#[test]
fn labels_that_give_one_state_share_one_arm() {
    let transitions = [to(b'a', 1), to(b'b', 2), to(b'c', 1), to(b'd', 0)];

    let arms = arms(&transitions, StateId::new(0));

    assert_eq!(
        arms,
        vec![
            (StateId::new(1), vec![ByteRange::new(b'a', b'a'), ByteRange::new(b'c', b'c')]),
            (StateId::new(2), vec![ByteRange::new(b'b', b'b')]),
        ]
    );
}

#[test]
fn a_state_that_only_loops_has_no_arm() {
    let transitions = [to(b'a', 3), to(b'b', 3)];

    assert!(arms(&transitions, StateId::new(3)).is_empty());
}
