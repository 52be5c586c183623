use lxr_codegen::automata::adjacency::{AdjacencyList, AdjacencyListBuilder};
use lxr_codegen::automata::{BuildError, StateId};

fn list() -> AdjacencyList<u32> {
    AdjacencyList::new(vec![0, 1, 1, 4], vec![10, 20, 30, 40])
}

fn built(groups: usize, entries: &[(usize, u32)]) -> AdjacencyList<u32> {
    let mut builder = AdjacencyListBuilder::new();
    for &(group, item) in entries {
        builder.add(StateId::new(group), item);
    }
    builder
        .build(groups)
        .expect("the adjacency list is below its capacity")
}

#[test]
fn a_group_is_the_slice_from_its_offset_to_the_next_offset() {
    assert_eq!(list().get(StateId::new(0)), Some(&[10][..]));
    assert_eq!(list().get(StateId::new(2)), Some(&[20, 30, 40][..]));
}

#[test]
fn a_group_without_an_item_is_an_empty_slice() {
    assert_eq!(list().get(StateId::new(1)), Some(&[][..]));
}

#[test]
fn the_adjacency_list_has_one_group_less_than_it_has_offsets() {
    assert_eq!(list().state_count(), 3);
}

#[test]
fn a_group_outside_the_adjacency_list_gives_nothing() {
    assert_eq!(list().get(StateId::new(3)), None);
    assert_eq!(list().get(StateId::new(9)), None);
}

#[test]
fn the_adjacency_list_gives_each_item_in_one_slice() {
    assert_eq!(list().edges(), &[10, 20, 30, 40]);
}

#[test]
fn the_default_adjacency_list_holds_no_group() {
    let list = AdjacencyList::<u32>::default();

    assert_eq!(list.state_count(), 0);
    assert_eq!(list.get(StateId::new(0)), None);
    assert_eq!(list.edges(), &[]);
}

#[test]
fn a_group_keeps_the_sequence_in_which_the_items_arrived() {
    let list = built(2, &[(1, 30), (0, 10), (1, 20), (1, 10)]);

    assert_eq!(list.get(StateId::new(0)), Some(&[10][..]));
    assert_eq!(list.get(StateId::new(1)), Some(&[30, 20, 10][..]));
}

#[test]
fn a_group_that_gets_no_item_is_empty() {
    let list = built(3, &[(2, 10)]);

    assert_eq!(list.get(StateId::new(0)), Some(&[][..]));
    assert_eq!(list.get(StateId::new(1)), Some(&[][..]));
    assert_eq!(list.get(StateId::new(2)), Some(&[10][..]));
}

#[test]
fn the_adjacency_list_holds_the_items_of_the_first_group_first() {
    let list = built(2, &[(1, 30), (0, 10), (1, 20)]);

    assert_eq!(list.edges(), &[10, 30, 20]);
}

#[test]
fn an_adjacency_list_without_an_item_keeps_its_groups() {
    let list = built(3, &[]);

    assert_eq!(list.state_count(), 3);
    assert_eq!(list.get(StateId::new(2)), Some(&[][..]));
    assert_eq!(list.edges(), &[]);
}

#[test]
fn an_adjacency_list_without_a_group_holds_nothing() {
    let list = built(0, &[]);

    assert_eq!(list.state_count(), 0);
    assert_eq!(list.get(StateId::new(0)), None);
}

#[test]
fn an_adjacency_list_at_its_capacity_builds() {
    let mut builder = AdjacencyListBuilder::with_capacity(2);
    builder.add(StateId::new(0), 10);
    builder.add(StateId::new(0), 20);

    assert_eq!(
        builder.build(1).map(|list| list.edges().to_vec()),
        Ok(vec![10, 20])
    );
}

#[test]
fn an_adjacency_list_past_its_capacity_reports_an_error() {
    let mut builder = AdjacencyListBuilder::with_capacity(2);
    builder.add(StateId::new(0), 10);
    builder.add(StateId::new(0), 20);
    builder.add(StateId::new(0), 30);

    assert_eq!(
        builder.build(1),
        Err(BuildError::TooManyTransitions { capacity: 2 })
    );
}

#[test]
fn a_state_id_round_trips_through_its_index() {
    assert_eq!(StateId::new(0).index(), 0);
    let last = u32::MAX as usize;
    assert_eq!(StateId::new(last).index(), last);
}

#[test]
fn a_large_adjacency_list_keeps_each_group_in_arrival_order() {
    let mut builder = AdjacencyListBuilder::new();
    for item in 0..1000u32 {
        builder.add(StateId::new((item % 7) as usize), item);
    }
    let list = builder.build(7).expect("the list is below its capacity");

    for group in 0..7usize {
        let expected: Vec<u32> = (0..1000u32).filter(|item| (item % 7) as usize == group).collect();
        assert_eq!(list.get(StateId::new(group)), Some(&expected[..]));
    }
}
