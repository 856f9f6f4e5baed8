use rust_heaps::fib_node::{FibNode, Inner, NotFound};

#[test]
fn node_test() {
    let mut node = FibNode::new(0u8, 0u8);
    let child: usize = 1;

    assert_eq!(node.get_key(), &0u8);
    assert_eq!(node.get_value(), &0u8);
    assert_eq!(node.get_value(), &0u8);
    assert_eq!(node.get_marked(), false);
    node.set_marked(true);
    assert_eq!(node.get_marked(), true);
    assert_eq!(node.rank(), 0);
    node.add_child(child);
    assert_eq!(node.rank(), 1);
}

#[test]
fn parent_child_test() {
    let mut arena = vec![FibNode::new(1u8, 1u8), FibNode::new(2u8, 2u8)];
    let root: usize = 0;
    arena[1].set_parent(Some(root));

    arena[0].set_key(10u8);
    arena[0].set_marked(true);
    let parent = arena[1].get_parent().expect("Not a child");
    let parent = arena.get(parent).expect("Destroyed");

    assert!(arena[root] == *parent);
    assert_eq!(arena[root].get_key(), &10u8);
    assert_eq!(parent.get_marked(), true);
    assert_eq!(arena[1].get_key(), &2u8);
}

#[test]
fn remove_child_test() {
    let mut node = FibNode::new(0u8, 0u8);
    let child1: usize = 1;
    let child2: usize = 2;
    let child3: usize = 3;
    let child4: usize = 4;
    let child5: usize = 5;

    node.add_child(child1);
    node.add_child(child2);
    node.add_child(child3);
    node.add_child(child4);

    assert_eq!(node.rank(), 4);
    let res = node.remove_child(child4);
    assert!(res.is_ok());
    let res = node.remove_child(child1);
    assert!(res.is_ok());
    let res = node.remove_child(child2);
    assert!(res.is_ok());
    let res = node.remove_child(child3);
    assert!(res.is_ok());
    let res = node.remove_child(child5);
    assert!(res.is_err());
}

#[test]
fn inner_starts_as_an_unmarked_root_of_rank_zero() {
    let node = Inner::new(7u32, "seven");
    assert_eq!(node.rank(), 0);
    assert_eq!(node.get_marked(), false);
    assert_eq!(node.get_parent(), None);
    assert_eq!(node.get_key(), &7);
    assert_eq!(node.get_value(), &"seven");
    assert_eq!(node.into_inner(), (7, "seven"));
}

#[test]
fn remove_child_turns_the_children_round() {
    let mut node = Inner::new(0u8, ());
    for c in [10usize, 11, 12, 13, 14] {
        node.add_child(c);
    }
    assert_eq!(node.remove_child(12), Ok(12));
    let left: Vec<usize> = node.drain_children().into_iter().collect();
    assert_eq!(left, vec![13, 14, 10, 11]);
    assert_eq!(node.rank(), 0);
}

#[test]
fn remove_child_takes_the_first_of_two_equal_children() {
    let mut node = Inner::new(0u8, ());
    for c in [5usize, 6, 5, 7] {
        node.add_child(c);
    }
    assert_eq!(node.remove_child(5), Ok(5));
    let left: Vec<usize> = node.drain_children().into_iter().collect();
    assert_eq!(left, vec![6, 5, 7]);
}

#[test]
fn remove_child_that_is_missing_changes_nothing() {
    let mut node = Inner::new(0u8, ());
    for c in [1usize, 2, 3] {
        node.add_child(c);
    }
    assert_eq!(node.remove_child(9), Err(NotFound));
    let left: Vec<usize> = node.drain_children().into_iter().collect();
    assert_eq!(left, vec![1, 2, 3]);
}

#[test]
fn accessors_replace_single_fields() {
    let mut node = Inner::new(9u16, 'x');
    node.set_key(4);
    node.set_parent(Some(3));
    node.set_marked(true);
    assert_eq!(node.get_key(), &4);
    assert_eq!(node.get_parent(), Some(3));
    assert_eq!(node.get_marked(), true);
    assert_eq!(node.get_value(), &'x');
    assert_eq!(node.rank(), 0);
}

#[test]
fn shift_links_moves_parent_and_children() {
    let mut node = Inner::new(1u8, ());
    node.set_parent(Some(2));
    node.add_child(0);
    node.add_child(4);
    node.shift_links(10);
    assert_eq!(node.get_parent(), Some(12));
    let kids: Vec<usize> = node.drain_children().into_iter().collect();
    assert_eq!(kids, vec![10, 14]);
}

#[test]
fn slot_counts_its_generations() {
    let mut slot = FibNode::new(3u8, 30u8);
    assert!(slot.is_live());
    assert_eq!(slot.generation(), 0);
    let node = slot.vacate();
    assert_eq!(node.into_inner(), (3, 30));
    assert!(!slot.is_live());
    assert_eq!(slot.generation(), 1);
    slot.occupy(4, 40);
    assert!(slot.is_live());
    assert_eq!(slot.generation(), 1);
    assert_eq!(slot.into_inner(), (4, 40));
}

#[test]
fn get_child_reads_the_children_in_order() {
    let mut node = Inner::new(0u8, ());
    for c in [7usize, 8, 9] {
        node.add_child(c);
    }
    assert_eq!(node.get_child(0), 7);
    assert_eq!(node.get_child(2), 9);
    let mut slot = FibNode::new(0u8, ());
    slot.add_child(4);
    slot.add_child(6);
    assert_eq!(slot.get_child(1), 6);
    assert_eq!(slot.rank(), 2);
}
