use rust_heaps::fib_node::{FibNode, Inner};
use std::cmp::Ordering;

#[test]
fn nodes_compare_by_key_only() {
    let a = Inner::new(3u8, "a");
    let b = Inner::new(3u8, "b");
    let c = Inner::new(4u8, "a");
    assert!(a == b);
    assert!(a != c);
    assert!(a < c);
    assert!(c > b);
    assert!(a <= b);
    assert_eq!(a.partial_cmp(&b), Some(Ordering::Equal));
    assert_eq!(a.partial_cmp(&c), Some(Ordering::Less));
    assert_eq!(c.partial_cmp(&a), Some(Ordering::Greater));
}

#[test]
fn links_and_marks_do_not_count_in_a_comparison() {
    let mut a = Inner::new(3u8, 0u8);
    let b = Inner::new(3u8, 0u8);
    a.set_marked(true);
    a.set_parent(Some(9));
    a.add_child(4);
    assert!(a == b);
    assert_eq!(a.partial_cmp(&b), Some(Ordering::Equal));
}

#[test]
fn slots_compare_as_their_nodes_do() {
    let a = FibNode::new(1u32, ());
    let b = FibNode::new(2u32, ());
    let c = FibNode::new(2u32, ());
    assert!(a < b);
    assert!(b == c);
    assert!(!(b < c));
    assert_eq!(b.partial_cmp(&a), Some(Ordering::Greater));
}

#[test]
fn a_vacant_slot_compares_to_vacant_slots_only() {
    let mut a = FibNode::new(1u32, ());
    let mut b = FibNode::new(2u32, ());
    let c = FibNode::new(2u32, ());
    a.vacate();
    assert!(a != c);
    assert_eq!(a.partial_cmp(&c), None);
    assert_eq!(c.partial_cmp(&a), None);
    assert!(!(a < c));
    b.vacate();
    assert!(a == b);
    assert_eq!(a.partial_cmp(&b), Some(Ordering::Equal));
}
