use rust_heaps::fib_node::Handle;
use rust_heaps::fibonacci_heap::FibHeap;
use rust_heaps::{Heap, HeapDelete, HeapError, HeapExt};

#[test]
fn a_removed_element_is_gone_for_its_handle() {
    let mut heap: FibHeap<u8, char> = FibHeap::new();
    let a = heap.insert(1, 'a');
    let b = heap.insert(2, 'b');
    assert!(heap.contains(&a));
    assert_eq!(heap.delete_min(), Ok((1, 'a')));
    assert!(!heap.contains(&a));
    assert!(heap.contains(&b));
    assert_eq!(heap.get_key(&a), Err(HeapError::UseAfterRemoval));
    assert_eq!(heap.get_value(&a), Err(HeapError::UseAfterRemoval));
    assert_eq!(heap.get_parent(&a), Err(HeapError::UseAfterRemoval));
    assert_eq!(heap.rank(&a), Err(HeapError::UseAfterRemoval));
    assert_eq!(heap.get_marked(&a), Err(HeapError::UseAfterRemoval));
    assert_eq!(heap.children(&a), Err(HeapError::UseAfterRemoval));
    assert_eq!(heap.decrease_key(&a, 0), Err(HeapError::UseAfterRemoval));
    assert_eq!(heap.delete(a), Err(HeapError::UseAfterRemoval));
    assert_eq!(heap.len(), 1);
    assert_eq!(heap.find_min(), Ok((2, &'b')));
}

#[test]
fn a_slot_that_is_used_again_does_not_answer_to_the_old_handle() {
    let mut heap: FibHeap<u8, char> = FibHeap::new();
    let a = heap.insert(1, 'a');
    assert_eq!(heap.capacity(), 1);
    assert_eq!(heap.delete(a), Ok((1, 'a')));
    let b = heap.insert(7, 'b');
    assert_eq!(heap.capacity(), 1);
    assert!(a != b);
    assert!(!heap.contains(&a));
    assert!(heap.contains(&b));
    assert_eq!(heap.decrease_key(&a, 1), Err(HeapError::UseAfterRemoval));
    assert_eq!(heap.get_key(&b), Ok(7));
    assert_eq!(heap.delete(a), Err(HeapError::UseAfterRemoval));
    assert_eq!(heap.delete(b), Ok((7, 'b')));
    assert_eq!(heap.delete(b), Err(HeapError::UseAfterRemoval));
}

#[test]
fn vacant_slots_are_used_before_the_arena_grows() {
    let mut heap: FibHeap<u32, u32> = FibHeap::new();
    for k in 0..8 {
        heap.insert(k, k);
    }
    assert_eq!(heap.capacity(), 8);
    for _ in 0..5 {
        heap.delete_min().unwrap();
    }
    for k in 10..15 {
        heap.insert(k, k);
    }
    assert_eq!(heap.capacity(), 8);
    assert_eq!(heap.len(), 8);
    heap.insert(99, 99);
    assert_eq!(heap.capacity(), 9);
    let mut out = Vec::new();
    while let Ok((k, _)) = heap.delete_min() {
        out.push(k);
    }
    assert_eq!(out, vec![5, 6, 7, 10, 11, 12, 13, 14, 99]);
}

#[test]
fn a_handle_of_an_empty_heap_names_nothing() {
    let mut source: FibHeap<u8, u8> = FibHeap::new();
    let h = source.insert(1, 1);
    let mut heap: FibHeap<u8, u8> = FibHeap::new();
    assert!(!heap.contains(&h));
    assert_eq!(heap.decrease_key(&h, 1), Err(HeapError::UseAfterRemoval));
    assert_eq!(heap.delete(h), Err(HeapError::UseAfterRemoval));
}

#[test]
fn rebased_moves_the_handle_on() {
    let mut heap: FibHeap<u8, u8> = FibHeap::new();
    let first = heap.insert(1, 1);
    let second = heap.insert(2, 2);
    assert_eq!(first.rebased(0), Some(first));
    assert_eq!(first.rebased(1), Some(second));
    assert_eq!(second.rebased(usize::MAX), None);
    assert_eq!(first.rebased(usize::MAX), first.rebased(usize::MAX));
    assert!(first.rebased(usize::MAX).is_some());
    assert!(first.rebased(usize::MAX - 1) != first.rebased(usize::MAX));
}

#[test]
fn handles_are_plain_values() {
    let mut heap: FibHeap<u8, u8> = FibHeap::new();
    let a: Handle = heap.insert(1, 1);
    let b = a;
    let c = a.clone();
    assert_eq!(a, b);
    assert_eq!(a, c);
    let mut seen = std::collections::HashSet::new();
    seen.insert(a);
    assert!(seen.contains(&b));
    assert_eq!(format!("{:?}", a), format!("{:?}", c));
}

#[test]
fn merged_heap_knows_the_other_elements_by_rebased_handles() {
    let mut a: FibHeap<u8, &str> = FibHeap::new();
    let a1 = a.insert(10, "a1");
    let a2 = a.insert(20, "a2");
    let mut b: FibHeap<u8, &str> = FibHeap::new();
    let b1 = b.insert(30, "b1");
    let b2 = b.insert(5, "b2");
    let offset = a.capacity();
    let mut m = a.merge(b);
    let b1 = b1.rebased(offset).unwrap();
    let b2 = b2.rebased(offset).unwrap();
    assert_eq!(m.get_value(&a1), Ok(&"a1"));
    assert_eq!(m.get_value(&a2), Ok(&"a2"));
    assert_eq!(m.get_value(&b1), Ok(&"b1"));
    assert_eq!(m.get_value(&b2), Ok(&"b2"));
    assert_eq!(m.find_min(), Ok((5, &"b2")));
    assert_eq!(m.decrease_key(&b1, 28), Ok(()));
    assert_eq!(m.find_min(), Ok((2, &"b1")));
    assert_eq!(m.delete(b2), Ok((5, "b2")));
    assert_eq!(m.delete(a1), Ok((10, "a1")));
    assert_eq!(m.delete_min(), Ok((2, "b1")));
    assert_eq!(m.delete_min(), Ok((20, "a2")));
    assert!(m.empty());
}

#[test]
fn handles_that_were_dead_before_a_merge_stay_dead() {
    let mut a: FibHeap<u8, u8> = FibHeap::new();
    let a1 = a.insert(1, 1);
    a.delete(a1).unwrap();
    let mut b: FibHeap<u8, u8> = FibHeap::new();
    let b1 = b.insert(2, 2);
    let b2 = b.insert(3, 3);
    b.delete(b1).unwrap();
    let offset = a.capacity();
    let mut m = a.merge(b);
    let b1 = b1.rebased(offset).unwrap();
    let b2 = b2.rebased(offset).unwrap();
    assert!(!m.contains(&a1));
    assert!(!m.contains(&b1));
    assert!(m.contains(&b2));
    let c = m.insert(9, 9);
    let d = m.insert(8, 8);
    assert!(!m.contains(&a1));
    assert!(!m.contains(&b1));
    assert!(c != a1 && c != b1 && d != a1 && d != b1);
    assert_eq!(m.capacity(), offset + 2);
    assert_eq!(m.len(), 3);
}
