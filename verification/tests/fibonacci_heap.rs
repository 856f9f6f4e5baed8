use rust_heaps::fibonacci_heap::FibHeap;
use rust_heaps::{Heap, HeapDelete, HeapError, HeapExt};

#[test]
fn fheap_insert() {
    let mut fheap: FibHeap<u8, u8> = FibHeap::new();
    let one = fheap.insert(1, 1);
    let two = fheap.insert(2, 2);
    assert_eq!(fheap.get_key(&one), Ok(1));
    assert_eq!(fheap.get_key(&two), Ok(2));
    assert_eq!(fheap.len(), 2);
    assert_eq!(fheap.root_count(), 2);
}

#[test]
fn fheap_find_min() {
    let mut fheap: FibHeap<u8, u8> = FibHeap::new();
    fheap.insert(1, 1);
    fheap.insert(2, 2);
    assert_eq!(fheap.find_min(), Ok((1, &1)));
}

#[test]
fn fheap_merge() {
    let mut fheap: FibHeap<u8, u8> = FibHeap::new();
    fheap.insert(1, 1);
    fheap.insert(4, 4);
    fheap.insert(2, 2);
    let mut fheap1: FibHeap<u8, u8> = FibHeap::new();
    fheap1.insert(5, 5);
    fheap1.insert(0, 0);
    fheap1.insert(3, 3);

    fheap = fheap.merge(fheap1);
    assert_eq!(fheap.len(), 6);
    assert_eq!(fheap.root_count(), 6);
}

#[test]
fn fheap_delete_min() {
    let mut fheap: FibHeap<u8, u8> = FibHeap::new();
    fheap.insert(1, 1);
    fheap.insert(2, 2);
    fheap.insert(3, 3);
    fheap.insert(4, 4);
    fheap.insert(5, 5);
    assert_eq!(fheap.find_min(), Ok((1, &1)));
    fheap.insert(0, 0);
    assert_eq!(fheap.find_min(), Ok((0, &0)));
    assert_eq!(fheap.delete_min(), Ok((0, 0)));
    assert_eq!(fheap.delete_min(), Ok((1, 1)));
    assert_eq!(fheap.delete_min(), Ok((2, 2)));
    fheap.delete_min().unwrap();
    fheap.delete_min().unwrap();
    fheap.delete_min().unwrap();
    assert!(fheap.empty());
}

#[test]
fn test_fheap_decrease_key() {
    let mut fheap: FibHeap<u8, u8> = FibHeap::new();
    fheap.insert(2, 2);
    let four = fheap.insert(4, 4);
    fheap.insert(0, 0);
    let five = fheap.insert(5, 5);
    fheap.delete_min().unwrap();
    assert_eq!(fheap.root_count(), 2);
    fheap.decrease_key(&four.clone(), 3).unwrap();
    assert_eq!(fheap.get_key(&four.clone()), Ok(1));
    assert!(fheap.get_parent(&four).unwrap().is_none());
    assert_eq!(fheap.root_count(), 3);
    fheap.decrease_key(&five, 5).unwrap();
    assert_eq!(fheap.root_count(), 3);
    assert_eq!(fheap.find_min(), Ok((0, &5)));
}

#[test]
fn test_fheap_decrease_key_adding_to_empty_root() {
    let mut fheap: FibHeap<u8, u8> = FibHeap::new();
    let four = fheap.insert(4, 4);
    fheap.insert(0, 0);
    fheap.delete_min().unwrap();
    assert_eq!(fheap.root_count(), 1);
    fheap.decrease_key(&four, 2).unwrap();
    assert_eq!(fheap.get_key(&four), Ok(2));
    assert!(fheap.get_parent(&four).unwrap().is_none());
}

#[test]
fn test_fheap_cascading_cut() {
    let mut fheap: FibHeap<u8, u8> = FibHeap::new();
    fheap.insert(0, 0);
    fheap.insert(1, 1);
    fheap.insert(4, 4);
    fheap.insert(5, 5);
    fheap.insert(2, 2);
    fheap.insert(3, 3);
    let six = fheap.insert(6, 6);
    let seven = fheap.insert(7, 7);
    fheap.insert(18, 18);
    fheap.insert(9, 9);
    fheap.insert(11, 11);
    fheap.insert(15, 15);
    fheap.delete_min().unwrap();
    assert_eq!(fheap.find_min(), Ok((1, &1)));
    assert_eq!(fheap.root_count(), 3);
    fheap.decrease_key(&six, 4).unwrap();
    assert_eq!(fheap.root_count(), 4);
    fheap.decrease_key(&seven, 7).unwrap();
    assert_eq!(fheap.root_count(), 6);
}

#[test]
fn test_fheap_delete() {
    let mut fheap: FibHeap<u8, u8> = FibHeap::new();
    let one = fheap.insert(1, 1);
    fheap.insert(4, 4);
    fheap.insert(0, 0);
    let five = fheap.insert(5, 5);
    fheap.delete_min().unwrap();
    fheap.delete(five).unwrap();
    assert_eq!(fheap.root_count(), 1);
    fheap.delete(one).unwrap();
    assert_eq!(fheap.root_count(), 1);
    assert_eq!(fheap.find_min(), Ok((4, &4)))
}

#[test]
fn new_heap_is_empty() {
    let mut fheap: FibHeap<u8, u8> = FibHeap::new();
    assert_eq!(fheap.root_count(), 0);
    assert_eq!(fheap.len(), 0);
    assert!(fheap.empty());
    assert_eq!(fheap.find_min(), Err(HeapError::EmptyHeap));
    assert_eq!(fheap.delete_min(), Err(HeapError::EmptyHeap));
}

#[test]
fn delete_min_yields_keys_in_order() {
    let mut fheap: FibHeap<u32, &str> = FibHeap::new();
    for (k, v) in [(5, "e"), (3, "c"), (8, "h"), (1, "a"), (9, "i"), (2, "b")] {
        fheap.insert(k, v);
    }
    let mut out = Vec::new();
    while !fheap.empty() {
        out.push(fheap.delete_min().unwrap());
    }
    assert_eq!(out, vec![(1, "a"), (2, "b"), (3, "c"), (5, "e"), (8, "h"), (9, "i")]);
    assert_eq!(fheap.find_min(), Err(HeapError::EmptyHeap));
}

#[test]
fn decrease_key_cuts_the_node_and_makes_it_a_root() {
    let mut fheap: FibHeap<u8, u8> = FibHeap::new();
    fheap.insert(2, 2);
    let four = fheap.insert(4, 4);
    fheap.insert(0, 0);
    fheap.insert(5, 5);
    assert_eq!(fheap.delete_min(), Ok((0, 0)));
    assert!(fheap.get_parent(&four).unwrap().is_some());
    let roots = fheap.root_count();
    assert_eq!(fheap.decrease_key(&four, 3), Ok(()));
    assert_eq!(fheap.get_key(&four), Ok(1));
    assert_eq!(fheap.get_parent(&four), Ok(None));
    assert_eq!(fheap.get_marked(&four), Ok(false));
    assert_eq!(fheap.root_count(), roots + 1);
    assert_eq!(fheap.find_min(), Ok((1, &4)));
}

#[test]
fn merge_finds_the_minimum_of_the_other_heap() {
    let mut a: FibHeap<u8, &str> = FibHeap::new();
    a.insert(1, "a1");
    a.insert(4, "a4");
    a.insert(2, "a2");
    let mut b: FibHeap<u8, &str> = FibHeap::new();
    b.insert(5, "b5");
    b.insert(0, "b0");
    b.insert(3, "b3");
    let merged = a.merge(b);
    assert_eq!(merged.len(), 6);
    assert_eq!(merged.find_min(), Ok((0, &"b0")));
}

#[test]
fn delete_removes_exactly_one_element() {
    let mut fheap: FibHeap<u8, u8> = FibHeap::new();
    let one = fheap.insert(1, 10);
    fheap.insert(4, 40);
    fheap.insert(0, 0);
    let five = fheap.insert(5, 50);
    assert_eq!(fheap.delete(five), Ok((5, 50)));
    assert_eq!(fheap.delete(one), Ok((1, 10)));
    assert_eq!(fheap.len(), 2);
    assert_eq!(fheap.delete_min(), Ok((0, 0)));
    assert_eq!(fheap.delete_min(), Ok((4, 40)));
    assert_eq!(fheap.delete_min(), Err(HeapError::EmptyHeap));
}

#[test]
fn delete_after_delete_min_leaves_the_rest() {
    let mut fheap: FibHeap<u8, u8> = FibHeap::new();
    let one = fheap.insert(1, 1);
    fheap.insert(4, 4);
    fheap.insert(0, 0);
    let five = fheap.insert(5, 5);
    fheap.delete_min().unwrap();
    fheap.delete(five).unwrap();
    fheap.delete(one).unwrap();
    let mut left = Vec::new();
    while let Ok(kv) = fheap.delete_min() {
        left.push(kv);
    }
    assert_eq!(left, vec![(4, 4)]);
}

#[test]
fn as_many_delete_min_as_inserts_empty_the_heap() {
    let mut fheap: FibHeap<u64, usize> = FibHeap::new();
    let keys: [u64; 9] = [7, 3, 9, 3, 1, 8, 2, 6, 5];
    for (i, k) in keys.iter().enumerate() {
        fheap.insert(*k, i);
        assert_eq!(fheap.len(), i + 1);
    }
    for i in 0..keys.len() {
        assert!(!fheap.empty());
        assert!(fheap.delete_min().is_ok());
        assert_eq!(fheap.len(), keys.len() - i - 1);
    }
    assert!(fheap.empty());
    assert_eq!(fheap.find_min(), Err(HeapError::EmptyHeap));
    assert_eq!(fheap.root_count(), 0);
}
