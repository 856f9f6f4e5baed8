use rust_heaps::fib_node::Handle;
use rust_heaps::fibonacci_heap::FibHeap;
use rust_heaps::{Heap, HeapDelete, HeapError, HeapExt};

struct Model {
    live: Vec<(Handle, u32, usize)>,
}

impl Model {
    fn min_key(&self) -> Option<u32> {
        self.live.iter().map(|e| e.1).min()
    }

    fn take(&mut self, key: u32, value: usize) {
        let at = self.live.iter().position(|e| e.1 == key && e.2 == value).unwrap();
        self.live.remove(at);
    }
}

fn next(seed: &mut u64) -> u64 {
    *seed = seed.wrapping_mul(6364136223846793005).wrapping_add(1442695040888963407);
    *seed >> 33
}

fn check_shape(heap: &FibHeap<u32, usize>, model: &Model) {
    assert_eq!(heap.len(), model.live.len());
    assert_eq!(heap.empty(), model.live.is_empty());
    let roots = heap.roots();
    assert_eq!(roots.len(), heap.root_count());
    let mut parentless = 0;
    for (h, k, v) in model.live.iter() {
        assert_eq!(heap.get_key(h), Ok(*k));
        assert_eq!(heap.get_value(h), Ok(v));
        match heap.get_parent(h).unwrap() {
            Some(p) => {
                assert!(heap.get_key(&p).unwrap() <= *k);
                assert!(heap.children(&p).unwrap().contains(h));
                assert!(!roots.contains(h));
            },
            None => {
                parentless += 1;
                assert!(roots.contains(h));
                assert_eq!(heap.get_marked(h), Ok(false));
            },
        }
        let kids = heap.children(h).unwrap();
        assert_eq!(kids.len(), heap.rank(h).unwrap());
        for c in kids.iter() {
            assert_eq!(heap.get_parent(c), Ok(Some(*h)));
        }
    }
    assert_eq!(parentless, roots.len());
    match model.min_key() {
        Some(k) => {
            assert_eq!(heap.find_min().map(|kv| kv.0), Ok(k));
            assert_eq!(heap.get_key(&roots[0]), Ok(k));
        },
        None => assert_eq!(heap.find_min(), Err(HeapError::EmptyHeap)),
    }
}

#[test]
fn heap_agrees_with_a_plain_list_under_mixed_operations() {
    let mut heap: FibHeap<u32, usize> = FibHeap::new();
    let mut model = Model { live: Vec::new() };
    let mut dead: Vec<Handle> = Vec::new();
    let mut seed: u64 = 2024;
    let mut serial: usize = 0;
    for _ in 0..3000 {
        let what = next(&mut seed) % 10;
        if what < 4 || model.live.is_empty() {
            let key = (next(&mut seed) % 500) as u32;
            let h = heap.insert(key, serial);
            assert!(!dead.contains(&h));
            assert!(model.live.iter().all(|e| e.0 != h));
            model.live.push((h, key, serial));
            serial += 1;
        } else if what < 6 {
            let want = model.min_key().unwrap();
            let (k, v) = heap.delete_min().unwrap();
            assert_eq!(k, want);
            let at = model.live.iter().position(|e| e.1 == k && e.2 == v).unwrap();
            dead.push(model.live[at].0);
            model.take(k, v);
        } else if what < 9 {
            let at = (next(&mut seed) as usize) % model.live.len();
            let (h, k, _) = model.live[at];
            let delta = (next(&mut seed) % 60) as u32;
            if delta <= k {
                assert_eq!(heap.decrease_key(&h, delta), Ok(()));
                model.live[at].1 = k - delta;
            } else {
                assert_eq!(heap.decrease_key(&h, delta), Err(HeapError::InvalidDelta));
            }
        } else {
            let at = (next(&mut seed) as usize) % model.live.len();
            let (h, k, v) = model.live[at];
            assert_eq!(heap.delete(h), Ok((k, v)));
            dead.push(h);
            model.live.remove(at);
        }
        check_shape(&heap, &model);
        if let Some(h) = dead.last() {
            assert!(!heap.contains(h));
        }
    }
    for h in dead.iter() {
        assert!(!heap.contains(h));
    }
    let mut last = 0;
    while !model.live.is_empty() {
        let (k, v) = heap.delete_min().unwrap();
        assert!(k >= last);
        last = k;
        model.take(k, v);
    }
    assert!(heap.empty());
    assert_eq!(heap.delete_min(), Err(HeapError::EmptyHeap));
}

#[test]
fn no_two_roots_have_the_same_rank_after_delete_min() {
    let mut heap: FibHeap<u32, usize> = FibHeap::new();
    for k in 0..100u32 {
        heap.insert((k * 37) % 101, k as usize);
    }
    assert_eq!(heap.root_count(), 100);
    for left in (1..100usize).rev() {
        heap.delete_min().unwrap();
        let ranks: Vec<usize> = heap.roots().iter().map(|h| heap.rank(h).unwrap()).collect();
        let mut sorted = ranks.clone();
        sorted.sort();
        sorted.dedup();
        assert_eq!(sorted.len(), ranks.len());
        assert_eq!(heap.len(), left);
        assert_eq!(heap.root_count(), (left as u32).count_ones() as usize);
    }
}

#[test]
fn a_tree_of_rank_r_holds_at_least_the_fibonacci_number_of_nodes() {
    fn size(heap: &FibHeap<u32, usize>, h: &Handle) -> usize {
        1 + heap.children(h).unwrap().iter().map(|c| size(heap, c)).sum::<usize>()
    }
    let fib = [0usize, 1, 1, 2, 3, 5, 8, 13, 21, 34, 55, 89, 144];
    let mut heap: FibHeap<u32, usize> = FibHeap::new();
    let mut handles = Vec::new();
    for k in 0..129u32 {
        handles.push(heap.insert(1000 + k, k as usize));
    }
    heap.delete_min().unwrap();
    let mut seed: u64 = 7;
    for _ in 0..60 {
        let at = (next(&mut seed) as usize) % handles.len();
        if heap.contains(&handles[at]) {
            let key = heap.get_key(&handles[at]).unwrap();
            heap.decrease_key(&handles[at], key.min(900)).unwrap();
        }
        for h in handles.iter() {
            if heap.contains(h) {
                let rank = heap.rank(h).unwrap();
                assert!(size(&heap, h) >= fib[rank + 2]);
            }
        }
    }
}

#[test]
fn delete_takes_the_named_element_among_equal_keys() {
    let mut heap: FibHeap<u8, &str> = FibHeap::new();
    let z1 = heap.insert(0, "first zero");
    let five = heap.insert(5, "five");
    let z2 = heap.insert(0, "second zero");
    assert_eq!(heap.delete(five), Ok((5, "five")));
    assert!(heap.contains(&z1) && heap.contains(&z2));
    assert_eq!(heap.delete(z2), Ok((0, "second zero")));
    assert_eq!(heap.delete_min(), Ok((0, "first zero")));
    assert!(heap.empty());
}

#[test]
fn delete_of_a_node_deep_in_a_tree_keeps_the_others() {
    let mut heap: FibHeap<u32, u32> = FibHeap::new();
    let mut handles = Vec::new();
    for k in 0..17u32 {
        handles.push(heap.insert(k, k));
    }
    assert_eq!(heap.delete_min(), Ok((0, 0)));
    let deep = handles.iter().find(|h| {
        heap.contains(h) && heap.get_parent(h).unwrap().map_or(false, |p| {
            heap.get_parent(&p).unwrap().is_some()
        })
    }).copied().unwrap();
    let key = heap.get_key(&deep).unwrap();
    assert_eq!(heap.delete(deep), Ok((key, key)));
    let mut out = Vec::new();
    while let Ok((k, _)) = heap.delete_min() {
        out.push(k);
    }
    let want: Vec<u32> = (1..17).filter(|k| *k != key).collect();
    assert_eq!(out, want);
}

#[test]
fn decrease_key_that_keeps_the_order_changes_no_link() {
    let mut heap: FibHeap<u32, u32> = FibHeap::new();
    heap.insert(10, 10);
    let twenty = heap.insert(20, 20);
    heap.insert(0, 0);
    heap.insert(30, 30);
    heap.delete_min().unwrap();
    let parent = heap.get_parent(&twenty).unwrap();
    let roots = heap.roots();
    assert!(parent.is_some());
    assert_eq!(heap.decrease_key(&twenty, 10), Ok(()));
    assert_eq!(heap.get_key(&twenty), Ok(10));
    assert_eq!(heap.get_parent(&twenty), Ok(parent));
    assert_eq!(heap.roots(), roots);
    assert_eq!(heap.get_marked(&parent.unwrap()), Ok(false));
}

#[test]
fn decrease_key_of_a_root_gives_the_root_list_a_new_front() {
    let mut heap: FibHeap<u32, u32> = FibHeap::new();
    heap.insert(10, 10);
    let twenty = heap.insert(20, 20);
    heap.insert(30, 30);
    assert_eq!(heap.decrease_key(&twenty, 15), Ok(()));
    assert_eq!(heap.root_count(), 3);
    assert_eq!(heap.roots()[0], twenty);
    assert_eq!(heap.find_min(), Ok((5, &20)));
    assert_eq!(heap.get_parent(&twenty), Ok(None));
}

#[test]
fn a_parent_that_loses_a_child_is_marked_and_cut_when_it_loses_another() {
    let mut heap: FibHeap<u32, u32> = FibHeap::new();
    let mut handles = Vec::new();
    for k in 0..9u32 {
        handles.push(heap.insert(k * 10, k));
    }
    heap.delete_min().unwrap();
    assert_eq!(heap.root_count(), 1);
    let inner = handles.iter().find(|h| {
        heap.contains(h) && heap.get_parent(h).unwrap().is_some() && heap.rank(h).unwrap() == 2
    }).copied().unwrap();
    let kids = heap.children(&inner).unwrap();
    assert_eq!(heap.get_marked(&inner), Ok(false));
    let k0 = heap.get_key(&kids[0]).unwrap();
    heap.decrease_key(&kids[0], k0 - 1).unwrap();
    assert_eq!(heap.get_parent(&kids[0]), Ok(None));
    assert_eq!(heap.get_marked(&inner), Ok(true));
    assert!(heap.get_parent(&inner).unwrap().is_some());
    assert_eq!(heap.root_count(), 2);
    let k1 = heap.get_key(&kids[1]).unwrap();
    heap.decrease_key(&kids[1], k1 - 2).unwrap();
    assert_eq!(heap.get_parent(&kids[1]), Ok(None));
    assert_eq!(heap.get_parent(&inner), Ok(None));
    assert_eq!(heap.get_marked(&inner), Ok(false));
    assert_eq!(heap.root_count(), 4);
    assert_eq!(heap.find_min(), Ok((1, &heap.get_value(&kids[0]).unwrap().clone())));
}

#[test]
fn decrease_key_refuses_what_would_leave_the_key_type() {
    let mut heap: FibHeap<u8, u8> = FibHeap::new();
    let h = heap.insert(3, 3);
    assert_eq!(heap.decrease_key(&h, 4), Err(HeapError::InvalidDelta));
    assert_eq!(heap.get_key(&h), Ok(3));
    assert_eq!(heap.decrease_key(&h, 3), Ok(()));
    assert_eq!(heap.get_key(&h), Ok(0));
    assert_eq!(heap.decrease_key(&h, 0), Ok(()));
    assert_eq!(heap.decrease_key(&h, 1), Err(HeapError::InvalidDelta));
}

#[test]
fn decrease_key_refuses_a_negative_delta() {
    let mut heap: FibHeap<i32, u8> = FibHeap::new();
    let h = heap.insert(3, 3);
    heap.insert(-7, 7);
    assert_eq!(heap.decrease_key(&h, -1), Err(HeapError::InvalidDelta));
    assert_eq!(heap.get_key(&h), Ok(3));
    assert_eq!(heap.decrease_key(&h, 20), Ok(()));
    assert_eq!(heap.find_min(), Ok((-17, &3)));
}

#[test]
fn merge_with_an_empty_heap_keeps_the_elements() {
    let mut a: FibHeap<u8, u8> = FibHeap::new();
    a.insert(3, 3);
    a.insert(1, 1);
    let b: FibHeap<u8, u8> = FibHeap::new();
    let m = a.merge(b);
    assert_eq!(m.len(), 2);
    assert_eq!(m.find_min(), Ok((1, &1)));

    let c: FibHeap<u8, u8> = FibHeap::new();
    let mut d: FibHeap<u8, u8> = FibHeap::new();
    d.insert(4, 4);
    d.insert(2, 2);
    let mut m = c.merge(d);
    assert_eq!(m.len(), 2);
    assert_eq!(m.delete_min(), Ok((2, 2)));
    assert_eq!(m.delete_min(), Ok((4, 4)));

    let e: FibHeap<u8, u8> = FibHeap::new();
    let f: FibHeap<u8, u8> = FibHeap::new();
    let m = e.merge(f);
    assert!(m.empty());
    assert_eq!(m.find_min(), Err(HeapError::EmptyHeap));
}

#[test]
fn merge_puts_the_roots_with_the_smaller_minimum_first() {
    let mut a: FibHeap<u8, char> = FibHeap::new();
    let a1 = a.insert(1, 'a');
    let a4 = a.insert(4, 'b');
    let mut b: FibHeap<u8, char> = FibHeap::new();
    let b5 = b.insert(5, 'c');
    let b3 = b.insert(3, 'd');
    let off = a.capacity();
    let m = a.merge(b);
    assert_eq!(m.roots(), vec![a1, a4, b3.rebased(off).unwrap(), b5.rebased(off).unwrap()]);

    let mut a: FibHeap<u8, char> = FibHeap::new();
    let a2 = a.insert(2, 'a');
    let mut b: FibHeap<u8, char> = FibHeap::new();
    let b2 = b.insert(2, 'c');
    let off = a.capacity();
    let m = a.merge(b);
    assert_eq!(m.roots(), vec![b2.rebased(off).unwrap(), a2]);
}

#[test]
fn merged_trees_keep_their_shape() {
    let mut a: FibHeap<u32, u32> = FibHeap::new();
    for k in 0..5u32 {
        a.insert(k, k);
    }
    a.delete_min().unwrap();
    let mut b: FibHeap<u32, u32> = FibHeap::new();
    let mut hb = Vec::new();
    for k in 10..15u32 {
        hb.push(b.insert(k, k));
    }
    b.delete_min().unwrap();
    let parents: Vec<Option<Handle>> = hb[1..].iter().map(|h| b.get_parent(h).unwrap()).collect();
    let off = a.capacity();
    let roots = a.root_count() + b.root_count();
    let mut m = a.merge(b);
    assert_eq!(m.root_count(), roots);
    for (h, p) in hb[1..].iter().zip(parents.iter()) {
        let moved = h.rebased(off).unwrap();
        assert_eq!(m.get_parent(&moved), Ok(p.map(|p| p.rebased(off).unwrap())));
    }
    let mut out = Vec::new();
    while let Ok((k, _)) = m.delete_min() {
        out.push(k);
    }
    assert_eq!(out, vec![1, 2, 3, 4, 11, 12, 13, 14]);
}
