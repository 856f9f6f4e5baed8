//! A mergeable priority queue: a Fibonacci heap whose elements are named by
//! handles.
//!
//! The heap keeps its nodes in an arena. A handle names a slot of the arena
//! together with the generation of the slot, so that a handle to an element
//! that was removed is told apart from a handle to the element that took its
//! slot. All links between nodes are slots of the arena.
//!
//! The contracts speak of a heap in two ways: as a map from handles to keys
//! and values, and as a forest, the mathematical model of the arena and the
//! root list on which the steps of every operation are defined.
use vstd::prelude::*;
use crate::key::HeapKey;

pub mod arena;
pub mod census;
pub mod fib;
pub mod fib_node;
pub mod fibonacci_heap;
pub mod forest;
pub mod join;
pub mod key;
pub mod laws;
pub mod moves;
pub mod node_order;
pub mod ranks;
pub mod steps;

verus! {

/// Why an operation of a heap did nothing.
#[derive(Clone, Copy, Debug, PartialEq, Eq, Structural)]
pub enum HeapError {
    /// The heap holds no element.
    EmptyHeap,
    /// The entry names an element that is no longer in the heap.
    UseAfterRemoval,
    /// The key cannot be lowered by this amount: the amount is negative, or
    /// the key type has no value that far down.
    InvalidDelta,
}

/// `h` is an element of `m` and no element of `m` has a key below its key.
pub open spec fn is_least<H, K: HeapKey, V>(m: Map<H, (K, V)>, h: H) -> bool {
    &&& m.contains_key(h)
    &&& forall|o: H| m.contains_key(o) ==> m[h].0.priority() <= (#[trigger] m[o]).0.priority()
}

/// A priority queue whose elements are named by entries.
pub trait Heap<K: HeapKey, V> {
    /// The name by which the heap knows an element.
    type HeapEntry;

    /// The invariant of the heap.
    spec fn wf(&self) -> bool;

    /// The elements of the heap, by entry.
    spec fn elements(&self) -> Map<Self::HeapEntry, (K, V)>;

    /// A heap has finitely many elements.
    proof fn lemma_finite(&self)
        requires
            self.wf(),
        ensures
            self.elements().dom().finite(),
    ;

    /// The key and the value of an element with the least key;
    /// `EmptyHeap` where there is none.
    fn find_min(&self) -> (r: Result<(K, &V), HeapError>)
        requires
            self.wf(),
        ensures
            r is Err <==> self.elements().len() == 0,
            r matches Err(e) ==> e == HeapError::EmptyHeap,
            r matches Ok(kv) ==> exists|h: Self::HeapEntry|
                is_least(self.elements(), h) && self.elements()[h] == (kv.0, *kv.1),
    ;

    /// Removes an element with the least key and returns its key and value;
    /// `EmptyHeap` where there is none.
    fn delete_min(&mut self) -> (r: Result<(K, V), HeapError>)
        requires
            old(self).wf(),
        ensures
            final(self).wf(),
            r is Err <==> old(self).elements().len() == 0,
            r matches Err(e) ==> e == HeapError::EmptyHeap,
            r is Err ==> final(self).elements() == old(self).elements(),
            r matches Ok(kv) ==> exists|h: Self::HeapEntry|
                {
                    &&& is_least(old(self).elements(), h)
                    &&& old(self).elements()[h] == kv
                    &&& final(self).elements() == old(self).elements().remove(h)
                },
    ;

    /// Adds an element and returns the entry that names it from now on.
    fn insert(&mut self, key: K, value: V) -> (entry: Self::HeapEntry)
        requires
            old(self).wf(),
        ensures
            final(self).wf(),
            !old(self).elements().contains_key(entry),
            final(self).elements() == old(self).elements().insert(entry, (key, value)),
    ;

    /// Lowers the key of the element that `entry` names by `delta`.
    /// `UseAfterRemoval` where `entry` names no element of the heap;
    /// `InvalidDelta` where the key cannot be lowered by `delta`.
    fn decrease_key(&mut self, entry: &Self::HeapEntry, delta: K) -> (r: Result<(), HeapError>)
        requires
            old(self).wf(),
        ensures
            final(self).wf(),
            r is Ok <==> {
                &&& old(self).elements().contains_key(*entry)
                &&& old(self).elements()[*entry].0.spec_decreased(delta) is Some
            },
            r is Err ==> final(self).elements() == old(self).elements(),
            r matches Err(e) ==> e == if old(self).elements().contains_key(*entry) {
                HeapError::InvalidDelta
            } else {
                HeapError::UseAfterRemoval
            },
            r is Ok ==> final(self).elements() == old(self).elements().insert(
                *entry,
                (
                    old(self).elements()[*entry].0.spec_decreased(delta).unwrap(),
                    old(self).elements()[*entry].1,
                ),
            ),
    ;

    /// Whether the heap holds no element.
    fn empty(&self) -> (b: bool)
        requires
            self.wf(),
        ensures
            b == (self.elements().len() == 0),
    ;
}

/// A heap that can take in all elements of another one.
pub trait HeapExt<K: HeapKey, V>: Heap<K, V> + Sized {
    /// The heap that holds the elements of both, and no others. Under which
    /// entries it holds them is for the heap to say.
    fn merge(self, other: Self) -> (merged: Self)
        requires
            self.wf(),
            other.wf(),
        ensures
            merged.wf(),
            merged.elements().len() == self.elements().len() + other.elements().len(),
            forall|h: Self::HeapEntry| #[trigger]
                self.elements().contains_key(h) ==> exists|m: Self::HeapEntry|
                    merged.elements().contains_key(m) && #[trigger] merged.elements()[m]
                        == self.elements()[h],
            forall|h: Self::HeapEntry| #[trigger]
                other.elements().contains_key(h) ==> exists|m: Self::HeapEntry|
                    merged.elements().contains_key(m) && #[trigger] merged.elements()[m]
                        == other.elements()[h],
    ;
}

/// A heap from which any element can be removed.
pub trait HeapDelete<K: HeapKey, V>: Heap<K, V> {
    /// Removes the element that `entry` names and returns its key and value;
    /// `UseAfterRemoval` where `entry` names no element of the heap.
    fn delete(&mut self, entry: Self::HeapEntry) -> (r: Result<(K, V), HeapError>)
        requires
            old(self).wf(),
        ensures
            final(self).wf(),
            r is Ok <==> old(self).elements().contains_key(entry),
            r matches Err(e) ==> e == HeapError::UseAfterRemoval,
            r is Err ==> final(self).elements() == old(self).elements(),
            r matches Ok(kv) ==> old(self).elements()[entry] == kv,
            r is Ok ==> final(self).elements() == old(self).elements().remove(entry),
    ;
}

} // verus!
