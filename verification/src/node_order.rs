//! Nodes and slots compare by key.
use std::cmp::Ordering;
use vstd::prelude::*;
use vstd::std_specs::cmp::{PartialEqSpecImpl, PartialOrdSpecImpl};
use crate::fib_node::{FibNode, Inner};
use crate::key::HeapKey;

verus! {

/// Nodes are equal where their keys have the same priority.
impl<K: HeapKey, V> PartialEq for Inner<K, V> {
    fn eq(&self, other: &Self) -> (b: bool) {
        !self.get_key().less_than(other.get_key()) && !other.get_key().less_than(self.get_key())
    }
}

impl<K: HeapKey, V> PartialEqSpecImpl for Inner<K, V> {
    open spec fn obeys_eq_spec() -> bool {
        true
    }

    open spec fn eq_spec(&self, other: &Self) -> bool {
        self@.key.priority() == other@.key.priority()
    }
}

/// Nodes are ordered by the priorities of their keys.
impl<K: HeapKey, V> PartialOrd for Inner<K, V> {
    fn partial_cmp(&self, other: &Self) -> (r: Option<Ordering>) {
        if self.get_key().less_than(other.get_key()) {
            Some(Ordering::Less)
        } else if other.get_key().less_than(self.get_key()) {
            Some(Ordering::Greater)
        } else {
            Some(Ordering::Equal)
        }
    }
}

impl<K: HeapKey, V> PartialOrdSpecImpl for Inner<K, V> {
    open spec fn obeys_partial_cmp_spec() -> bool {
        true
    }

    open spec fn partial_cmp_spec(&self, other: &Self) -> Option<Ordering> {
        if self@.key.priority() < other@.key.priority() {
            Some(Ordering::Less)
        } else if other@.key.priority() < self@.key.priority() {
            Some(Ordering::Greater)
        } else {
            Some(Ordering::Equal)
        }
    }
}

/// Slots that hold a node are equal where the nodes are; vacant slots are
/// equal to each other and to no other.
impl<K: HeapKey, V> PartialEq for FibNode<K, V> {
    fn eq(&self, other: &Self) -> (b: bool) {
        if self.is_live() && other.is_live() {
            !self.get_key().less_than(other.get_key()) && !other.get_key().less_than(
                self.get_key(),
            )
        } else {
            !self.is_live() && !other.is_live()
        }
    }
}

impl<K: HeapKey, V> PartialEqSpecImpl for FibNode<K, V> {
    open spec fn obeys_eq_spec() -> bool {
        true
    }

    open spec fn eq_spec(&self, other: &Self) -> bool {
        match (self@.node, other@.node) {
            (Some(a), Some(b)) => a.key.priority() == b.key.priority(),
            (None, None) => true,
            _ => false,
        }
    }
}

/// Slots that hold a node are ordered as the nodes are; a vacant slot is
/// comparable only to a vacant slot.
impl<K: HeapKey, V> PartialOrd for FibNode<K, V> {
    fn partial_cmp(&self, other: &Self) -> (r: Option<Ordering>) {
        if self.is_live() && other.is_live() {
            if self.get_key().less_than(other.get_key()) {
                Some(Ordering::Less)
            } else if other.get_key().less_than(self.get_key()) {
                Some(Ordering::Greater)
            } else {
                Some(Ordering::Equal)
            }
        } else if !self.is_live() && !other.is_live() {
            Some(Ordering::Equal)
        } else {
            None
        }
    }
}

impl<K: HeapKey, V> PartialOrdSpecImpl for FibNode<K, V> {
    open spec fn obeys_partial_cmp_spec() -> bool {
        true
    }

    open spec fn partial_cmp_spec(&self, other: &Self) -> Option<Ordering> {
        match (self@.node, other@.node) {
            (Some(a), Some(b)) => {
                if a.key.priority() < b.key.priority() {
                    Some(Ordering::Less)
                } else if b.key.priority() < a.key.priority() {
                    Some(Ordering::Greater)
                } else {
                    Some(Ordering::Equal)
                }
            },
            (None, None) => Some(Ordering::Equal),
            _ => None,
        }
    }
}

} // verus!
