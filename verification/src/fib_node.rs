//! Handles, nodes and the slots of the arena that hold them.
use vstd::prelude::*;
use std::collections::VecDeque;

verus! {

/// Names one element of a heap: the slot it lives in and the generation of
/// that slot at the time the element was stored.
///
/// A handle is only a name. Whether it still names a live element is decided
/// by the heap that issued it.
#[derive(Clone, Copy, Debug, PartialEq, Eq, Hash, Structural)]
pub struct Handle {
    pub(crate) index: usize,
    pub(crate) generation: u64,
}

impl Handle {
    /// The slot that the handle names.
    pub open(crate) spec fn slot(self) -> usize {
        self.index
    }

    /// The handle `offset` slots further on, with the same generation.
    pub open(crate) spec fn spec_rebased(self, offset: usize) -> Option<Handle> {
        if self.index + offset <= usize::MAX {
            Some(Handle { index: (self.index + offset) as usize, generation: self.generation })
        } else {
            None
        }
    }

    /// The name that an element of a heap bears after that heap was merged
    /// into another one whose arena held `offset` slots.
    pub fn rebased(self, offset: usize) -> (r: Option<Handle>)
        ensures
            r == self.spec_rebased(offset),
    {
        if self.index <= usize::MAX - offset {
            Some(Handle { index: self.index + offset, generation: self.generation })
        } else {
            None
        }
    }
}

/// The error of `remove_child`: the node has no such child.
#[derive(Clone, Copy, Debug, PartialEq, Eq)]
pub struct NotFound;

/// What a node is, as plain mathematical data.
pub struct NodeView<K, V> {
    pub parent: Option<usize>,
    pub children: Seq<usize>,
    pub marked: bool,
    pub key: K,
    pub value: V,
}

/// The number of elements of `s` that stand before the first `x`; the length
/// of `s` where `x` does not occur.
pub open spec fn position_of(s: Seq<usize>, x: usize) -> int
    decreases s.len(),
{
    if s.len() == 0 || s[0] == x {
        0
    } else {
        1 + position_of(s.subrange(1, s.len() as int), x)
    }
}

/// `s` without its first `x`: what stood behind it, then what stood before it.
pub open spec fn without_child(s: Seq<usize>, x: usize) -> Seq<usize> {
    let p = position_of(s, x);
    s.subrange(p + 1, s.len() as int) + s.subrange(0, p)
}

/// `position_of` finds the first occurrence, and only where there is one.
pub proof fn lemma_position_of(s: Seq<usize>, x: usize)
    ensures
        0 <= position_of(s, x) <= s.len(),
        position_of(s, x) < s.len() <==> s.contains(x),
        position_of(s, x) < s.len() ==> s[position_of(s, x)] == x,
        forall|j: int| 0 <= j < position_of(s, x) ==> s[j] != x,
    decreases s.len(),
{
    if s.len() > 0 && s[0] != x {
        let t = s.subrange(1, s.len() as int);
        lemma_position_of(t, x);
        assert forall|j: int| 0 <= j < position_of(s, x) implies s[j] != x by {
            if j > 0 {
                assert(t[j - 1] == s[j]);
            }
        }
    }
}

/// Taking `x` out of a sequence without duplicates leaves the others, each
/// once.
pub proof fn lemma_without_child(s: Seq<usize>, x: usize)
    requires
        s.no_duplicates(),
        s.contains(x),
    ensures
        without_child(s, x).no_duplicates(),
        without_child(s, x).len() == s.len() - 1,
        forall|y: usize| #[trigger] without_child(s, x).contains(y) <==> s.contains(y) && y != x,
{
    lemma_position_of(s, x);
    let p = position_of(s, x);
    let r = without_child(s, x);
    let back = s.subrange(p + 1, s.len() as int);
    assert forall|a: int, b: int| 0 <= a < r.len() && 0 <= b < r.len() && a != b implies r[a]
        != r[b] by {}
    assert forall|y: usize| #[trigger] r.contains(y) <==> s.contains(y) && y != x by {
        if s.contains(y) && y != x {
            let j = choose|j: int| 0 <= j < s.len() && s[j] == y;
            if j > p {
                assert(r[j - p - 1] == y);
            } else {
                assert(r[j + back.len()] == y);
            }
        }
    }
}

/// The record of one element: its key and value, and its place in the forest.
///
/// A node refers to its parent and to its children by their slots in the
/// arena of the heap that owns it.
pub struct Inner<K, V> {
    parent: Option<usize>,
    children: VecDeque<usize>,
    marked: bool,
    key: K,
    value: V,
}

impl<K, V> View for Inner<K, V> {
    type V = NodeView<K, V>;

    closed spec fn view(&self) -> NodeView<K, V> {
        NodeView {
            parent: self.parent,
            children: self.children@,
            marked: self.marked,
            key: self.key,
            value: self.value,
        }
    }
}

impl<K, V> Inner<K, V> {
    /// A node of rank 0, unmarked and without a parent.
    pub fn new(key: K, value: V) -> (node: Self)
        ensures
            node@ == (NodeView {
                parent: None,
                children: Seq::<usize>::empty(),
                marked: false,
                key,
                value,
            }),
    {
        Inner { parent: None, children: VecDeque::new(), marked: false, key, value }
    }

    /// The number of children.
    pub fn rank(&self) -> (r: usize)
        ensures
            r == self@.children.len(),
    {
        self.children.len()
    }

    /// The child at place `at`.
    pub fn get_child(&self, at: usize) -> (child: usize)
        requires
            at < self@.children.len(),
        ensures
            child == self@.children[at as int],
    {
        self.children[at]
    }

    /// Appends a child.
    pub fn add_child(&mut self, child: usize)
        ensures
            final(self)@ == (NodeView {
                children: old(self)@.children.push(child),
                ..old(self)@
            }),
    {
        self.children.push_back(child);
    }

    /// Removes the first occurrence of `child` among the children. The children
    /// that stood behind it come to stand before those that stood before it.
    pub fn remove_child(&mut self, child: usize) -> (r: Result<usize, NotFound>)
        ensures
            r.is_ok() <==> old(self)@.children.contains(child),
            r matches Ok(c) ==> c == child && final(self)@ == (NodeView {
                children: without_child(old(self)@.children, child),
                ..old(self)@
            }),
            r is Err ==> final(self)@ == old(self)@,
    {
        let ghost all = self.children@;
        let ghost at = position_of(all, child);
        proof {
            lemma_position_of(all, child);
        }
        let n: usize = self.children.len();
        let mut turned: usize = 0;
        while turned < n
            invariant
                all == old(self)@.children,
                n == all.len(),
                at == position_of(all, child),
                turned <= at <= n,
                at < n ==> all[at] == child,
                at < n <==> all.contains(child),
                self.parent == old(self).parent,
                self.marked == old(self).marked,
                self.key == old(self).key,
                self.value == old(self).value,
                self.children@ == all.subrange(turned as int, n as int) + all.subrange(
                    0,
                    turned as int,
                ),
            decreases n - turned,
        {
            let c: usize = self.children.pop_front().unwrap();
            if c == child {
                proof {
                    lemma_position_of(all, child);
                    assert(self.children@ =~= without_child(all, child));
                }
                return Ok(c);
            }
            self.children.push_back(c);
            turned = turned + 1;
        }
        Err(NotFound)
    }

    /// Sets the mark.
    pub fn set_marked(&mut self, mark: bool)
        ensures
            final(self)@ == (NodeView { marked: mark, ..old(self)@ }),
    {
        self.marked = mark;
    }

    /// Whether the node is marked.
    pub fn get_marked(&self) -> (m: bool)
        ensures
            m == self@.marked,
    {
        self.marked
    }

    /// Replaces the key.
    pub fn set_key(&mut self, key: K)
        ensures
            final(self)@ == (NodeView { key, ..old(self)@ }),
    {
        self.key = key;
    }

    /// Replaces the reference to the parent.
    pub fn set_parent(&mut self, parent: Option<usize>)
        ensures
            final(self)@ == (NodeView { parent, ..old(self)@ }),
    {
        self.parent = parent;
    }

    /// The slot of the parent; `None` for a root.
    pub fn get_parent(&self) -> (p: Option<usize>)
        ensures
            p == self@.parent,
    {
        self.parent
    }

    /// Empties the collection of children and hands out what it held, in order.
    pub fn drain_children(&mut self) -> (former: VecDeque<usize>)
        ensures
            former@ == old(self)@.children,
            final(self)@ == (NodeView { children: Seq::<usize>::empty(), ..old(self)@ }),
    {
        let mut former: VecDeque<usize> = VecDeque::new();
        std::mem::swap(&mut former, &mut self.children);
        former
    }

    /// Takes a node that is linked to no other apart into its key and value.
    pub fn into_inner(self) -> (kv: (K, V))
        requires
            self@.parent is None,
            self@.children.len() == 0,
        ensures
            kv.0 == self@.key,
            kv.1 == self@.value,
    {
        (self.key, self.value)
    }

    /// The value.
    pub fn get_value(&self) -> (v: &V)
        ensures
            *v == self@.value,
    {
        &self.value
    }

    /// Moves the references to the parent and to the children `offset` slots
    /// further on, as they must be after the arena was appended to another
    /// one of `offset` slots.
    pub fn shift_links(&mut self, offset: usize)
        requires
            old(self)@.parent matches Some(p) ==> p + offset <= usize::MAX,
            forall|j: int|
                0 <= j < old(self)@.children.len() ==> old(self)@.children[j] + offset
                    <= usize::MAX,
        ensures
            final(self)@ == shift_node(old(self)@, offset),
    {
        if let Some(p) = self.parent {
            self.parent = Some(p + offset);
        }
        let n: usize = self.children.len();
        let mut turned: usize = 0;
        while turned < n
            invariant
                turned <= n,
                n == old(self)@.children.len(),
                self.parent == shift_node(old(self)@, offset).parent,
                self.marked == old(self).marked,
                self.key == old(self).key,
                self.value == old(self).value,
                forall|j: int|
                    0 <= j < old(self)@.children.len() ==> old(self)@.children[j] + offset
                        <= usize::MAX,
                self.children@ == old(self)@.children.subrange(turned as int, n as int)
                    + shift_seq(old(self)@.children.subrange(0, turned as int), offset),
            decreases n - turned,
        {
            let c: usize = self.children.pop_front().unwrap();
            self.children.push_back(c + offset);
            turned = turned + 1;
        }
        proof {
            let all = old(self)@.children;
            assert(all.subrange(0, n as int) =~= all);
        }
    }

    /// The key.
    pub fn get_key(&self) -> (k: &K)
        ensures
            *k == self@.key,
    {
        &self.key
    }
}

/// What a slot of the arena is, as plain mathematical data.
pub struct SlotView<K, V> {
    pub generation: u64,
    pub node: Option<NodeView<K, V>>,
}

/// The slots in `s`, each `off` further on.
pub open spec fn shift_seq(s: Seq<usize>, off: usize) -> Seq<usize> {
    Seq::new(s.len(), |j: int| (s[j] + off) as usize)
}

/// The node `n` as it is in an arena in which every slot is `off` further on.
pub open spec fn shift_node<K, V>(n: NodeView<K, V>, off: usize) -> NodeView<K, V> {
    NodeView {
        parent: match n.parent {
            Some(p) => Some((p + off) as usize),
            None => None,
        },
        children: shift_seq(n.children, off),
        ..n
    }
}

/// The slot `s` as it is in an arena in which every slot is `off` further on.
pub open spec fn shift_slot<K, V>(s: SlotView<K, V>, off: usize) -> SlotView<K, V> {
    SlotView {
        generation: s.generation,
        node: match s.node {
            Some(n) => Some(shift_node(n, off)),
            None => None,
        },
    }
}

/// The handle `off` slots further on.
pub open(crate) spec fn shift_handle(h: Handle, off: usize) -> Handle {
    Handle { index: (h.index + off) as usize, generation: h.generation }
}

/// One slot of a heap's arena: it holds a node or is vacant, and counts how
/// often it has been vacated.
///
/// A handle names a slot together with a generation, so a handle to an element
/// that was removed no longer matches once the slot has been vacated.
pub struct FibNode<K, V> {
    generation: u64,
    inner: Option<Inner<K, V>>,
}

impl<K, V> View for FibNode<K, V> {
    type V = SlotView<K, V>;

    closed spec fn view(&self) -> SlotView<K, V> {
        SlotView {
            generation: self.generation,
            node: match self.inner {
                Some(n) => Some(n@),
                None => None,
            },
        }
    }
}

impl<K, V> FibNode<K, V> {
    /// A slot of generation 0 that holds a fresh node: rank 0, unmarked, no
    /// parent.
    pub fn new(key: K, value: V) -> (slot: Self)
        ensures
            slot@ == (SlotView {
                generation: 0,
                node: Some(
                    NodeView {
                        parent: None,
                        children: Seq::<usize>::empty(),
                        marked: false,
                        key,
                        value,
                    },
                ),
            }),
    {
        FibNode { generation: 0, inner: Some(Inner::new(key, value)) }
    }

    /// Whether the slot holds a node.
    pub fn is_live(&self) -> (b: bool)
        ensures
            b == self@.node.is_some(),
    {
        self.inner.is_some()
    }

    /// How often the slot has been vacated.
    pub fn generation(&self) -> (g: u64)
        ensures
            g == self@.generation,
    {
        self.generation
    }

    /// Stores a fresh node in a vacant slot. The generation stays.
    pub fn occupy(&mut self, key: K, value: V)
        requires
            old(self)@.node is None,
        ensures
            final(self)@ == (SlotView {
                generation: old(self)@.generation,
                node: Some(
                    NodeView {
                        parent: None,
                        children: Seq::<usize>::empty(),
                        marked: false,
                        key,
                        value,
                    },
                ),
            }),
    {
        self.inner = Some(Inner::new(key, value));
    }

    /// Takes the node out of the slot and moves the slot on to its next
    /// generation.
    pub fn vacate(&mut self) -> (node: Inner<K, V>)
        requires
            old(self)@.node is Some,
            old(self)@.generation < u64::MAX,
        ensures
            node@ == old(self)@.node.unwrap(),
            final(self)@ == (SlotView::<K, V> {
                generation: (old(self)@.generation + 1) as u64,
                node: None,
            }),
    {
        self.generation = self.generation + 1;
        self.inner.take().unwrap()
    }

    /// The number of children of the node.
    pub fn rank(&self) -> (r: usize)
        requires
            self@.node is Some,
        ensures
            r == self@.node.unwrap().children.len(),
    {
        self.inner.as_ref().unwrap().rank()
    }

    /// The child of the node at place `at`.
    pub fn get_child(&self, at: usize) -> (child: usize)
        requires
            self@.node is Some,
            at < self@.node.unwrap().children.len(),
        ensures
            child == self@.node.unwrap().children[at as int],
    {
        self.inner.as_ref().unwrap().get_child(at)
    }

    /// Appends a child to the node.
    pub fn add_child(&mut self, child: usize)
        requires
            old(self)@.node is Some,
        ensures
            final(self)@ == (SlotView {
                node: Some(
                    NodeView {
                        children: old(self)@.node.unwrap().children.push(child),
                        ..old(self)@.node.unwrap()
                    },
                ),
                ..old(self)@
            }),
    {
        self.inner.as_mut().unwrap().add_child(child);
    }

    /// Removes the first occurrence of `child` among the node's children. The
    /// children that stood behind it come to stand before those that stood
    /// before it.
    pub fn remove_child(&mut self, child: usize) -> (r: Result<usize, NotFound>)
        requires
            old(self)@.node is Some,
        ensures
            r.is_ok() <==> old(self)@.node.unwrap().children.contains(child),
            r matches Ok(c) ==> c == child && final(self)@ == (SlotView {
                node: Some(
                    NodeView {
                        children: without_child(old(self)@.node.unwrap().children, child),
                        ..old(self)@.node.unwrap()
                    },
                ),
                ..old(self)@
            }),
            r is Err ==> final(self)@ == old(self)@,
    {
        self.inner.as_mut().unwrap().remove_child(child)
    }

    /// Sets the mark of the node.
    pub fn set_marked(&mut self, mark: bool)
        requires
            old(self)@.node is Some,
        ensures
            final(self)@ == (SlotView {
                node: Some(NodeView { marked: mark, ..old(self)@.node.unwrap() }),
                ..old(self)@
            }),
    {
        self.inner.as_mut().unwrap().set_marked(mark);
    }

    /// Whether the node is marked.
    pub fn get_marked(&self) -> (m: bool)
        requires
            self@.node is Some,
        ensures
            m == self@.node.unwrap().marked,
    {
        self.inner.as_ref().unwrap().get_marked()
    }

    /// Replaces the key of the node.
    pub fn set_key(&mut self, key: K)
        requires
            old(self)@.node is Some,
        ensures
            final(self)@ == (SlotView {
                node: Some(NodeView { key, ..old(self)@.node.unwrap() }),
                ..old(self)@
            }),
    {
        self.inner.as_mut().unwrap().set_key(key);
    }

    /// Replaces the node's reference to its parent.
    pub fn set_parent(&mut self, parent: Option<usize>)
        requires
            old(self)@.node is Some,
        ensures
            final(self)@ == (SlotView {
                node: Some(NodeView { parent, ..old(self)@.node.unwrap() }),
                ..old(self)@
            }),
    {
        self.inner.as_mut().unwrap().set_parent(parent);
    }

    /// The slot of the node's parent; `None` for a root.
    pub fn get_parent(&self) -> (p: Option<usize>)
        requires
            self@.node is Some,
        ensures
            p == self@.node.unwrap().parent,
    {
        self.inner.as_ref().unwrap().get_parent()
    }

    /// Empties the node's collection of children and hands out what it held,
    /// in order.
    pub fn drain_children(&mut self) -> (former: VecDeque<usize>)
        requires
            old(self)@.node is Some,
        ensures
            former@ == old(self)@.node.unwrap().children,
            final(self)@ == (SlotView {
                node: Some(
                    NodeView { children: Seq::<usize>::empty(), ..old(self)@.node.unwrap() },
                ),
                ..old(self)@
            }),
    {
        self.inner.as_mut().unwrap().drain_children()
    }

    /// Takes a slot whose node is linked to no other apart into the node's key
    /// and value.
    pub fn into_inner(self) -> (kv: (K, V))
        requires
            self@.node is Some,
            self@.node.unwrap().parent is None,
            self@.node.unwrap().children.len() == 0,
        ensures
            kv.0 == self@.node.unwrap().key,
            kv.1 == self@.node.unwrap().value,
    {
        self.inner.unwrap().into_inner()
    }

    /// The value of the node.
    pub fn get_value(&self) -> (v: &V)
        requires
            self@.node is Some,
        ensures
            *v == self@.node.unwrap().value,
    {
        self.inner.as_ref().unwrap().get_value()
    }

    /// Moves the node's references to its parent and to its children `offset`
    /// slots further on. A vacant slot stays as it is.
    pub fn shift_links(&mut self, offset: usize)
        requires
            old(self)@.node matches Some(n) ==> {
                &&& (n.parent matches Some(p) ==> p + offset <= usize::MAX)
                &&& forall|j: int|
                    0 <= j < n.children.len() ==> n.children[j] + offset <= usize::MAX
            },
        ensures
            final(self)@ == shift_slot(old(self)@, offset),
    {
        match &mut self.inner {
            Some(n) => {
                n.shift_links(offset);
            },
            None => {},
        }
    }

    /// The key of the node.
    pub fn get_key(&self) -> (k: &K)
        requires
            self@.node is Some,
        ensures
            *k == self@.node.unwrap().key,
    {
        self.inner.as_ref().unwrap().get_key()
    }
}

} // verus!
