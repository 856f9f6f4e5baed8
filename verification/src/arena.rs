//! The arena as mathematical data, and the invariant that the links in it
//! obey.
use vstd::prelude::*;
use crate::fib_node::{Handle, NodeView, SlotView};
use crate::key::HeapKey;

verus! {

/// The arena of a heap as plain mathematical data: the slots, the list of
/// vacant slots that may be used again, and the number of elements. Two
/// things are kept for every slot for the sake of the invariant only: a
/// height, a number that is larger at a parent than at each of its children,
/// and the rank that the node had when it last became a child.
pub struct Arena<K, V> {
    pub slots: Seq<SlotView<K, V>>,
    pub free: Seq<usize>,
    pub total: usize,
    pub heights: Seq<nat>,
    pub links: Seq<nat>,
}

/// How many of the nodes in `cs` became children at a rank below `m`.
pub open spec fn count_below(cs: Seq<usize>, links: Seq<nat>, m: nat) -> nat
    decreases cs.len(),
{
    if cs.len() == 0 {
        0
    } else {
        count_below(cs.drop_last(), links, m) + if links[cs.last() as int] < m {
            1nat
        } else {
            0nat
        }
    }
}

/// A node as it is when it enters a heap: rank 0, unmarked, no parent.
pub open spec fn fresh_node<K, V>(key: K, value: V) -> NodeView<K, V> {
    NodeView { parent: None, children: Seq::<usize>::empty(), marked: false, key, value }
}

impl<K: HeapKey, V> Arena<K, V> {
    /// Slot `i` exists and holds a node.
    pub open spec fn live(self, i: usize) -> bool {
        i < self.slots.len() && self.slots[i as int].node is Some
    }

    /// The node in slot `i`.
    pub open spec fn node(self, i: usize) -> NodeView<K, V> {
        self.slots[i as int].node.unwrap()
    }

    /// The priority of the node in slot `i`.
    pub open spec fn prio(self, i: usize) -> int {
        self.node(i).key.priority()
    }

    /// The number of children of the node in slot `i`.
    pub open spec fn rank(self, i: usize) -> nat {
        self.node(i).children.len()
    }

    /// Slot `i` holds a node without a parent.
    pub open spec fn is_top(self, i: usize) -> bool {
        self.live(i) && self.node(i).parent is None
    }

    /// The children of `i` are distinct live nodes that name `i` as their parent.
    pub open spec fn children_ok(self, i: usize) -> bool {
        let c = self.node(i).children;
        &&& c.no_duplicates()
        &&& forall|j: int|
            0 <= j < c.len() ==> self.live(#[trigger] c[j]) && self.node(c[j]).parent == Some(i)
    }

    /// The parent of `i` is a live node that lists `i` among its children and
    /// stands higher; a node without a parent is unmarked.
    pub open spec fn parent_ok(self, i: usize) -> bool {
        match self.node(i).parent {
            Some(p) => {
                &&& self.live(p)
                &&& self.node(p).children.contains(i)
                &&& self.heights[i as int] < self.heights[p as int]
            },
            None => !self.node(i).marked,
        }
    }

    /// The key of `i` is not below that of its parent.
    pub open spec fn order_ok(self, i: usize) -> bool {
        match self.node(i).parent {
            Some(p) => self.prio(p) <= self.prio(i),
            None => true,
        }
    }

    /// Parents and children agree throughout the arena.
    pub open spec fn shape_wf(self) -> bool {
        &&& self.heights.len() == self.slots.len()
        &&& forall|i: usize| #[trigger] self.live(i) ==> self.children_ok(i) && self.parent_ok(i)
    }

    /// Heap order holds at every node but possibly `x`.
    pub open spec fn order_wf_but(self, x: Option<usize>) -> bool {
        forall|i: usize| #[trigger] self.live(i) && x != Some(i) ==> self.order_ok(i)
    }

    /// Heap order holds at every node.
    pub open spec fn order_wf(self) -> bool {
        self.order_wf_but(None)
    }

    /// A node with a parent has lost at most one child since it became a
    /// child, and is marked if it has lost one. The node `x` may have lost
    /// one more.
    pub open spec fn rank_ok(self, i: usize, x: Option<usize>) -> bool {
        self.node(i).parent is Some ==> self.links[i as int] <= self.rank(i) + (if self.node(
            i,
        ).marked {
            1nat
        } else {
            0nat
        }) + (if x == Some(i) {
            1nat
        } else {
            0nat
        })
    }

    /// For every number `m`, at most `m` children of `p` became its children
    /// at a rank below `m`.
    pub open spec fn brood_ok(self, p: usize) -> bool {
        forall|m: nat| #[trigger] count_below(self.node(p).children, self.links, m) <= m
    }

    /// The ranks are large enough throughout the arena, but possibly for one
    /// child that the node `x` has just lost.
    pub open spec fn fib_wf_but(self, x: Option<usize>) -> bool {
        &&& self.links.len() == self.slots.len()
        &&& forall|i: usize| #[trigger] self.live(i) ==> self.rank_ok(i, x) && self.brood_ok(i)
    }

    /// The ranks are large enough throughout the arena.
    pub open spec fn fib_wf(self) -> bool {
        self.fib_wf_but(None)
    }

    /// The slots on the free list are distinct and vacant, and neither they
    /// nor the live slots have reached the last generation.
    pub open spec fn free_wf(self) -> bool {
        &&& self.free.no_duplicates()
        &&& forall|k: int|
            0 <= k < self.free.len() ==> {
                &&& (#[trigger] self.free[k]) < self.slots.len()
                &&& !self.live(self.free[k])
                &&& self.slots[self.free[k] as int].generation < u64::MAX
            }
        &&& forall|i: usize| #[trigger] self.live(i) ==> self.slots[i as int].generation < u64::MAX
    }

    /// For every slot its generation and, where it holds a node, the key and
    /// value of that node.
    pub open spec fn payload(self) -> Seq<(u64, Option<(K, V)>)> {
        Seq::new(
            self.slots.len(),
            |i: int|
                (
                    self.slots[i].generation,
                    match self.slots[i].node {
                        Some(n) => Some((n.key, n.value)),
                        None => None,
                    },
                ),
        )
    }

    /// The handle under which the node in slot `i` is known.
    pub open(crate) spec fn handle_of(self, i: usize) -> Handle {
        Handle { index: i, generation: self.slots[i as int].generation }
    }

    /// `h` names a node that is in the arena now.
    pub open(crate) spec fn holds(self, h: Handle) -> bool {
        self.live(h.index) && self.slots[h.index as int].generation == h.generation
    }

    /// `h` has been handed out at some time: it names a live node, or a node
    /// that was removed from its slot.
    pub open(crate) spec fn issued(self, h: Handle) -> bool {
        h.index < self.slots.len() && (h.generation < self.slots[h.index as int].generation || (
            h.generation == self.slots[h.index as int].generation
                && self.slots[h.index as int].node is Some))
    }

    /// The elements in the arena, by handle.
    pub open(crate) spec fn entries(self) -> Map<Handle, (K, V)> {
        Map::new(
            |h: Handle| self.holds(h),
            |h: Handle| (self.node(h.index).key, self.node(h.index).value),
        )
    }

    /// `total` counts the elements, and the slots suffice for them and the
    /// free list.
    pub open(crate) spec fn counted(self) -> bool {
        &&& self.entries().dom().finite()
        &&& self.entries().len() == self.total
        &&& self.total + self.free.len() <= self.slots.len()
    }

    /// What holds of the arena of a heap at all times but in the middle of a
    /// change of key.
    pub open(crate) spec fn wf(self) -> bool {
        &&& self.shape_wf()
        &&& self.order_wf()
        &&& self.free_wf()
        &&& self.counted()
        &&& self.fib_wf()
    }

    /// The arena with `n` as the node in slot `i`.
    pub open spec fn with_node(self, i: usize, n: NodeView<K, V>) -> Self {
        Arena {
            slots: self.slots.update(
                i as int,
                SlotView { generation: self.slots[i as int].generation, node: Some(n) },
            ),
            ..self
        }
    }

    /// The slot that the next new node goes to.
    pub open spec fn next_slot(self) -> usize {
        if self.free.len() > 0 {
            self.free.last()
        } else {
            self.slots.len() as usize
        }
    }

    /// The arena with a fresh node in the next slot.
    pub open spec fn with_fresh(self, key: K, value: V) -> Self {
        if self.free.len() > 0 {
            Arena {
                slots: self.slots.update(
                    self.free.last() as int,
                    SlotView {
                        generation: self.slots[self.free.last() as int].generation,
                        node: Some(fresh_node(key, value)),
                    },
                ),
                free: self.free.drop_last(),
                total: (self.total + 1) as usize,
                heights: self.heights.update(self.free.last() as int, 0),
                links: self.links.update(self.free.last() as int, 0),
            }
        } else {
            Arena {
                slots: self.slots.push(
                    SlotView { generation: 0, node: Some(fresh_node(key, value)) },
                ),
                total: (self.total + 1) as usize,
                heights: self.heights.push(0),
                links: self.links.push(0),
                ..self
            }
        }
    }
}

impl<K: HeapKey, V> Arena<K, V> {
    /// A fresh node in the next slot leaves the arena in order. The new node
    /// has no parent, and the other nodes are what they were.
    pub proof fn lemma_with_fresh(self, key: K, value: V)
        requires
            self.wf(),
            self.slots.len() <= usize::MAX,
            self.free.len() == 0 ==> self.slots.len() < usize::MAX,
        ensures
            self.with_fresh(key, value).wf(),
            !self.live(self.next_slot()),
            self.with_fresh(key, value).node(self.next_slot()) == fresh_node(key, value),
            forall|x: usize|
                #[trigger] self.with_fresh(key, value).is_top(x) <==> self.is_top(x) || x
                    == self.next_slot(),
            forall|x: usize|
                #[trigger] self.live(x) ==> self.with_fresh(key, value).prio(x) == self.prio(x),
            !self.issued(self.with_fresh(key, value).handle_of(self.next_slot())),
            self.with_fresh(key, value).entries() == self.entries().insert(
                self.with_fresh(key, value).handle_of(self.next_slot()),
                (key, value),
            ),
            forall|h: Handle|
                #[trigger] self.with_fresh(key, value).issued(h) <==> self.issued(h) || h
                    == self.with_fresh(key, value).handle_of(self.next_slot()),
    {
        let g = self.with_fresh(key, value);
        let i = self.next_slot();
        self.lemma_fib_with_fresh(key, value);
        assert forall|x: usize| #[trigger] g.live(x) implies x == i || self.live(x) by {}
        assert(g.shape_wf()) by {
            assert forall|x: usize| #[trigger] g.live(x) implies g.children_ok(x) && g.parent_ok(
                x,
            ) by {
                if x != i {
                    let c = self.node(x).children;
                    assert forall|j: int| 0 <= j < c.len() implies g.live(#[trigger] c[j])
                        && g.node(c[j]).parent == Some(x) by {}
                }
            }
        }
        assert(g.order_wf()) by {
            assert forall|x: usize| #[trigger] g.live(x) implies g.order_ok(x) by {}
        }
        assert(g.free_wf()) by {
            assert forall|k: int| 0 <= k < g.free.len() implies {
                &&& (#[trigger] g.free[k]) < g.slots.len()
                &&& !g.live(g.free[k])
                &&& g.slots[g.free[k] as int].generation < u64::MAX
            } by {}
            assert forall|x: usize| #[trigger] g.live(x) implies g.slots[x as int].generation
                < u64::MAX by {}
        }
        let h = g.handle_of(i);
        assert(g.entries() =~= self.entries().insert(h, (key, value))) by {
            assert forall|x: Handle| g.entries().dom().contains(x) <==> self.entries().insert(
                h,
                (key, value),
            ).dom().contains(x) by {}
            assert forall|x: Handle| #[trigger] g.entries().dom().contains(x) implies g.entries()[x]
                == self.entries().insert(h, (key, value))[x] by {}
        }
        assert forall|x: usize| #[trigger] g.is_top(x) <==> self.is_top(x) || x == i by {}
    }
}

/// The largest of the heights.
pub open spec fn max_height(heights: Seq<nat>) -> nat
    decreases heights.len(),
{
    if heights.len() == 0 {
        0
    } else if heights.last() >= max_height(heights.drop_last()) {
        heights.last()
    } else {
        max_height(heights.drop_last())
    }
}

/// No height is above the largest.
pub proof fn lemma_max_height(heights: Seq<nat>, i: int)
    requires
        0 <= i < heights.len(),
    ensures
        heights[i] <= max_height(heights),
    decreases heights.len(),
{
    if i < heights.len() - 1 {
        lemma_max_height(heights.drop_last(), i);
    }
}

impl<K: HeapKey, V> Arena<K, V> {
    /// Above every node stands a node without a parent whose key is not
    /// larger.
    pub proof fn lemma_top_above(self, i: usize) -> (r: usize)
        requires
            self.shape_wf(),
            self.order_wf(),
            self.live(i),
        ensures
            self.is_top(r),
            self.prio(r) <= self.prio(i),
        decreases max_height(self.heights) - self.heights[i as int],
    {
        match self.node(i).parent {
            Some(p) => {
                lemma_max_height(self.heights, p as int);
                self.lemma_top_above(p)
            },
            None => i,
        }
    }
}

} // verus!
