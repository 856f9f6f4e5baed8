//! The forest: the arena together with the root list.
use vstd::prelude::*;
use crate::arena::Arena;
use crate::fib_node::Handle;
use crate::key::HeapKey;

verus! {

/// The forest of a heap as plain mathematical data: the arena and the root
/// list.
pub struct Forest<K, V> {
    pub arena: Arena<K, V>,
    pub roots: Seq<usize>,
}

impl<K: HeapKey, V> Forest<K, V> {
    /// The root list names distinct live nodes without a parent.
    pub open spec fn roots_sound(self) -> bool {
        &&& self.roots.no_duplicates()
        &&& forall|k: int| 0 <= k < self.roots.len() ==> self.arena.is_top(#[trigger] self.roots[k])
    }

    /// Every live node without a parent is in the root list or in `extra`.
    pub open spec fn covered(self, extra: Set<usize>) -> bool {
        forall|i: usize|
            #[trigger] self.arena.is_top(i) ==> self.roots.contains(i) || extra.contains(i)
    }

    /// No root has a key below that of the first root.
    pub open spec fn front_min(self) -> bool {
        forall|k: int|
            0 <= k < self.roots.len() ==> self.arena.prio(self.roots[0]) <= self.arena.prio(
                #[trigger] self.roots[k],
            )
    }

    /// What holds of the first root. Without a pinned node its key is the
    /// least among the roots; a pinned node, once among the roots, is the
    /// first of them.
    pub open spec fn front_ok(self, pinned: Option<usize>) -> bool {
        match pinned {
            Some(d) => self.roots.contains(d) ==> self.roots[0] == d,
            None => self.front_min(),
        }
    }

    /// What holds of a forest while its root list is being rebuilt.
    pub open(crate) spec fn inner_wf(self) -> bool {
        &&& self.arena.wf()
        &&& self.roots_sound()
    }

    /// What holds of a forest while a cut cascades: all that holds while the
    /// root list is being rebuilt, but that the node `n` has just lost a
    /// child.
    pub open(crate) spec fn mending(self, n: usize) -> bool {
        &&& self.arena.shape_wf()
        &&& self.arena.order_wf()
        &&& self.arena.free_wf()
        &&& self.arena.counted()
        &&& self.arena.fib_wf_but(Some(n))
        &&& self.roots_sound()
    }

    /// The whole invariant of a heap at rest.
    pub open(crate) spec fn wf(self) -> bool {
        &&& self.inner_wf()
        &&& self.covered(Set::empty())
        &&& self.front_min()
    }

    /// Whether a new root `i` goes behind the roots there are.
    pub open spec fn seats_behind(self, i: usize, pinned: Option<usize>) -> bool {
        self.roots.len() == 0 || pinned == Some(self.roots[0]) || (pinned != Some(i)
            && self.arena.prio(self.roots[0]) < self.arena.prio(i))
    }

    /// The forest with `i` added to the root list: behind the others where the
    /// first root is below it, else in front of them. A pinned node counts as
    /// below every other.
    pub open spec fn with_root(self, i: usize, pinned: Option<usize>) -> Self {
        Forest {
            roots: if self.seats_behind(i, pinned) {
                self.roots.push(i)
            } else {
                seq![i] + self.roots
            },
            ..self
        }
    }

    /// A node without a parent that the root list lacks can be added to it.
    pub proof fn lemma_with_root(self, i: usize, pinned: Option<usize>)
        requires
            self.roots_sound(),
            self.arena.is_top(i),
            !self.roots.contains(i),
        ensures
            self.with_root(i, pinned).roots_sound(),
            self.with_root(i, pinned).roots.len() == self.roots.len() + 1,
            forall|x: usize|
                #[trigger] self.with_root(i, pinned).roots.contains(x) <==> self.roots.contains(x)
                    || x == i,
            self.front_ok(pinned) ==> self.with_root(i, pinned).front_ok(pinned),
            forall|extra: Set<usize>|
                self.covered(extra) ==> #[trigger] self.with_root(i, pinned).covered(
                    extra.remove(i),
                ),
    {
        let g = self.with_root(i, pinned);
        if self.seats_behind(i, pinned) {
            assert forall|x: usize| #[trigger] g.roots.contains(x) <==> self.roots.contains(x) || x
                == i by {
                if self.roots.contains(x) {
                    let k = choose|k: int| 0 <= k < self.roots.len() && self.roots[k] == x;
                    assert(g.roots[k] == x);
                }
                if x == i {
                    assert(g.roots[self.roots.len() as int] == i);
                }
            }
        } else {
            assert forall|x: usize| #[trigger] g.roots.contains(x) <==> self.roots.contains(x) || x
                == i by {
                if self.roots.contains(x) {
                    let k = choose|k: int| 0 <= k < self.roots.len() && self.roots[k] == x;
                    assert(g.roots[k + 1] == x);
                }
                if x == i {
                    assert(g.roots[0] == i);
                }
            }
            assert forall|a: int, b: int|
                0 <= a < g.roots.len() && 0 <= b < g.roots.len() && a != b implies g.roots[a]
                != g.roots[b] by {}
            assert forall|k: int| 0 <= k < g.roots.len() implies self.arena.is_top(
                #[trigger] g.roots[k],
            ) by {}
        }
        if self.front_ok(pinned) && pinned is None {
            assert forall|k: int| 0 <= k < g.roots.len() implies g.arena.prio(g.roots[0])
                <= g.arena.prio(#[trigger] g.roots[k]) by {}
        }
        assert forall|extra: Set<usize>| self.covered(extra) implies #[trigger] g.covered(
            extra.remove(i),
        ) by {}
    }
}

impl<K: HeapKey, V> Forest<K, V> {
    /// In a heap at rest no key is below that of the first root.
    pub proof fn lemma_front_is_least(self, i: usize)
        requires
            self.wf(),
            self.arena.live(i),
        ensures
            self.roots.len() > 0,
            self.arena.prio(self.roots[0]) <= self.arena.prio(i),
    {
        let r = self.arena.lemma_top_above(i);
    }
}

impl<K: HeapKey, V> Forest<K, V> {
    /// A heap at rest has no root exactly when it has no element.
    pub proof fn lemma_empty_iff(self)
        requires
            self.wf(),
        ensures
            (self.roots.len() == 0) == (self.arena.total == 0),
            (self.arena.total == 0) == (self.arena.entries().len() == 0),
            (self.arena.total == 0) == (self.arena.entries() == Map::<Handle, (K, V)>::empty()),
    {
        if self.roots.len() > 0 {
            let r = self.roots[0];
            let h = self.arena.handle_of(r);
            assert(self.arena.entries().dom().contains(h));
        }
        if self.arena.total > 0 {
            let h = self.arena.entries().dom().choose();
            assert(self.arena.entries().dom().contains(h));
            self.lemma_front_is_least(h.index);
        }
        if self.arena.total == 0 {
            assert(self.arena.entries() =~= Map::<Handle, (K, V)>::empty());
        }
    }
}

impl<K: HeapKey, V> Forest<K, V> {
    /// A change of the arena that keeps the keys and lets no root lose its
    /// place keeps what holds of the root list.
    pub proof fn lemma_roots_kept(self, g: Self, pinned: Option<usize>)
        requires
            g.roots == self.roots,
            forall|x: usize| #[trigger] self.arena.is_top(x) ==> g.arena.is_top(x),
            forall|x: usize|
                self.arena.live(x) ==> #[trigger] g.arena.prio(x) == self.arena.prio(x),
            self.roots_sound(),
        ensures
            g.roots_sound(),
            self.front_min() ==> g.front_min(),
            self.front_ok(pinned) ==> g.front_ok(pinned),
    {
        assert forall|k: int| 0 <= k < g.roots.len() implies g.arena.is_top(
            #[trigger] g.roots[k],
        ) by {}
        if self.front_min() {
            assert forall|k: int| 0 <= k < g.roots.len() implies g.arena.prio(g.roots[0])
                <= g.arena.prio(#[trigger] g.roots[k]) by {}
        }
    }
}

} // verus!
