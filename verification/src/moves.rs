//! The single changes that an operation makes to the arena, and what each of
//! them keeps of the invariant.
use vstd::prelude::*;
use crate::arena::Arena;
use crate::fib_node::{lemma_without_child, without_child, Handle, NodeView, SlotView};
use crate::key::HeapKey;

verus! {

impl<K: HeapKey, V> Arena<K, V> {
    /// Arenas that agree on generations, keys and values, on which slots hold
    /// a node, on the free list and on the count hold the same elements.
    pub proof fn lemma_same_payload(self, g: Self)
        requires
            g.payload() == self.payload(),
        ensures
            g.slots.len() == self.slots.len(),
            forall|x: usize| #[trigger] g.live(x) == self.live(x),
            forall|x: usize| self.live(x) ==> #[trigger] g.prio(x) == self.prio(x),
            forall|x: usize| self.live(x) ==> #[trigger] g.handle_of(x) == self.handle_of(x),
            g.entries() == self.entries(),
            forall|h: Handle| #[trigger] g.issued(h) == self.issued(h),
            g.free == self.free && self.free_wf() ==> g.free_wf(),
            g.free == self.free && g.total == self.total && self.counted() ==> g.counted(),
    {
        assert(g.slots.len() == g.payload().len());
        assert forall|i: int| 0 <= i < self.slots.len() implies g.slots[i].generation
            == self.slots[i].generation && (g.slots[i].node is Some <==> self.slots[i].node is Some)
            && (self.slots[i].node is Some ==> g.slots[i].node.unwrap().key
            == self.slots[i].node.unwrap().key && g.slots[i].node.unwrap().value
            == self.slots[i].node.unwrap().value) by {
            assert(g.payload()[i] == self.payload()[i]);
        }
        assert forall|x: usize| #[trigger] g.live(x) == self.live(x) by {}
        assert(g.entries() =~= self.entries());
        if g.free == self.free && self.free_wf() {
            assert forall|k: int| 0 <= k < g.free.len() implies {
                &&& (#[trigger] g.free[k]) < g.slots.len()
                &&& !g.live(g.free[k])
                &&& g.slots[g.free[k] as int].generation < u64::MAX
            } by {}
            assert forall|i: usize| #[trigger] g.live(i) implies g.slots[i as int].generation
                < u64::MAX by {}
        }
    }

    /// The arena after `c` was cut from its parent: the parent no longer
    /// lists it, and it has become an unmarked node without a parent.
    pub open spec fn with_cut(self, c: usize) -> Self {
        let p = self.node(c).parent.unwrap();
        self.with_node(
            p,
            NodeView { children: without_child(self.node(p).children, c), ..self.node(p) },
        ).with_node(c, NodeView { parent: None, marked: false, ..self.node(c) })
    }

    /// Cutting a node from its parent keeps the arena in order, and heals the
    /// heap order where only the cut node broke it.
    pub proof fn lemma_with_cut(self, c: usize)
        requires
            self.shape_wf(),
            self.live(c),
            self.node(c).parent is Some,
        ensures
            self.with_cut(c).shape_wf(),
            self.order_wf_but(Some(c)) ==> self.with_cut(c).order_wf(),
            self.fib_wf_but(Some(c)) ==> self.with_cut(c).fib_wf_but(self.node(c).parent),
            self.with_cut(c).payload() == self.payload(),
            self.with_cut(c).free == self.free,
            self.with_cut(c).total == self.total,
            self.with_cut(c).heights == self.heights,
            forall|x: usize| #[trigger] self.with_cut(c).is_top(x) <==> self.is_top(x) || x == c,
            forall|x: usize|
                x != c && self.live(x) ==> (#[trigger] self.with_cut(c).node(x)).parent
                    == self.node(x).parent && self.with_cut(c).node(x).marked == self.node(
                    x,
                ).marked,
    {
        let p = self.node(c).parent.unwrap();
        if self.fib_wf_but(Some(c)) {
            self.lemma_fib_with_cut(c);
        }
        let cs = self.node(p).children;
        let cs2 = without_child(cs, c);
        lemma_without_child(cs, c);
        let g = self.with_cut(c);
        assert forall|x: usize| #[trigger] g.live(x) == self.live(x) by {}
        assert forall|x: usize| #[trigger] g.live(x) implies g.children_ok(x) && g.parent_ok(x) by {
            let kids = g.node(x).children;
            assert forall|j: int| 0 <= j < kids.len() implies g.live(#[trigger] kids[j]) && g.node(
                kids[j],
            ).parent == Some(x) by {
                let ch = kids[j];
                if x == p {
                    assert(cs2.contains(ch));
                }
            }
        }
        if self.order_wf_but(Some(c)) {
            assert forall|x: usize| #[trigger] g.live(x) implies g.order_ok(x) by {}
        }
    }

    /// The arena after `l`, a node without a parent, was made the last child
    /// of `w`.
    pub open spec fn with_link(self, w: usize, l: usize) -> Self {
        let linked = self.with_node(
            l,
            NodeView { parent: Some(w), marked: false, ..self.node(l) },
        ).with_node(w, NodeView { children: self.node(w).children.push(l), ..self.node(w) });
        Arena {
            heights: self.heights.update(
                w as int,
                if self.heights[w as int] > self.heights[l as int] {
                    self.heights[w as int]
                } else {
                    self.heights[l as int] + 1
                },
            ),
            links: self.links.update(l as int, self.rank(l)),
            ..linked
        }
    }

    /// Linking one parentless node under another whose key is not larger keeps
    /// the arena in order.
    pub proof fn lemma_with_link(self, w: usize, l: usize)
        requires
            self.shape_wf(),
            self.order_wf(),
            self.is_top(w),
            self.is_top(l),
            w != l,
            self.prio(w) <= self.prio(l),
        ensures
            self.with_link(w, l).shape_wf(),
            self.with_link(w, l).order_wf(),
            self.fib_wf() && self.rank(w) == self.rank(l) ==> self.with_link(w, l).fib_wf(),
            self.with_link(w, l).payload() == self.payload(),
            self.with_link(w, l).free == self.free,
            self.with_link(w, l).total == self.total,
            forall|x: usize|
                #[trigger] self.with_link(w, l).is_top(x) <==> self.is_top(x) && x != l,
            forall|x: usize|
                x != w && self.live(x) ==> (#[trigger] self.with_link(w, l).node(x)).children
                    == self.node(x).children,
            self.with_link(w, l).node(w).children == self.node(w).children.push(l),
    {
        let g = self.with_link(w, l);
        let cs = self.node(w).children;
        if self.fib_wf() && self.rank(w) == self.rank(l) {
            self.lemma_fib_with_link(w, l);
        }
        assert forall|x: usize| #[trigger] g.live(x) == self.live(x) by {}
        assert(!cs.contains(l));
        assert(cs.push(l).no_duplicates()) by {
            assert forall|a: int, b: int|
                0 <= a < cs.len() + 1 && 0 <= b < cs.len() + 1 && a != b implies cs.push(l)[a]
                != cs.push(l)[b] by {}
        }
        assert forall|x: usize| #[trigger] g.live(x) implies g.children_ok(x) && g.parent_ok(x) by {
            let kids = g.node(x).children;
            assert forall|j: int| 0 <= j < kids.len() implies g.live(#[trigger] kids[j]) && g.node(
                kids[j],
            ).parent == Some(x) by {}
            if let Some(q) = g.node(x).parent {
                if x == l {
                    assert(cs.push(l)[cs.len() as int] == l);
                } else {
                    let qs = self.node(q).children;
                    let j = choose|j: int| 0 <= j < qs.len() && qs[j] == x;
                    if q == w {
                        assert(cs.push(l)[j] == x);
                    }
                }
            }
        }
        assert forall|x: usize| #[trigger] g.live(x) implies g.order_ok(x) by {}
    }

    /// The arena after the node in slot `i`, which has a parent, was marked.
    pub open spec fn with_mark(self, i: usize) -> Self {
        self.with_node(i, NodeView { marked: true, ..self.node(i) })
    }

    /// Marking a node that has a parent keeps the arena in order.
    pub proof fn lemma_with_mark(self, i: usize)
        requires
            self.shape_wf(),
            self.live(i),
            self.node(i).parent is Some,
        ensures
            self.with_mark(i).shape_wf(),
            self.order_wf() ==> self.with_mark(i).order_wf(),
            self.fib_wf_but(Some(i)) && !self.node(i).marked ==> self.with_mark(i).fib_wf(),
            self.with_mark(i).payload() == self.payload(),
            self.with_mark(i).free == self.free,
            self.with_mark(i).total == self.total,
            forall|x: usize| #[trigger] self.with_mark(i).is_top(x) <==> self.is_top(x),
    {
        let g = self.with_mark(i);
        assert forall|x: usize| #[trigger] g.live(x) == self.live(x) by {}
        assert forall|x: usize| #[trigger] g.live(x) implies g.children_ok(x) && g.parent_ok(x) by {
            let kids = g.node(x).children;
            assert forall|j: int| 0 <= j < kids.len() implies g.live(#[trigger] kids[j]) && g.node(
                kids[j],
            ).parent == Some(x) by {}
        }
        if self.order_wf() {
            assert forall|x: usize| #[trigger] g.live(x) implies g.order_ok(x) by {}
        }
    }

    /// The arena after the key of the node in slot `i` was replaced by `key`.
    pub open spec fn with_key(self, i: usize, key: K) -> Self {
        self.with_node(i, NodeView { key, ..self.node(i) })
    }

    /// Lowering a key keeps the arena in order, but for the heap order
    /// between the node and its parent.
    pub proof fn lemma_with_key(self, i: usize, key: K)
        requires
            self.wf(),
            self.live(i),
            key.priority() <= self.prio(i),
        ensures
            self.with_key(i, key).shape_wf(),
            self.with_key(i, key).order_wf_but(Some(i)),
            self.with_key(i, key).free_wf(),
            self.with_key(i, key).counted(),
            self.with_key(i, key).fib_wf(),
            self.with_key(i, key).entries() == self.entries().insert(
                self.handle_of(i),
                (key, self.node(i).value),
            ),
            forall|h: Handle| #[trigger] self.with_key(i, key).issued(h) == self.issued(h),
            forall|x: usize| #[trigger] self.with_key(i, key).is_top(x) <==> self.is_top(x),
            forall|x: usize|
                x != i && self.live(x) ==> #[trigger] self.with_key(i, key).node(x) == self.node(
                    x,
                ),
            forall|x: usize| #[trigger] self.with_key(i, key).live(x) == self.live(x),
    {
        let g = self.with_key(i, key);
        assert forall|x: usize| #[trigger] g.live(x) == self.live(x) by {}
        assert forall|x: usize| #[trigger] g.live(x) implies g.children_ok(x) && g.parent_ok(x) by {
            let kids = g.node(x).children;
            assert forall|j: int| 0 <= j < kids.len() implies g.live(#[trigger] kids[j]) && g.node(
                kids[j],
            ).parent == Some(x) by {}
        }
        assert forall|x: usize| #[trigger] g.live(x) && Some(i) != Some(x) implies g.order_ok(
            x,
        ) by {}
        assert(g.free_wf()) by {
            assert forall|k: int| 0 <= k < g.free.len() implies {
                &&& (#[trigger] g.free[k]) < g.slots.len()
                &&& !g.live(g.free[k])
                &&& g.slots[g.free[k] as int].generation < u64::MAX
            } by {}
            assert forall|x: usize| #[trigger] g.live(x) implies g.slots[x as int].generation
                < u64::MAX by {}
        }
        let h = self.handle_of(i);
        assert(g.entries() =~= self.entries().insert(h, (key, self.node(i).value))) by {
            assert forall|x: Handle| g.entries().dom().contains(x) implies g.entries()[x]
                == self.entries().insert(h, (key, self.node(i).value))[x] by {}
        }
    }
}

impl<K: HeapKey, V> Arena<K, V> {
    /// The arena after the children of `m` were taken from it. They still
    /// name `m` as their parent.
    pub open spec fn with_drained(self, m: usize) -> Self {
        self.with_node(m, NodeView { children: Seq::<usize>::empty(), ..self.node(m) })
    }

    /// The arena after `c` lost its parent and its mark.
    pub open spec fn with_promoted(self, c: usize) -> Self {
        self.with_node(c, NodeView { parent: None, marked: false, ..self.node(c) })
    }

    /// The arena after the node in slot `m` was taken out. The slot moves on
    /// to its next generation and, unless that is the last one, joins the
    /// free list.
    pub open spec fn with_vacated(self, m: usize) -> Self {
        Arena {
            slots: self.slots.update(
                m as int,
                SlotView { generation: (self.slots[m as int].generation + 1) as u64, node: None },
            ),
            free: if self.slots[m as int].generation + 1 < u64::MAX {
                self.free.push(m)
            } else {
                self.free
            },
            total: (self.total - 1) as usize,
            heights: self.heights,
            links: self.links,
        }
    }

    /// What holds of the shape while the children of `m` are made roots: `m`
    /// has no parent and lists no child, the nodes in `pending` still name it
    /// as their parent, and all else is in order.
    pub open spec fn orphaned_wf(self, m: usize, pending: Seq<usize>) -> bool {
        &&& self.heights.len() == self.slots.len()
        &&& self.is_top(m)
        &&& self.node(m).children.len() == 0
        &&& pending.no_duplicates()
        &&& forall|j: int|
            0 <= j < pending.len() ==> self.live(#[trigger] pending[j]) && self.node(
                pending[j],
            ).parent == Some(m)
        &&& forall|x: usize|
            #[trigger] self.live(x) ==> self.children_ok(x) && if self.node(x).parent == Some(m) {
                pending.contains(x)
            } else {
                self.parent_ok(x)
            }
    }

    /// Taking the children from a node without a parent leaves them orphaned.
    pub proof fn lemma_with_drained(self, m: usize)
        requires
            self.shape_wf(),
            self.order_wf(),
            self.is_top(m),
        ensures
            self.with_drained(m).orphaned_wf(m, self.node(m).children),
            self.with_drained(m).order_wf(),
            self.fib_wf() ==> self.with_drained(m).fib_wf(),
            self.with_drained(m).payload() == self.payload(),
            self.with_drained(m).free == self.free,
            self.with_drained(m).total == self.total,
            forall|x: usize| #[trigger] self.with_drained(m).is_top(x) <==> self.is_top(x),
    {
        let g = self.with_drained(m);
        let cs = self.node(m).children;
        assert forall|x: usize| #[trigger] g.live(x) == self.live(x) by {}
        assert forall|j: int| 0 <= j < cs.len() implies g.live(#[trigger] cs[j]) && g.node(
            cs[j],
        ).parent == Some(m) by {}
        assert forall|x: usize| #[trigger] g.live(x) implies g.children_ok(x) && if g.node(
            x,
        ).parent == Some(m) {
            cs.contains(x)
        } else {
            g.parent_ok(x)
        } by {
            let kids = g.node(x).children;
            assert forall|j: int| 0 <= j < kids.len() implies g.live(#[trigger] kids[j]) && g.node(
                kids[j],
            ).parent == Some(x) by {}
        }
        assert forall|x: usize| #[trigger] g.live(x) implies g.order_ok(x) by {}
    }

    /// Making the first of the orphans a node without a parent leaves the
    /// others orphaned.
    pub proof fn lemma_with_promoted(self, m: usize, pending: Seq<usize>)
        requires
            self.orphaned_wf(m, pending),
            self.order_wf(),
            pending.len() > 0,
        ensures
            self.with_promoted(pending[0]).orphaned_wf(
                m,
                pending.subrange(1, pending.len() as int),
            ),
            self.with_promoted(pending[0]).order_wf(),
            self.fib_wf() ==> self.with_promoted(pending[0]).fib_wf(),
            self.with_promoted(pending[0]).payload() == self.payload(),
            self.with_promoted(pending[0]).free == self.free,
            self.with_promoted(pending[0]).total == self.total,
            forall|x: usize|
                #[trigger] self.with_promoted(pending[0]).is_top(x) <==> self.is_top(x) || x
                    == pending[0],
    {
        let c = pending[0];
        let g = self.with_promoted(c);
        let rest = pending.subrange(1, pending.len() as int);
        assert forall|x: usize| #[trigger] g.live(x) == self.live(x) by {}
        assert forall|j: int| 0 <= j < rest.len() implies g.live(#[trigger] rest[j]) && g.node(
            rest[j],
        ).parent == Some(m) by {}
        assert forall|x: usize| #[trigger] g.live(x) implies g.children_ok(x) && if g.node(
            x,
        ).parent == Some(m) {
            rest.contains(x)
        } else {
            g.parent_ok(x)
        } by {
            let kids = g.node(x).children;
            assert forall|j: int| 0 <= j < kids.len() implies g.live(#[trigger] kids[j]) && g.node(
                kids[j],
            ).parent == Some(x) by {}
            if g.node(x).parent == Some(m) {
                let j = choose|j: int| 0 <= j < pending.len() && pending[j] == x;
                assert(rest[j - 1] == x);
            } else if x != c {}
        }
        assert forall|x: usize| #[trigger] g.live(x) implies g.order_ok(x) by {}
    }

    /// A node that no other names can be taken out of its slot: the arena
    /// stays in order and holds one element less.
    pub proof fn lemma_with_vacated(self, m: usize)
        requires
            self.orphaned_wf(m, Seq::<usize>::empty()),
            self.order_wf(),
            self.free_wf(),
            self.counted(),
            self.fib_wf(),
        ensures
            self.with_vacated(m).wf(),
            self.entries().contains_key(self.handle_of(m)),
            self.with_vacated(m).entries() == self.entries().remove(self.handle_of(m)),
            forall|h: Handle| #[trigger] self.with_vacated(m).issued(h) == self.issued(h),
            forall|x: usize|
                #[trigger] self.with_vacated(m).is_top(x) <==> self.is_top(x) && x != m,
            forall|x: usize|
                x != m && self.live(x) ==> #[trigger] self.with_vacated(m).prio(x) == self.prio(x),
            self.total > 0,
    {
        let g = self.with_vacated(m);
        let h = self.handle_of(m);
        assert forall|x: usize| #[trigger] g.live(x) <==> self.live(x) && x != m by {}
        assert forall|x: usize| #[trigger] g.live(x) implies g.children_ok(x) && g.parent_ok(x) by {
            let kids = g.node(x).children;
            assert forall|j: int| 0 <= j < kids.len() implies g.live(#[trigger] kids[j]) && g.node(
                kids[j],
            ).parent == Some(x) by {}
        }
        assert forall|x: usize| #[trigger] g.live(x) implies g.order_ok(x) by {}
        assert(g.free_wf()) by {
            assert(!self.free.contains(m));
            assert forall|k: int| 0 <= k < g.free.len() implies {
                &&& (#[trigger] g.free[k]) < g.slots.len()
                &&& !g.live(g.free[k])
                &&& g.slots[g.free[k] as int].generation < u64::MAX
            } by {}
            assert forall|a: int, b: int|
                0 <= a < g.free.len() && 0 <= b < g.free.len() && a != b implies g.free[a]
                != g.free[b] by {}
            assert forall|x: usize| #[trigger] g.live(x) implies g.slots[x as int].generation
                < u64::MAX by {}
        }
        assert(g.entries() =~= self.entries().remove(h)) by {
            assert forall|x: Handle| g.entries().dom().contains(x) implies g.entries()[x]
                == self.entries().remove(h)[x] by {}
        }
    }
}

} // verus!
