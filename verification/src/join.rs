//! Two arenas, and two forests, joined to one.
use vstd::prelude::*;
use vstd::set_lib::{lemma_map_size, lemma_set_disjoint_lens};
use crate::arena::{count_below, Arena};
use crate::fib::{lemma_count_below_same, lemma_count_below_shift};
use crate::fib_node::{shift_handle, shift_node, shift_seq, shift_slot, Handle};
use crate::forest::Forest;
use crate::key::HeapKey;

verus! {

/// `h` names a slot that has at least `off` slots before it.
pub open(crate) spec fn is_beyond(h: Handle, off: usize) -> bool {
    h.index >= off
}

/// The handle `off` slots back.
pub open(crate) spec fn unshift_handle(h: Handle, off: usize) -> Handle {
    Handle { index: (h.index - off) as usize, generation: h.generation }
}

/// The elements of `a` under their handles, and those of `b` under handles
/// that are `off` slots further on.
pub open(crate) spec fn join_entries<K, V>(
    a: Map<Handle, (K, V)>,
    b: Map<Handle, (K, V)>,
    off: usize,
) -> Map<Handle, (K, V)> {
    Map::new(
        |h: Handle|
            a.contains_key(h) || (is_beyond(h, off) && b.contains_key(unshift_handle(h, off))),
        |h: Handle|
            if a.contains_key(h) {
                a[h]
            } else {
                b[unshift_handle(h, off)]
            },
    )
}

impl<K: HeapKey, V> Arena<K, V> {
    /// The arena that holds the slots of `self` and behind them those of
    /// `other`.
    pub open spec fn joined(self, other: Self) -> Self {
        let off = self.slots.len() as usize;
        Arena {
            slots: self.slots + Seq::new(
                other.slots.len(),
                |j: int| shift_slot(other.slots[j], off),
            ),
            free: self.free + shift_seq(other.free, off),
            total: (self.total + other.total) as usize,
            heights: self.heights + other.heights,
            links: self.links + other.links,
        }
    }

    /// Two arenas in order join to one in order, which holds the elements of
    /// both.
    pub proof fn lemma_joined(self, other: Self)
        requires
            self.wf(),
            other.wf(),
            self.slots.len() + other.slots.len() <= usize::MAX,
        ensures
            self.joined(other).wf(),
            forall|x: usize|
                #[trigger] self.joined(other).is_top(x) <==> if x < self.slots.len() {
                    self.is_top(x)
                } else {
                    other.is_top((x - self.slots.len()) as usize)
                },
            forall|x: usize| self.live(x) ==> #[trigger] self.joined(other).prio(x) == self.prio(x),
            forall|y: usize|
                other.live(y) ==> #[trigger] self.joined(other).prio(
                    (y + self.slots.len()) as usize,
                ) == other.prio(y),
            self.joined(other).entries() == join_entries(
                self.entries(),
                other.entries(),
                self.slots.len() as usize,
            ),
            forall|h: Handle|
                #[trigger] self.joined(other).issued(h) <==> self.issued(h) || (is_beyond(
                    h,
                    self.slots.len() as usize,
                ) && other.issued(unshift_handle(h, self.slots.len() as usize))),
    {
        let g = self.joined(other);
        let off = self.slots.len() as usize;
        assert forall|x: usize| x < off implies (#[trigger] g.live(x) == self.live(x)) && (
        self.live(x) ==> g.node(x) == self.node(x)) by {}
        assert forall|y: usize| y < other.slots.len() implies (#[trigger] g.live(
            (y + off) as usize,
        ) == other.live(y)) && (other.live(y) ==> g.node((y + off) as usize) == shift_node(
            other.node(y),
            off,
        )) by {}
        assert forall|x: usize| #[trigger] g.live(x) implies g.children_ok(x) && g.parent_ok(x)
            && g.order_ok(x) && g.slots[x as int].generation < u64::MAX by {
            if x < off {
                let kids = self.node(x).children;
                assert forall|j: int| 0 <= j < kids.len() implies g.live(#[trigger] kids[j])
                    && g.node(kids[j]).parent == Some(x) by {}
            } else {
                let y = (x - off) as usize;
                assert(x == (y + off) as usize);
                let kids = g.node(x).children;
                assert forall|j: int| 0 <= j < kids.len() implies g.live(#[trigger] kids[j])
                    && g.node(kids[j]).parent == Some(x) by {}
                assert forall|a: int, b: int|
                    0 <= a < kids.len() && 0 <= b < kids.len() && a != b implies kids[a]
                    != kids[b] by {}
                if let Some(p) = other.node(y).parent {
                    let ps = other.node(p).children;
                    let j = choose|j: int| 0 <= j < ps.len() && ps[j] == y;
                    assert(shift_seq(ps, off)[j] == x);
                }
            }
        }
        assert(g.fib_wf()) by {
            assert forall|x: usize| #[trigger] g.live(x) implies g.rank_ok(x, None) && g.brood_ok(
                x,
            ) by {
                if x < off {
                    let cs = self.node(x).children;
                    assert forall|m: nat| #[trigger] count_below(cs, g.links, m) <= m by {
                        assert forall|j: int|
                            0 <= j < cs.len() implies g.links[#[trigger] cs[j] as int]
                            == self.links[cs[j] as int] by {}
                        lemma_count_below_same(cs, g.links, self.links, m);
                    }
                } else {
                    let y = (x - off) as usize;
                    assert(x == (y + off) as usize);
                    let cs = other.node(y).children;
                    assert forall|m: nat| #[trigger] count_below(g.node(x).children, g.links, m)
                        <= m by {
                        assert forall|j: int| 0 <= j < cs.len() implies (#[trigger] cs[j])
                            < other.links.len() by {}
                        lemma_count_below_shift(cs, self.links, other.links, off, m);
                    }
                }
            }
        }
        assert(g.free_wf()) by {
            assert forall|k: int| 0 <= k < g.free.len() implies {
                &&& (#[trigger] g.free[k]) < g.slots.len()
                &&& !g.live(g.free[k])
                &&& g.slots[g.free[k] as int].generation < u64::MAX
            } by {}
            assert forall|a: int, b: int|
                0 <= a < g.free.len() && 0 <= b < g.free.len() && a != b implies g.free[a]
                != g.free[b] by {}
        }
        let a = self.entries();
        let b = other.entries();
        let f = |h: Handle| shift_handle(h, off);
        let shifted = b.dom().map(f);
        assert forall|h: Handle| #[trigger] g.holds(h) <==> self.holds(h) || (h.index >= off
            && other.holds(unshift_handle(h, off))) by {}
        assert(g.entries() =~= join_entries(a, b, off)) by {
            assert forall|h: Handle| g.entries().dom().contains(h) implies g.entries()[h]
                == join_entries(a, b, off)[h] by {}
        }
        assert(g.entries().dom() =~= a.dom() + shifted) by {
            assert forall|h: Handle|
                g.entries().dom().contains(h) <==> (a.dom() + shifted).contains(
                h,
            ) by {}
        }
        assert(vstd::relations::injective_on(f, b.dom())) by {
            assert forall|x1: Handle, x2: Handle|
                b.dom().contains(x1) && b.dom().contains(x2) && #[trigger] f(x1) == #[trigger] f(
                    x2,
                ) implies x1 == x2 by {}
        }
        lemma_map_size(b.dom(), shifted, f);
        assert(a.dom().disjoint(shifted)) by {
            assert forall|h: Handle| !(a.dom().contains(h) && shifted.contains(h)) by {}
        }
        lemma_set_disjoint_lens(a.dom(), shifted);
        assert forall|x: usize| #[trigger] g.is_top(x) <==> if x < self.slots.len() {
            self.is_top(x)
        } else {
            other.is_top((x - self.slots.len()) as usize)
        } by {}
        assert forall|h: Handle| #[trigger] g.issued(h) <==> self.issued(h) || (is_beyond(h, off)
            && other.issued(unshift_handle(h, off))) by {}
    }
}

impl<K: HeapKey, V> Forest<K, V> {
    /// The forest that holds the trees of both. The roots of `self` come
    /// first where `self_first` holds, else those of `other`.
    pub open spec fn joined(self, other: Self, self_first: bool) -> Self {
        let off = self.arena.slots.len() as usize;
        Forest {
            arena: self.arena.joined(other.arena),
            roots: if self_first {
                self.roots + shift_seq(other.roots, off)
            } else {
                shift_seq(other.roots, off) + self.roots
            },
        }
    }

    /// Whether the roots of `self` come first when `other` is merged into
    /// it: where both hold an element and the least key of `self` is below
    /// that of `other`.
    pub open spec fn leads(self, other: Self) -> bool {
        self.roots.len() > 0 && other.roots.len() > 0 && self.arena.prio(self.roots[0])
            < other.arena.prio(other.roots[0])
    }

    /// Two heaps at rest join to one at rest.
    pub proof fn lemma_joined(self, other: Self)
        requires
            self.wf(),
            other.wf(),
            self.arena.slots.len() + other.arena.slots.len() <= usize::MAX,
        ensures
            self.joined(other, self.leads(other)).wf(),
    {
        let g = self.joined(other, self.leads(other));
        let off = self.arena.slots.len() as usize;
        let sh = shift_seq(other.roots, off);
        self.arena.lemma_joined(other.arena);
        assert forall|k: int| 0 <= k < self.roots.len() implies g.arena.is_top(
            #[trigger] self.roots[k],
        ) && self.roots[k] < off && g.arena.prio(self.roots[k]) == self.arena.prio(
            self.roots[k],
        ) by {}
        assert forall|k: int| 0 <= k < sh.len() implies g.arena.is_top(#[trigger] sh[k]) && sh[k]
            >= off && g.arena.prio(sh[k]) == other.arena.prio(other.roots[k]) by {}
        assert forall|a: int, b: int| 0 <= a < sh.len() && 0 <= b < sh.len() && a != b implies sh[a]
            != sh[b] by {}
        assert(g.covered(Set::empty())) by {
            assert forall|x: usize| #[trigger] g.arena.is_top(x) implies g.roots.contains(x) by {
                if x < off {
                    let k = choose|k: int| 0 <= k < self.roots.len() && self.roots[k] == x;
                    if self.leads(other) {
                        assert(g.roots[k] == x);
                    } else {
                        assert(g.roots[k + sh.len()] == x);
                    }
                } else {
                    let y = (x - off) as usize;
                    let k = choose|k: int| 0 <= k < other.roots.len() && other.roots[k] == y;
                    if self.leads(other) {
                        assert(g.roots[k + self.roots.len()] == x);
                    } else {
                        assert(g.roots[k] == x);
                    }
                }
            }
        }
        assert(g.front_min()) by {
            assert forall|k: int| 0 <= k < g.roots.len() implies g.arena.prio(g.roots[0])
                <= g.arena.prio(#[trigger] g.roots[k]) by {}
        }
    }
}

} // verus!
