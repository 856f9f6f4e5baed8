//! The heap itself: the arena, the root list and the operations on them.
use vstd::prelude::*;
use std::collections::VecDeque;
use crate::arena::{lemma_max_height, max_height, Arena};
use crate::fib::fib;
use crate::fib_node::{shift_seq, shift_slot, FibNode, Handle};
use crate::join::{is_beyond, join_entries, unshift_handle};
use crate::forest::Forest;
use crate::key::HeapKey;
use crate::ranks::{
    count_some, floor_log2, lemma_count_some_emptied, lemma_count_some_grown, nones, padded,
};
use crate::{is_least, Heap, HeapDelete, HeapError, HeapExt};

verus! {

/// A Fibonacci heap: a forest of heap-ordered trees in an arena, with the
/// roots in a list whose first entry has the least key.
///
/// Elements are named by the handles that `insert` returns.
pub struct FibHeap<K, V> {
    nodes: Vec<FibNode<K, V>>,
    roots: VecDeque<usize>,
    free: Vec<usize>,
    total: usize,
    heights: Ghost<Seq<nat>>,
    links: Ghost<Seq<nat>>,
}

impl<K: HeapKey, V> View for FibHeap<K, V> {
    type V = Map<Handle, (K, V)>;

    /// The elements of the heap, by handle.
    closed spec fn view(&self) -> Map<Handle, (K, V)> {
        self.forest().arena.entries()
    }
}

impl<K: HeapKey, V> FibHeap<K, V> {
    /// The forest that the heap holds.
    pub closed spec fn forest(&self) -> Forest<K, V> {
        Forest {
            arena: Arena {
                slots: self.nodes@.map_values(|n: FibNode<K, V>| n@),
                free: self.free@,
                total: self.total,
                heights: self.heights@,
                links: self.links@,
            },
            roots: self.roots@,
        }
    }

    /// An empty heap.
    pub fn new() -> (heap: Self)
        ensures
            heap.forest().wf(),
            heap@ == Map::<Handle, (K, V)>::empty(),
            heap.forest().roots.len() == 0,
            forall|h: Handle| !heap.issued(h),
    {
        let heap = FibHeap {
            nodes: Vec::new(),
            roots: VecDeque::new(),
            free: Vec::new(),
            total: 0,
            heights: Ghost(Seq::empty()),
            links: Ghost(Seq::empty()),
        };
        proof {
            assert(heap@ =~= Map::<Handle, (K, V)>::empty());
        }
        heap
    }

    /// Whether the key in slot `a` is below the key in slot `b`.
    fn key_less(&self, a: usize, b: usize) -> (r: bool)
        requires
            self.forest().arena.live(a),
            self.forest().arena.live(b),
        ensures
            r == (self.forest().arena.prio(a) < self.forest().arena.prio(b)),
    {
        self.nodes[a] < self.nodes[b]
    }

    /// Stores a fresh node in the next slot and returns the slot.
    fn admit_node(&mut self, key: K, value: V) -> (i: usize)
        requires
            old(self).forest().arena.wf(),
        ensures
            old(self).forest().arena.slots.len() <= usize::MAX,
            old(self).forest().arena.free.len() == 0 ==> old(self).forest().arena.slots.len()
                < usize::MAX,
            i == old(self).forest().arena.next_slot(),
            final(self).forest() == (Forest {
                arena: old(self).forest().arena.with_fresh(key, value),
                ..old(self).forest()
            }),
    {
        let ghost before = self.forest();
        assert(before.arena.slots.len() == self.nodes.len());
        if self.free.len() > 0 {
            let i: usize = self.free.pop().unwrap();
            self.nodes[i].occupy(key, value);
            self.total = self.total + 1;
            proof {
                self.heights@ = self.heights@.update(i as int, 0);
                self.links@ = self.links@.update(i as int, 0);
                assert(self.forest().arena.slots =~= before.arena.with_fresh(key, value).slots);
            }
            i
        } else {
            let i: usize = self.nodes.len();
            self.nodes.push(FibNode::new(key, value));
            assert(self.nodes.len() == i + 1);
            self.total = self.total + 1;
            proof {
                self.heights@ = self.heights@.push(0);
                self.links@ = self.links@.push(0);
                assert(self.forest().arena.slots =~= before.arena.with_fresh(key, value).slots);
            }
            i
        }
    }

    /// Adds a node without a parent to the root list: behind the others where
    /// the first root has a smaller key, else in front of them. A pinned node
    /// counts as smaller than every other.
    fn insert_root(&mut self, root: usize, pinned: Option<usize>)
        requires
            old(self).forest().arena.live(root),
            old(self).forest().roots.len() > 0 ==> old(self).forest().arena.live(
                old(self).forest().roots[0],
            ),
        ensures
            final(self).forest() == old(self).forest().with_root(root, pinned),
    {
        let behind = if self.roots.len() == 0 {
            true
        } else {
            let front: usize = self.roots[0];
            if pinned == Some(front) {
                true
            } else if pinned == Some(root) {
                false
            } else {
                self.key_less(front, root)
            }
        };
        if behind {
            self.roots.push_back(root);
        } else {
            self.roots.push_front(root);
        }
    }
}

impl<K: HeapKey, V> FibHeap<K, V> {
    /// Whether `entry` names an element that is in the heap.
    pub fn contains(&self, entry: &Handle) -> (b: bool)
        ensures
            b == self@.contains_key(*entry),
    {
        entry.index < self.nodes.len() && self.nodes[entry.index].is_live()
            && self.nodes[entry.index].generation() == entry.generation
    }

    /// Cuts `child` from `parent`: the parent no longer lists it, and it
    /// becomes an unmarked node without a parent, ready for the root list.
    fn cut(&mut self, parent: usize, child: usize) -> (r: usize)
        requires
            old(self).forest().arena.shape_wf(),
            old(self).forest().arena.live(child),
            old(self).forest().arena.node(child).parent == Some(parent),
        ensures
            r == child,
            final(self).forest() == (Forest {
                arena: old(self).forest().arena.with_cut(child),
                ..old(self).forest()
            }),
    {
        let ghost before = self.forest();
        let res = self.nodes[parent].remove_child(child);
        assert(res.is_ok());
        self.nodes[child].set_parent(None);
        self.nodes[child].set_marked(false);
        proof {
            assert(self.forest().arena.slots =~= before.arena.with_cut(child).slots);
        }
        child
    }

    /// Marks the node in slot `i`.
    fn mark(&mut self, i: usize)
        requires
            old(self).forest().arena.live(i),
        ensures
            final(self).forest() == (Forest {
                arena: old(self).forest().arena.with_mark(i),
                ..old(self).forest()
            }),
    {
        let ghost before = self.forest();
        self.nodes[i].set_marked(true);
        proof {
            assert(self.forest().arena.slots =~= before.arena.with_mark(i).slots);
        }
    }

    /// Gives the root list a first entry that is right for the keys as they
    /// are now, by adding the roots to an empty list one after another.
    fn sort_roots(&mut self, pinned: Option<usize>)
        requires
            old(self).forest().roots_sound(),
        ensures
            ({
                let before = old(self).forest();
                let after = final(self).forest();
                &&& after == before.reseated(pinned)
                &&& after.arena == before.arena
                &&& after.roots_sound()
                &&& after.front_ok(pinned)
                &&& after.roots.len() == before.roots.len()
                &&& forall|x: usize|
                    #[trigger] after.roots.contains(x) <==> before.roots.contains(x)
            }),
    {
        let ghost before = self.forest();
        let former = self.roots.split_off(0);
        let n: usize = former.len();
        let mut k: usize = 0;
        assert(former@ =~= before.roots);
        assert(self.forest().roots =~= Seq::<usize>::empty());
        while k < n
            invariant
                k <= n,
                n == former@.len(),
                former@ == before.roots,
                before.roots_sound(),
                self.forest().arena == before.arena,
                self.forest().roots_sound(),
                self.forest().front_ok(pinned),
                self.forest().roots.len() == k,
                forall|x: usize|
                    #[trigger] self.forest().roots.contains(x) <==> former@.subrange(
                        0,
                        k as int,
                    ).contains(x),
                before.reseated(pinned) == self.forest().with_roots(
                    former@.subrange(k as int, n as int),
                    pinned,
                ),
            decreases n - k,
        {
            let root: usize = former[k];
            let ghost mid = self.forest();
            proof {
                let rest = former@.subrange(k as int, n as int);
                assert(rest.subrange(1, rest.len() as int) =~= former@.subrange(k + 1, n as int));
                mid.lemma_with_root(root, pinned);
            }
            self.insert_root(root, pinned);
            proof {
                let now = self.forest();
                assert forall|x: usize| #[trigger] now.roots.contains(x) <==> former@.subrange(
                    0,
                    k + 1,
                ).contains(x) by {
                    let b = former@.subrange(0, k + 1);
                    if x == root {
                        assert(b[k as int] == x);
                    }
                }
            }
            k = k + 1;
        }
    }

    /// After a cut below `n`: marks `n` where it was unmarked, and cuts it
    /// too, and goes on with its parent, where it was marked. A root stays as
    /// it is.
    fn cascading_cut(&mut self, n: usize, pinned: Option<usize>)
        requires
            old(self).forest().mending(n),
            old(self).forest().covered(Set::empty()),
            old(self).forest().front_ok(pinned),
            old(self).forest().arena.live(n),
        ensures
            ({
                let before = old(self).forest();
                let after = final(self).forest();
                &&& after == before.cascaded(n, pinned)
                &&& after.inner_wf()
                &&& after.covered(Set::empty())
                &&& after.front_ok(pinned)
                &&& after.arena.payload() == before.arena.payload()
                &&& forall|x: usize| before.roots.contains(x) ==> #[trigger] after.roots.contains(x)
                &&& forall|x: usize| before.arena.is_top(x) ==> #[trigger] after.arena.is_top(x)
            }),
        decreases
                ({
                    let heights = old(self).forest().arena.heights;
                    max_height(heights) - heights[n as int]
                }),
    {
        let ghost before = self.forest();
        match self.nodes[n].get_parent() {
            Some(parent) => {
                if self.nodes[n].get_marked() {
                    proof {
                        before.arena.lemma_with_cut(n);
                        lemma_max_height(before.arena.heights, parent as int);
                    }
                    let root: usize = self.cut(parent, n);
                    let ghost mid = self.forest();
                    proof {
                        before.arena.lemma_same_payload(mid.arena);
                        assert(!mid.roots.contains(root));
                        mid.lemma_with_root(root, pinned);
                    }
                    self.insert_root(root, pinned);
                    self.cascading_cut(parent, pinned);
                } else {
                    proof {
                        before.arena.lemma_with_mark(n);
                    }
                    self.mark(n);
                    proof {
                        let now = self.forest();
                        before.arena.lemma_same_payload(now.arena);
                    }
                }
            },
            None => {},
        }
    }

    /// Restores the heap after the key of `node` was lowered, or, where `node`
    /// is pinned, makes it the first root. A root gives the root list a new
    /// first entry. Another node stays where its key is still not below that
    /// of its parent and it is not pinned; else it is cut from its parent and
    /// becomes a root, and the cut cascades from the parent.
    fn decreased_node(&mut self, node: usize, pinned: Option<usize>)
        requires
            old(self).forest().arena.shape_wf(),
            old(self).forest().arena.order_wf_but(Some(node)),
            old(self).forest().arena.free_wf(),
            old(self).forest().arena.counted(),
            old(self).forest().arena.fib_wf(),
            old(self).forest().roots_sound(),
            old(self).forest().covered(Set::empty()),
            old(self).forest().arena.live(node),
            old(self).forest().arena.node(node).parent is Some ==> old(self).forest().front_min(),
            pinned is Some ==> pinned == Some(node),
        ensures
            ({
                let before = old(self).forest();
                let after = final(self).forest();
                &&& after == before.decreased(node, pinned)
                &&& after.inner_wf()
                &&& after.covered(Set::empty())
                &&& after.front_ok(pinned)
                &&& pinned is Some ==> after.roots.contains(node)
                &&& after.arena.payload() == before.arena.payload()
                &&& before.arena.node(node).parent matches Some(p) ==> {
                    if pinned is Some || before.arena.prio(node) < before.arena.prio(p) {
                        after.arena.is_top(node)
                    } else {
                        after == before
                    }
                }
                &&& before.arena.node(node).parent is None ==> after.arena == before.arena
            }),
    {
        let ghost before = self.forest();
        match self.nodes[node].get_parent() {
            Some(parent) => {
                proof {
                    assert(!before.roots.contains(node));
                }
                if pinned.is_some() || self.key_less(node, parent) {
                    proof {
                        before.arena.lemma_with_cut(node);
                    }
                    let root: usize = self.cut(parent, node);
                    let ghost mid = self.forest();
                    proof {
                        before.arena.lemma_same_payload(mid.arena);
                        mid.lemma_with_root(root, pinned);
                    }
                    self.insert_root(root, pinned);
                    self.cascading_cut(parent, pinned);
                } else {
                    proof {
                        assert(before.arena.order_wf()) by {
                            assert forall|x: usize| #[trigger]
                                before.arena.live(x) implies before.arena.order_ok(x) by {}
                        }
                    }
                }
            },
            None => {
                proof {
                    assert(before.arena.order_wf()) by {
                        assert forall|x: usize| #[trigger]
                            before.arena.live(x) implies before.arena.order_ok(x) by {}
                    }
                    assert(before.arena.is_top(node));
                }
                self.sort_roots(pinned);
            },
        }
    }
}

impl<K: HeapKey, V> FibHeap<K, V> {
    /// Makes `child` the last child of `root` and clears its mark, then finds
    /// the grown tree a place in the by-rank array.
    fn link_and_insert(&mut self, rank_vec: &mut Vec<Option<usize>>, root: usize, child: usize)
        requires
            old(self).forest().consolidating(old(rank_vec)@),
            old(self).forest().arena.is_top(root),
            old(self).forest().arena.is_top(child),
            root != child,
            old(self).forest().arena.prio(root) <= old(self).forest().arena.prio(child),
            old(self).forest().arena.rank(root) == old(self).forest().arena.rank(child),
            !old(self).forest().roots.contains(root),
            !old(self).forest().roots.contains(child),
            !old(self).forest().arena.parked_at(old(rank_vec)@, root),
            !old(self).forest().arena.parked_at(old(rank_vec)@, child),
            old(self).forest().covered(
                old(self).forest().arena.parked(old(rank_vec)@, 0).insert(root).insert(child),
            ),
        ensures
            (final(self).forest().arena, final(rank_vec)@) == old(self).forest().arena.with_link(
                root,
                child,
            ).ranked(old(rank_vec)@, root),
            final(self).forest().consolidating(final(rank_vec)@),
            final(self).forest().covered(final(self).forest().arena.parked(final(rank_vec)@, 0)),
            final(self).forest().roots == old(self).forest().roots,
            final(self).forest().arena.payload() == old(self).forest().arena.payload(),
        decreases count_some(old(rank_vec)@), 2nat,
    {
        let ghost before = self.forest();
        let ghost rv = rank_vec@;
        // Both are roots: the child has no parent to leave.
        self.nodes[child].set_parent(Some(root));
        self.nodes[child].set_marked(false);
        self.nodes[root].add_child(child);
        proof {
            let a = before.arena;
            self.heights@ = a.with_link(root, child).heights;
            self.links@ = a.with_link(root, child).links;
            assert(self.forest().arena.slots =~= a.with_link(root, child).slots);
            a.lemma_with_link(root, child);
            let now = self.forest();
            a.lemma_same_payload(now.arena);
            assert(now.roots_sound()) by {
                assert forall|k: int| 0 <= k < now.roots.len() implies now.arena.is_top(
                    #[trigger] now.roots[k],
                ) by {}
            }
            assert forall|x: usize| a.live(x) && x != root implies now.arena.rank(x) == a.rank(
                x,
            ) by {}
            assert(now.arena.ranks_ok(rv)) by {
                assert forall|r: int| 0 <= r < rv.len() implies ((#[trigger] rv[r]) matches Some(
                    i,
                ) ==> now.arena.is_top(i) && now.arena.rank(i) == r) by {}
            }
            assert forall|k: int| 0 <= k < now.roots.len() implies !now.arena.parked_at(
                rv,
                #[trigger] now.roots[k],
            ) by {}
            assert(!now.arena.parked_at(rv, root));
            assert(now.covered(now.arena.parked(rv, 0).insert(root))) by {
                assert forall|x: usize| #[trigger] now.arena.is_top(x) implies now.roots.contains(
                    x,
                ) || now.arena.parked(rv, 0).insert(root).contains(x) by {}
            }
        }
        self.insert_by_rank(rank_vec, root);
    }

    /// Finds `node`, a tree that is in no list, a place in the by-rank array.
    /// Where the place for its rank is taken, the two trees are linked: the
    /// one with the smaller key becomes the parent, the one that was there
    /// first where the keys are equal.
    fn insert_by_rank(&mut self, rank_vec: &mut Vec<Option<usize>>, node: usize)
        requires
            old(self).forest().consolidating(old(rank_vec)@),
            old(self).forest().arena.is_top(node),
            !old(self).forest().roots.contains(node),
            !old(self).forest().arena.parked_at(old(rank_vec)@, node),
            old(self).forest().covered(
                old(self).forest().arena.parked(old(rank_vec)@, 0).insert(node),
            ),
        ensures
            (final(self).forest().arena, final(rank_vec)@) == old(self).forest().arena.ranked(
                old(rank_vec)@,
                node,
            ),
            final(self).forest().consolidating(final(rank_vec)@),
            final(self).forest().covered(final(self).forest().arena.parked(final(rank_vec)@, 0)),
            final(self).forest().roots == old(self).forest().roots,
            final(self).forest().arena.payload() == old(self).forest().arena.payload(),
        decreases count_some(old(rank_vec)@), 1nat,
    {
        let ghost f = self.forest();
        let ghost rv0 = rank_vec@;
        let rank: usize = self.nodes[node].rank();
        while rank_vec.len() <= rank
            invariant
                rank_vec@.len() >= rv0.len(),
                rank_vec@.subrange(0, rv0.len() as int) == rv0,
                forall|j: int| rv0.len() <= j < rank_vec@.len() ==> rank_vec@[j] is None,
                count_some(rank_vec@) == count_some(rv0),
                padded(rank_vec@, (rank + 1) as nat) == padded(rv0, (rank + 1) as nat),
            decreases rank + 1 - rank_vec.len(),
        {
            proof {
                lemma_count_some_grown(rank_vec@);
            }
            rank_vec.push(None);
        }
        let ghost rv1 = rank_vec@;
        proof {
            assert forall|j: int| 0 <= j < rv0.len() implies rv1[j] == rv0[j] by {}
            assert(f.arena.ranks_ok(rv1)) by {
                assert forall|r: int| 0 <= r < rv1.len() implies ((#[trigger] rv1[r]) matches Some(
                    i,
                ) ==> f.arena.is_top(i) && f.arena.rank(i) == r) by {}
            }
        }
        match rank_vec[rank] {
            None => {
                rank_vec[rank] = Some(node);
                proof {
                    let rv2 = rank_vec@;
                    assert forall|k: int| 0 <= k < f.roots.len() implies !f.arena.parked_at(
                        rv2,
                        #[trigger] f.roots[k],
                    ) by {}
                    assert forall|x: usize| #[trigger] f.arena.is_top(x) implies f.roots.contains(
                        x,
                    ) || f.arena.parked(rv2, 0).contains(x) by {}
                }
            },
            Some(other) => {
                rank_vec[rank] = None;
                proof {
                    let rv2 = rank_vec@;
                    lemma_count_some_emptied(rv1, rank as int);
                    assert(!f.roots.contains(other));
                    assert forall|k: int| 0 <= k < f.roots.len() implies !f.arena.parked_at(
                        rv2,
                        #[trigger] f.roots[k],
                    ) by {}
                    assert forall|x: usize| #[trigger] f.arena.is_top(x) implies f.roots.contains(
                        x,
                    ) || f.arena.parked(rv2, 0).insert(node).insert(other).contains(x) by {}
                }
                if self.key_less(node, other) {
                    self.link_and_insert(rank_vec, node, other);
                } else {
                    self.link_and_insert(rank_vec, other, node);
                }
            },
        }
    }

    /// Rebuilds the root list so that no two roots have the same rank: takes
    /// the roots one after another, links trees of equal rank, and adds what
    /// is left to an empty root list in the order of the ranks.
    fn consolidate(&mut self)
        requires
            old(self).forest().inner_wf(),
            old(self).forest().covered(Set::empty()),
        ensures
            final(self).forest() == old(self).forest().consolidated(),
            final(self).forest().wf(),
            final(self).forest().ranks_distinct(),
            final(self).forest().arena.payload() == old(self).forest().arena.payload(),
    {
        let ghost before = self.forest();
        // The largest rank in a heap grows with the logarithm of its size.
        let size: usize = floor_log2(self.total) + 2;
        let mut rank_vec: Vec<Option<usize>> = Vec::new();
        while rank_vec.len() < size
            invariant
                rank_vec@.len() <= size,
                forall|j: int| 0 <= j < rank_vec@.len() ==> rank_vec@[j] is None,
            decreases size - rank_vec.len(),
        {
            rank_vec.push(None);
        }
        let ghost rv_first = rank_vec@;
        proof {
            assert(rv_first =~= nones(size as nat));
        }
        while self.roots.len() > 0
            invariant
                self.forest().consolidating(rank_vec@),
                self.forest().covered(self.forest().arena.parked(rank_vec@, 0)),
                self.forest().arena.payload() == before.arena.payload(),
                before.arena.gathered(rv_first, before.roots) == self.forest().arena.gathered(
                    rank_vec@,
                    self.forest().roots,
                ),
            decreases self.roots.len(),
        {
            let ghost f = self.forest();
            let node: usize = self.roots.pop_front().unwrap();
            proof {
                let g = self.forest();
                let rv = rank_vec@;
                assert(!g.roots.contains(node));
                assert(g.roots_sound()) by {
                    assert forall|k: int| 0 <= k < g.roots.len() implies g.arena.is_top(
                        #[trigger] g.roots[k],
                    ) by {}
                    assert forall|a: int, b: int|
                        0 <= a < g.roots.len() && 0 <= b < g.roots.len() && a != b implies
                        g.roots[a] != g.roots[b] by {}
                }
                assert forall|k: int| 0 <= k < g.roots.len() implies !g.arena.parked_at(
                    rv,
                    #[trigger] g.roots[k],
                ) by {}
                assert forall|x: usize| #[trigger] g.arena.is_top(x) implies g.roots.contains(x)
                    || g.arena.parked(rv, 0).insert(node).contains(x) by {
                    if f.roots.contains(x) && x != node {
                        let k = choose|k: int| 0 <= k < f.roots.len() && f.roots[k] == x;
                        assert(g.roots[k - 1] == x);
                    }
                }
            }
            self.insert_by_rank(&mut rank_vec, node);
        }
        let ghost mid = self.forest();
        let n: usize = rank_vec.len();
        let mut r: usize = 0;
        proof {
            assert(mid.roots =~= Seq::<usize>::empty());
        }
        while r < n
            invariant
                r <= n,
                n == rank_vec@.len(),
                before.consolidated() == self.forest().seated(rank_vec@, r as int),
                mid.roots.len() == 0,
                mid.consolidating(rank_vec@),
                self.forest().arena == mid.arena,
                self.forest().roots_sound(),
                self.forest().front_min(),
                self.forest().covered(mid.arena.parked(rank_vec@, r as int)),
                forall|k: int|
                    0 <= k < self.forest().roots.len() ==> mid.arena.parked_at(
                        rank_vec@,
                        #[trigger] self.forest().roots[k],
                    ) && mid.arena.rank(self.forest().roots[k]) < r,
            decreases n - r,
        {
            let ghost f = self.forest();
            let ghost rv = rank_vec@;
            match rank_vec[r] {
                Some(i) => {
                    proof {
                        assert(!f.roots.contains(i));
                        f.lemma_with_root(i, None);
                    }
                    self.insert_root(i, None);
                    proof {
                        let g = self.forest();
                        assert forall|x: usize| #[trigger]
                            g.arena.is_top(x) implies g.roots.contains(x) || mid.arena.parked(
                            rv,
                            r + 1,
                        ).contains(x) by {}
                        assert forall|k: int| 0 <= k < g.roots.len() implies mid.arena.parked_at(
                            rv,
                            #[trigger] g.roots[k],
                        ) && mid.arena.rank(g.roots[k]) < r + 1 by {}
                    }
                },
                None => {
                    proof {
                        assert forall|x: usize| #[trigger]
                            f.arena.is_top(x) implies f.roots.contains(x) || mid.arena.parked(
                            rv,
                            r + 1,
                        ).contains(x) by {}
                    }
                },
            }
            r = r + 1;
        }
        proof {
            let g = self.forest();
            assert forall|x: usize| #[trigger] g.arena.is_top(x) implies g.roots.contains(x) by {}
            assert forall|a: int, b: int| 0 <= a < b < g.roots.len() implies g.arena.rank(
                #[trigger] g.roots[a],
            ) != g.arena.rank(#[trigger] g.roots[b]) by {}
        }
    }
}

impl<K: HeapKey, V> FibHeap<K, V> {
    /// Takes the first root out of the heap: makes its children roots, gives
    /// up its slot, and rebuilds the root list by rank.
    fn take_front(&mut self) -> (kv: (K, V))
        requires
            old(self).forest().inner_wf(),
            old(self).forest().covered(Set::empty()),
            old(self).forest().roots.len() > 0,
        ensures
            ({
                let before = old(self).forest();
                let after = final(self).forest();
                let front = before.arena.handle_of(before.roots[0]);
                &&& after == before.without_front()
                &&& after.wf()
                &&& after.ranks_distinct()
                &&& old(self)@.contains_key(front)
                &&& kv == old(self)@[front]
                &&& final(self)@ == old(self)@.remove(front)
                &&& forall|x: Handle| #[trigger] after.arena.issued(x) == before.arena.issued(x)
            }),
    {
        let ghost before = self.forest();
        let m: usize = self.roots.pop_front().unwrap();
        let ghost popped = self.forest();
        proof {
            assert(!popped.roots.contains(m));
            assert(popped.roots_sound()) by {
                assert forall|k: int| 0 <= k < popped.roots.len() implies popped.arena.is_top(
                    #[trigger] popped.roots[k],
                ) by {}
                assert forall|a: int, b: int|
                    0 <= a < popped.roots.len() && 0 <= b < popped.roots.len() && a
                        != b implies popped.roots[a] != popped.roots[b] by {}
            }
            assert forall|x: usize| #[trigger] popped.arena.is_top(x) implies popped.roots.contains(
                x,
            ) || x == m by {
                if before.roots.contains(x) && x != m {
                    let k = choose|k: int| 0 <= k < before.roots.len() && before.roots[k] == x;
                    assert(popped.roots[k - 1] == x);
                }
            }
            before.arena.lemma_with_drained(m);
        }
        let kids = self.nodes[m].drain_children();
        let ghost drained = self.forest();
        proof {
            assert(self.forest().arena.slots =~= before.arena.with_drained(m).slots);
            let now = self.forest();
            before.arena.lemma_same_payload(now.arena);
            popped.lemma_roots_kept(now, None);
            assert(kids@.subrange(0, kids@.len() as int) =~= kids@);
        }
        let n: usize = kids.len();
        let mut k: usize = 0;
        while k < n
            invariant
                k <= n,
                n == kids@.len(),
                self.forest().arena.orphaned_wf(m, kids@.subrange(k as int, n as int)),
                self.forest().arena.order_wf(),
                self.forest().arena.free_wf(),
                self.forest().arena.counted(),
                self.forest().arena.fib_wf(),
                self.forest().arena.payload() == before.arena.payload(),
                self.forest().roots_sound(),
                !self.forest().roots.contains(m),
                forall|x: usize|
                    #[trigger] self.forest().arena.is_top(x) ==> self.forest().roots.contains(x)
                        || x == m,
                drained.with_promoted(kids@) == self.forest().with_promoted(
                    kids@.subrange(k as int, n as int),
                ),
            decreases n - k,
        {
            let child: usize = kids[k];
            let ghost f = self.forest();
            let ghost pending = kids@.subrange(k as int, n as int);
            proof {
                f.arena.lemma_with_promoted(m, pending);
                assert(pending.subrange(1, pending.len() as int) =~= kids@.subrange(
                    k + 1,
                    n as int,
                ));
            }
            self.nodes[child].set_parent(None);
            self.nodes[child].set_marked(false);
            proof {
                assert(self.forest().arena.slots =~= f.arena.with_promoted(child).slots);
                let g = self.forest();
                f.arena.lemma_same_payload(g.arena);
                assert(!g.roots.contains(child));
                g.lemma_with_root(child, None);
            }
            self.insert_root(child, None);
            k = k + 1;
        }
        let ghost f = self.forest();
        proof {
            f.arena.lemma_with_vacated(m);
            before.arena.lemma_same_payload(f.arena);
        }
        let inner = self.nodes[m].vacate();
        if self.nodes[m].generation() < u64::MAX {
            self.free.push(m);
        }
        self.total = self.total - 1;
        proof {
            let g = self.forest();
            assert(g.arena.slots =~= f.arena.with_vacated(m).slots);
            assert(g.roots_sound()) by {
                assert forall|j: int| 0 <= j < g.roots.len() implies g.arena.is_top(
                    #[trigger] g.roots[j],
                ) by {}
            }
            assert(g.covered(Set::empty())) by {
                assert forall|x: usize| #[trigger]
                    g.arena.is_top(x) implies g.roots.contains(x) by {}
            }
        }
        let ghost g = self.forest();
        self.consolidate();
        proof {
            g.arena.lemma_same_payload(self.forest().arena);
        }
        inner.into_inner()
    }
}

impl<K: HeapKey, V> FibHeap<K, V> {
    /// `entry` has been handed out by this heap at some time: it names an
    /// element of the heap, or one that was removed.
    pub closed spec fn issued(&self, entry: Handle) -> bool {
        self.forest().arena.issued(entry)
    }

    /// The handle of the first root.
    pub closed spec fn front(&self) -> Handle {
        self.forest().arena.handle_of(self.forest().roots[0])
    }

    /// The handle of the parent of the element that `entry` names; `None` for
    /// a root.
    pub closed spec fn parent_of(&self, entry: Handle) -> Option<Handle> {
        match self.forest().arena.node(entry.index).parent {
            Some(p) => Some(self.forest().arena.handle_of(p)),
            None => None,
        }
    }

    /// The number of children of the element that `entry` names.
    pub closed spec fn rank_of(&self, entry: Handle) -> nat {
        self.forest().arena.rank(entry.index)
    }

    /// Whether the element that `entry` names is marked.
    pub closed spec fn marked(&self, entry: Handle) -> bool {
        self.forest().arena.node(entry.index).marked
    }

    /// The number of elements.
    pub fn len(&self) -> (n: usize)
        requires
            self.forest().wf(),
        ensures
            n == self@.len(),
    {
        self.total
    }

    /// The number of roots.
    pub fn root_count(&self) -> (n: usize)
        ensures
            n == self.forest().roots.len(),
    {
        self.roots.len()
    }

    /// The key of the element that `entry` names.
    pub fn get_key(&self, entry: &Handle) -> (r: Result<K, HeapError>)
        ensures
            r is Ok <==> self@.contains_key(*entry),
            r matches Ok(k) ==> k == self@[*entry].0,
            r matches Err(e) ==> e == HeapError::UseAfterRemoval,
    {
        if !self.contains(entry) {
            return Err(HeapError::UseAfterRemoval);
        }
        Ok(*self.nodes[entry.index].get_key())
    }

    /// The value of the element that `entry` names.
    pub fn get_value(&self, entry: &Handle) -> (r: Result<&V, HeapError>)
        ensures
            r is Ok <==> self@.contains_key(*entry),
            r matches Ok(v) ==> *v == self@[*entry].1,
            r matches Err(e) ==> e == HeapError::UseAfterRemoval,
    {
        if !self.contains(entry) {
            return Err(HeapError::UseAfterRemoval);
        }
        Ok(self.nodes[entry.index].get_value())
    }

    /// The handle of the parent of the element that `entry` names; `None` for
    /// a root.
    pub fn get_parent(&self, entry: &Handle) -> (r: Result<Option<Handle>, HeapError>)
        requires
            self.forest().wf(),
        ensures
            r is Ok <==> self@.contains_key(*entry),
            r matches Ok(p) ==> p == self.parent_of(*entry),
            r matches Ok(Some(p)) ==> self@.contains_key(p),
            r matches Err(e) ==> e == HeapError::UseAfterRemoval,
    {
        if !self.contains(entry) {
            return Err(HeapError::UseAfterRemoval);
        }
        match self.nodes[entry.index].get_parent() {
            Some(p) => {
                Ok(Some(Handle { index: p, generation: self.nodes[p].generation() }))
            },
            None => Ok(None),
        }
    }

    /// The number of children of the element that `entry` names.
    pub fn rank(&self, entry: &Handle) -> (r: Result<usize, HeapError>)
        ensures
            r is Ok <==> self@.contains_key(*entry),
            r matches Ok(n) ==> n == self.rank_of(*entry),
            r matches Err(e) ==> e == HeapError::UseAfterRemoval,
    {
        if !self.contains(entry) {
            return Err(HeapError::UseAfterRemoval);
        }
        Ok(self.nodes[entry.index].rank())
    }

    /// Whether the element that `entry` names is marked.
    pub fn get_marked(&self, entry: &Handle) -> (r: Result<bool, HeapError>)
        ensures
            r is Ok <==> self@.contains_key(*entry),
            r matches Ok(m) ==> m == self.marked(*entry),
            r matches Err(e) ==> e == HeapError::UseAfterRemoval,
    {
        if !self.contains(entry) {
            return Err(HeapError::UseAfterRemoval);
        }
        Ok(self.nodes[entry.index].get_marked())
    }

    /// The handles of the roots, in the order of the root list.
    pub closed spec fn root_handles(&self) -> Seq<Handle> {
        Seq::new(
            self.forest().roots.len(),
            |k: int| self.forest().arena.handle_of(self.forest().roots[k]),
        )
    }

    /// The handles of the children of the element that `entry` names, in
    /// their order.
    pub closed spec fn children_of(&self, entry: Handle) -> Seq<Handle> {
        Seq::new(
            self.forest().arena.node(entry.index).children.len(),
            |j: int|
                self.forest().arena.handle_of(self.forest().arena.node(entry.index).children[j]),
        )
    }

    /// The handles of the roots, in the order of the root list. The first
    /// names an element of least key.
    pub fn roots(&self) -> (r: Vec<Handle>)
        requires
            self.forest().wf(),
        ensures
            r@ == self.root_handles(),
            r@.len() == self.forest().roots.len(),
            forall|k: int| 0 <= k < r@.len() ==> self@.contains_key(#[trigger] r@[k]),
    {
        let mut out: Vec<Handle> = Vec::new();
        let n: usize = self.roots.len();
        let mut k: usize = 0;
        while k < n
            invariant
                k <= n,
                n == self.forest().roots.len(),
                self.forest().wf(),
                self.forest().arena.slots.len() == self.nodes.len(),
                out@ == self.root_handles().subrange(0, k as int),
            decreases n - k,
        {
            let i: usize = self.roots[k];
            out.push(Handle { index: i, generation: self.nodes[i].generation() });
            k = k + 1;
        }
        proof {
            assert forall|k: int| 0 <= k < out@.len() implies self@.contains_key(
                #[trigger] out@[k],
            ) by {}
        }
        out
    }

    /// The handles of the children of the element that `entry` names, in
    /// their order.
    pub fn children(&self, entry: &Handle) -> (r: Result<Vec<Handle>, HeapError>)
        requires
            self.forest().wf(),
        ensures
            r is Ok <==> self@.contains_key(*entry),
            r matches Ok(c) ==> c@ == self.children_of(*entry) && c@.len() == self.rank_of(*entry)
                && forall|j: int|
                0 <= j < c@.len() ==> self@.contains_key(#[trigger] c@[j]) && self.parent_of(c@[j])
                    == Some(*entry),
            r matches Err(e) ==> e == HeapError::UseAfterRemoval,
    {
        if !self.contains(entry) {
            return Err(HeapError::UseAfterRemoval);
        }
        let p: usize = entry.index;
        let ghost kids = self.forest().arena.node(p).children;
        let mut out: Vec<Handle> = Vec::new();
        let n: usize = self.nodes[p].rank();
        let mut j: usize = 0;
        while j < n
            invariant
                j <= n,
                n == kids.len(),
                kids == self.forest().arena.node(p).children,
                self.forest().arena.live(p),
                self.forest().arena.children_ok(p),
                self.forest().arena.slots.len() == self.nodes.len(),
                out@ == self.children_of(*entry).subrange(0, j as int),
                p == entry.index,
            decreases n - j,
        {
            let c: usize = self.nodes[p].get_child(j);
            out.push(Handle { index: c, generation: self.nodes[c].generation() });
            j = j + 1;
        }
        proof {
            assert forall|j: int| 0 <= j < out@.len() implies self@.contains_key(
                #[trigger] out@[j],
            ) && self.parent_of(out@[j]) == Some(*entry) by {}
        }
        Ok(out)
    }

    /// The number of slots in the arena: by so much the handles of a heap
    /// that is merged into this one move on.
    pub fn capacity(&self) -> (n: usize)
        ensures
            n == self.forest().arena.slots.len(),
    {
        self.nodes.len()
    }
}

impl<K: HeapKey, V> Heap<K, V> for FibHeap<K, V> {
    type HeapEntry = Handle;

    open spec fn wf(&self) -> bool {
        self.forest().wf()
    }

    open spec fn elements(&self) -> Map<Handle, (K, V)> {
        self@
    }

    proof fn lemma_finite(&self) {}

    /// The key and the value of an element with the least key.
    fn find_min(&self) -> (r: Result<(K, &V), HeapError>)
        ensures
            r matches Ok(kv) ==> is_least(self@, self.front()) && self@[self.front()] == (
                kv.0,
                *kv.1,
            ),
    {
        proof {
            self.forest().lemma_empty_iff();
        }
        if self.roots.len() == 0 {
            return Err(HeapError::EmptyHeap);
        }
        let front: usize = self.roots[0];
        let slot = &self.nodes[front];
        proof {
            let f = self.forest();
            let h = f.arena.handle_of(front);
            assert forall|o: Handle| self@.contains_key(o) implies self@[h].0.priority() <= (
            #[trigger] self@[o]).0.priority() by {
                f.lemma_front_is_least(o.index);
            }
            assert(is_least(self.elements(), h));
        }
        Ok((*slot.get_key(), slot.get_value()))
    }

    /// Removes an element with the least key and returns its key and value.
    fn delete_min(&mut self) -> (r: Result<(K, V), HeapError>)
        ensures
            r is Err ==> final(self).forest() == old(self).forest(),
            r matches Ok(kv) ==> {
                &&& is_least(old(self)@, old(self).front())
                &&& old(self)@[old(self).front()] == kv
                &&& final(self)@ == old(self)@.remove(old(self).front())
                &&& final(self)@.len() == old(self)@.len() - 1
                &&& final(self).forest() == old(self).forest().without_front()
                &&& final(self).forest().ranks_distinct()
            },
            forall|x: Handle| #[trigger] final(self).issued(x) == old(self).issued(x),
    {
        proof {
            self.forest().lemma_empty_iff();
        }
        if self.roots.len() == 0 {
            return Err(HeapError::EmptyHeap);
        }
        proof {
            let f = self.forest();
            let h = f.arena.handle_of(f.roots[0]);
            assert forall|o: Handle| self@.contains_key(o) implies self@[h].0.priority() <= (
            #[trigger] self@[o]).0.priority() by {
                f.lemma_front_is_least(o.index);
            }
        }
        Ok(self.take_front())
    }

    /// Adds an element and returns the handle by which it is known from now
    /// on.
    fn insert(&mut self, key: K, value: V) -> (h: Handle)
        ensures
            !old(self).issued(h),
            forall|x: Handle| #[trigger] final(self).issued(x) <==> old(self).issued(x) || x == h,
            forall|x: Handle|
                old(self).issued(x) && !old(self)@.contains_key(x) ==> !(
                #[trigger] final(self)@.contains_key(x)),
            final(self)@.len() == old(self)@.len() + 1,
            final(self).forest() == (Forest {
                arena: old(self).forest().arena.with_fresh(key, value),
                ..old(self).forest()
            }).with_root(old(self).forest().arena.next_slot(), None),
            h == final(self).forest().arena.handle_of(old(self).forest().arena.next_slot()),
            final(self).parent_of(h) is None,
            final(self).rank_of(h) == 0,
            !final(self).marked(h),
    {
        let ghost before = self.forest();
        let i: usize = self.admit_node(key, value);
        proof {
            before.arena.lemma_with_fresh(key, value);
            let mid = self.forest();
            assert(!mid.roots.contains(i));
            mid.lemma_with_root(i, None);
        }
        self.insert_root(i, None);
        Handle { index: i, generation: self.nodes[i].generation() }
    }

    /// Lowers the key of the element that `entry` names by `delta`.
    fn decrease_key(&mut self, entry: &Handle, delta: K) -> (r: Result<(), HeapError>)
        ensures
            r is Err ==> final(self).forest() == old(self).forest(),
            r is Ok ==> ({
                let lowered = old(self)@[*entry].0.spec_decreased(delta).unwrap();
                &&& final(self)@.len() == old(self)@.len()
                &&& final(self).forest() == (Forest {
                    arena: old(self).forest().arena.with_key(entry.slot(), lowered),
                    ..old(self).forest()
                }).decreased(entry.slot(), None)
                &&& match old(self).parent_of(*entry) {
                    Some(p) => {
                        if lowered.priority() < old(self)@[p].0.priority() {
                            final(self).parent_of(*entry) is None && !final(self).marked(*entry)
                        } else {
                            final(self).parent_of(*entry) == Some(p)
                        }
                    },
                    None => final(self).parent_of(*entry) is None,
                }
            }),
            forall|x: Handle| #[trigger] final(self).issued(x) == old(self).issued(x),
    {
        if !self.contains(entry) {
            return Err(HeapError::UseAfterRemoval);
        }
        let ghost before = self.forest();
        let i: usize = entry.index;
        let key: K = *self.nodes[i].get_key();
        match key.decreased(&delta) {
            None => Err(HeapError::InvalidDelta),
            Some(new_key) => {
                proof {
                    key.lemma_decreased_is_lower(delta);
                    before.arena.lemma_with_key(i, new_key);
                }
                self.nodes[i].set_key(new_key);
                let ghost mid = self.forest();
                proof {
                    assert(mid.arena.slots =~= before.arena.with_key(i, new_key).slots);
                    assert(mid.roots_sound()) by {
                        assert forall|k: int| 0 <= k < mid.roots.len() implies mid.arena.is_top(
                            #[trigger] mid.roots[k],
                        ) by {}
                    }
                    assert(mid.covered(Set::empty())) by {
                        assert forall|x: usize| #[trigger]
                            mid.arena.is_top(x) implies mid.roots.contains(x) by {}
                    }
                    if mid.arena.node(i).parent is Some {
                        assert forall|k: int| 0 <= k < mid.roots.len() implies mid.arena.prio(
                            mid.roots[0],
                        ) <= mid.arena.prio(#[trigger] mid.roots[k]) by {}
                    }
                }
                self.decreased_node(i, None);
                proof {
                    let now = self.forest();
                    mid.arena.lemma_same_payload(now.arena);
                }
                Ok(())
            },
        }
    }

    /// Whether the heap holds no element.
    fn empty(&self) -> (b: bool)
        ensures
            b == (self@.len() == 0),
    {
        proof {
            self.forest().lemma_empty_iff();
        }
        self.total == 0
    }
}

impl<K: HeapKey, V> HeapExt<K, V> for FibHeap<K, V> {
    /// Merges `other` into `self`. The elements of `self` keep their handles;
    /// an element of `other` is known from now on by its handle rebased by
    /// the capacity that `self` had. The root lists are put one behind the
    /// other, the one with the smaller least key first.
    fn merge(self, other: Self) -> (merged: Self)
        ensures
            self.forest().arena.slots.len() + other.forest().arena.slots.len() <= usize::MAX,
            merged.forest() == self.forest().joined(
                other.forest(),
                self.forest().leads(other.forest()),
            ),
            merged@ == join_entries(self@, other@, self.forest().arena.slots.len() as usize),
            forall|h: Handle|
                self@.contains_key(h) ==> #[trigger] merged@.contains_key(h) && merged@[h]
                    == self@[h],
            forall|h: Handle| #[trigger]
                other@.contains_key(h) ==> {
                    let moved = h.spec_rebased(self.forest().arena.slots.len() as usize);
                    &&& moved is Some
                    &&& merged@.contains_key(moved.unwrap())
                    &&& merged@[moved.unwrap()] == other@[h]
                },
            forall|h: Handle| #[trigger]
                merged@.contains_key(h) ==> self@.contains_key(h) || exists|o: Handle|
                    other@.contains_key(o) && #[trigger] o.spec_rebased(
                        self.forest().arena.slots.len() as usize,
                    ) == Some(h),
            forall|h: Handle|
                #[trigger] merged.issued(h) <==> self.issued(h) || (is_beyond(
                    h,
                    self.forest().arena.slots.len() as usize,
                ) && other.issued(unshift_handle(h, self.forest().arena.slots.len() as usize))),
    {
        let ghost a = self.forest();
        let ghost b = other.forest();
        let mut heap = self;
        let mut other = other;
        let offset: usize = heap.nodes.len();
        let self_first = if heap.roots.len() > 0 && other.roots.len() > 0 {
            let mine: usize = heap.roots[0];
            let theirs: usize = other.roots[0];
            heap.nodes[mine].get_key().less_than(other.nodes[theirs].get_key())
        } else {
            false
        };
        let ghost mine_before = heap.nodes@;
        let ghost theirs_before = other.nodes@;
        heap.nodes.append(&mut other.nodes);
        let end: usize = heap.nodes.len();
        let mut j: usize = offset;
        while j < end
            invariant
                heap.total == a.arena.total,
                heap.heights@ == a.arena.heights,
                heap.links@ == a.arena.links,
                heap.roots@ == a.roots,
                heap.free@ == a.arena.free,
                offset <= j <= end,
                end == offset + theirs_before.len(),
                offset == mine_before.len(),
                heap.nodes@.len() == end,
                b.arena.shape_wf(),
                b.arena.slots == theirs_before.map_values(|n: FibNode<K, V>| n@),
                forall|t: int| 0 <= t < offset ==> heap.nodes@[t] == mine_before[t],
                forall|t: int|
                    offset <= t < j ==> (#[trigger] heap.nodes@[t])@ == shift_slot(
                        theirs_before[t - offset]@,
                        offset,
                    ),
                forall|t: int| j <= t < end ==> heap.nodes@[t] == theirs_before[t - offset],
            decreases end - j,
        {
            proof {
                let y = (j - offset) as usize;
                if b.arena.live(y) {
                    let n = b.arena.node(y);
                    assert forall|c: int| 0 <= c < n.children.len() implies n.children[c] + offset
                        <= usize::MAX by {}
                }
            }
            heap.nodes[j].shift_links(offset);
            j = j + 1;
        }
        let mut shifted: VecDeque<usize> = VecDeque::new();
        let root_count: usize = other.roots.len();
        let mut k: usize = 0;
        while k < root_count
            invariant
                k <= root_count,
                root_count == other.roots@.len(),
                other.roots@ == b.roots,
                b.roots_sound(),
                b.arena.slots.len() + offset <= usize::MAX,
                shifted@ == shift_seq(b.roots.subrange(0, k as int), offset),
            decreases root_count - k,
        {
            let root: usize = other.roots[k];
            shifted.push_back(root + offset);
            k = k + 1;
        }
        if self_first {
            heap.roots.append(&mut shifted);
        } else {
            shifted.append(&mut heap.roots);
            heap.roots = shifted;
        }
        let free_count: usize = other.free.len();
        let mut k: usize = 0;
        let ghost free_before = heap.free@;
        let ghost nodes_after = heap.nodes@;
        let ghost roots_after = heap.roots@;
        while k < free_count
            invariant
                heap.nodes@ == nodes_after,
                heap.roots@ == roots_after,
                heap.total == a.arena.total,
                heap.heights@ == a.arena.heights,
                heap.links@ == a.arena.links,
                k <= free_count,
                free_count == other.free@.len(),
                other.free@ == b.arena.free,
                b.arena.free_wf(),
                b.arena.slots.len() + offset <= usize::MAX,
                heap.free@ == free_before + shift_seq(b.arena.free.subrange(0, k as int), offset),
            decreases free_count - k,
        {
            let slot: usize = other.free[k];
            heap.free.push(slot + offset);
            k = k + 1;
        }
        heap.total = heap.total + other.total;
        proof {
            heap.heights@ = a.arena.heights + b.arena.heights;
            heap.links@ = a.arena.links + b.arena.links;
            let g = a.joined(b, a.leads(b));
            assert(b.roots.subrange(0, root_count as int) =~= b.roots);
            assert(b.arena.free.subrange(0, free_count as int) =~= b.arena.free);
            assert(heap.forest().arena.slots =~= g.arena.slots) by {
                assert forall|t: int| 0 <= t < end implies heap.forest().arena.slots[t]
                    == g.arena.slots[t] by {}
            }
            assert(self_first == a.leads(b));
            a.lemma_joined(b);
            let mine = a.arena.entries();
            let theirs = b.arena.entries();
            assert(heap@ == join_entries(mine, theirs, offset));
            assert forall|h: Handle| #[trigger] theirs.contains_key(h) implies {
                let moved = h.spec_rebased(offset);
                &&& moved is Some
                &&& heap@.contains_key(moved.unwrap())
                &&& heap@[moved.unwrap()] == theirs[h]
            } by {
                assert(b.arena.holds(h));
                let moved = h.spec_rebased(offset).unwrap();
                assert(unshift_handle(moved, offset) == h);
                assert(!mine.contains_key(moved)) by {
                    if mine.contains_key(moved) {
                        assert(a.arena.holds(moved));
                    }
                }
            }
            assert forall|h: Handle| #[trigger] mine.contains_key(h) implies exists|m: Handle|
                heap.elements().contains_key(m) && #[trigger] heap.elements()[m] == mine[h] by {
                assert(heap.elements().contains_key(h) && heap.elements()[h] == mine[h]);
            }
            assert forall|h: Handle| #[trigger] theirs.contains_key(h) implies exists|m: Handle|
                heap.elements().contains_key(m) && #[trigger] heap.elements()[m] == theirs[h] by {
                let m = h.spec_rebased(offset).unwrap();
                assert(heap.elements().contains_key(m) && heap.elements()[m] == theirs[h]);
            }
            assert forall|h: Handle| #[trigger] heap@.contains_key(h) implies mine.contains_key(h)
                || exists|o: Handle|
                theirs.contains_key(o) && #[trigger] o.spec_rebased(offset) == Some(h) by {
                if !mine.contains_key(h) {
                    let o = unshift_handle(h, offset);
                    assert(is_beyond(h, offset));
                    assert(theirs.contains_key(o));
                    assert(o.index + offset == h.index);
                }
            }
        }
        heap
    }
}

impl<K: HeapKey, V> HeapDelete<K, V> for FibHeap<K, V> {
    /// Removes the element that `entry` names and returns its key and value.
    ///
    /// The element is treated as one whose key is below every other: it is
    /// made the first root, as a lowered key would make it, and then taken
    /// out as the minimum is.
    fn delete(&mut self, entry: Handle) -> (r: Result<(K, V), HeapError>)
        ensures
            r is Err ==> final(self).forest() == old(self).forest(),
            r is Ok ==> {
                &&& final(self)@.len() == old(self)@.len() - 1
                &&& final(self).forest() == old(self).forest().decreased(
                    entry.slot(),
                    Some(entry.slot()),
                ).without_front()
                &&& final(self).forest().ranks_distinct()
            },
            forall|x: Handle| #[trigger] final(self).issued(x) == old(self).issued(x),
    {
        if !self.contains(&entry) {
            return Err(HeapError::UseAfterRemoval);
        }
        let ghost before = self.forest();
        let i: usize = entry.index;
        self.decreased_node(i, Some(i));
        proof {
            let mid = self.forest();
            before.arena.lemma_same_payload(mid.arena);
        }
        Ok(self.take_front())
    }
}

impl<K: HeapKey, V> FibHeap<K, V> {
    /// The count of a heap is the number of its elements, and that is the
    /// number of handles that name one.
    pub proof fn lemma_count(&self)
        requires
            self.forest().wf(),
        ensures
            self@.dom().finite(),
            self.forest().arena.total == self@.len(),
            self.forest().arena.total == self@.dom().len(),
            (self.forest().roots.len() == 0) == (self@.len() == 0),
    {
        self.forest().lemma_empty_iff();
    }

    /// Heap order: the parent of an element is an element of the heap, and
    /// its key is not larger.
    pub proof fn lemma_heap_order(&self, entry: Handle)
        requires
            self.forest().wf(),
            self@.contains_key(entry),
            self.parent_of(entry) is Some,
        ensures
            self@.contains_key(self.parent_of(entry).unwrap()),
            self@[self.parent_of(entry).unwrap()].0.priority() <= self@[entry].0.priority(),
    {
        self.forest().lemma_heap_order(entry.index);
    }

    /// The Fibonacci number two behind the rank of an element is at most the
    /// number of elements.
    pub proof fn lemma_rank_is_logarithmic(&self, entry: Handle)
        requires
            self.forest().wf(),
            self@.contains_key(entry),
        ensures
            fib(self.rank_of(entry) + 2) <= self@.len(),
    {
        self.forest().lemma_rank_is_logarithmic(entry.index);
    }

    /// Every element of a heap is named by a handle that was handed out.
    pub proof fn lemma_elements_are_issued(&self, entry: Handle)
        requires
            self@.contains_key(entry),
        ensures
            self.issued(entry),
    {}
}

} // verus!
