//! The operations on a forest, put together from the single changes.
use vstd::prelude::*;
use crate::arena::{lemma_max_height, max_height, Arena};
use crate::forest::Forest;
use crate::key::HeapKey;
use crate::ranks::{
    count_some, lemma_count_some_emptied, lemma_padded, nones, padded, spec_floor_log2,
};

verus! {

impl<K: HeapKey, V> Arena<K, V> {
    /// The arena and the by-rank array after the tree `node` was given a
    /// place in the array. Where the place for its rank is taken, the two
    /// trees are linked, the one with the smaller key on top, the one that was
    /// there first where the keys are equal, and the grown tree is given a
    /// place in turn.
    pub open spec fn ranked(self, rv: Seq<Option<usize>>, node: usize) -> (Self, Seq<
        Option<usize>,
    >)
        decreases count_some(rv),
    {
        let rank = self.rank(node);
        let rv1 = padded(rv, rank + 1);
        match rv1[rank as int] {
            None => (self, rv1.update(rank as int, Some(node))),
            Some(other) => {
                let rv2 = rv1.update(rank as int, None);
                proof {
                    lemma_padded(rv, rank + 1);
                    lemma_count_some_emptied(rv1, rank as int);
                }
                if self.prio(node) < self.prio(other) {
                    self.with_link(node, other).ranked(rv2, node)
                } else {
                    self.with_link(other, node).ranked(rv2, other)
                }
            },
        }
    }

    /// The arena and the by-rank array after the trees in `pending` were
    /// given a place in the array one after another.
    pub open spec fn gathered(self, rv: Seq<Option<usize>>, pending: Seq<usize>) -> (Self, Seq<
        Option<usize>,
    >)
        decreases pending.len(),
    {
        if pending.len() == 0 {
            (self, rv)
        } else {
            let (a, rv1) = self.ranked(rv, pending[0]);
            a.gathered(rv1, pending.subrange(1, pending.len() as int))
        }
    }
}

impl<K: HeapKey, V> Forest<K, V> {
    /// The forest after the nodes in `order` were added to the root list one
    /// after another.
    pub open spec fn with_roots(self, order: Seq<usize>, pinned: Option<usize>) -> Self
        decreases order.len(),
    {
        if order.len() == 0 {
            self
        } else {
            self.with_root(order[0], pinned).with_roots(
                order.subrange(1, order.len() as int),
                pinned,
            )
        }
    }

    /// The forest with its root list built anew from the roots in their
    /// order, so that the first root is right for the keys as they are.
    pub open spec fn reseated(self, pinned: Option<usize>) -> Self {
        Forest { roots: Seq::<usize>::empty(), ..self }.with_roots(self.roots, pinned)
    }

    /// The forest after a cut below `n` has cascaded: a node with a parent is
    /// marked where it was unmarked; where it was marked it is cut and made a
    /// root, and the cascade goes on at its parent.
    pub open spec fn cascaded(self, n: usize, pinned: Option<usize>) -> Self
        decreases max_height(self.arena.heights) - self.arena.heights[n as int],
        when self.arena.shape_wf() && self.arena.live(n)
    {
        match self.arena.node(n).parent {
            Some(p) => {
                if self.arena.node(n).marked {
                    proof {
                        lemma_max_height(self.arena.heights, p as int);
                    }
                    Forest { arena: self.arena.with_cut(n), ..self }.with_root(n, pinned).cascaded(
                        p,
                        pinned,
                    )
                } else {
                    Forest { arena: self.arena.with_mark(n), ..self }
                }
            },
            None => self,
        }
    }

    /// The forest after it was set right for a lowered key of `node`, or,
    /// where `node` is pinned, after `node` was made the first root. For a
    /// root the root list is built anew. Another node stays where its key is
    /// not below that of its parent and it is not pinned; else it is cut from
    /// its parent and made a root, and the cut cascades from the parent.
    pub open spec fn decreased(self, node: usize, pinned: Option<usize>) -> Self {
        match self.arena.node(node).parent {
            Some(p) => {
                if pinned is Some || self.arena.prio(node) < self.arena.prio(p) {
                    Forest { arena: self.arena.with_cut(node), ..self }.with_root(
                        node,
                        pinned,
                    ).cascaded(p, pinned)
                } else {
                    self
                }
            },
            None => self.reseated(pinned),
        }
    }

    /// The forest after the nodes in `kids` lost their parent and their mark
    /// and were added to the root list, one after another.
    pub open spec fn with_promoted(self, kids: Seq<usize>) -> Self
        decreases kids.len(),
    {
        if kids.len() == 0 {
            self
        } else {
            Forest { arena: self.arena.with_promoted(kids[0]), ..self }.with_root(
                kids[0],
                None,
            ).with_promoted(kids.subrange(1, kids.len() as int))
        }
    }

    /// The forest after the trees in the by-rank array `rv`, from rank
    /// `from` on, were added to the root list in the order of their ranks.
    pub open spec fn seated(self, rv: Seq<Option<usize>>, from: int) -> Self
        decreases rv.len() - from,
    {
        if from < 0 || from >= rv.len() {
            self
        } else {
            match rv[from] {
                Some(i) => self.with_root(i, None).seated(rv, from + 1),
                None => self.seated(rv, from + 1),
            }
        }
    }

    /// The forest with its root list rebuilt so that no two roots have the
    /// same rank: the roots are taken in their order, trees of equal rank are
    /// linked, and what is left is added to an empty root list in the order
    /// of the ranks.
    pub open spec fn consolidated(self) -> Self {
        let (a, rv) = self.arena.gathered(
            nones(spec_floor_log2(self.arena.total as nat) + 2),
            self.roots,
        );
        Forest { arena: a, roots: Seq::<usize>::empty() }.seated(rv, 0)
    }

    /// The forest without its first root: the children of that root are made
    /// roots, its slot is given up, and the root list is rebuilt by rank.
    pub open spec fn without_front(self) -> Self {
        let m = self.roots[0];
        let popped = Forest {
            arena: self.arena.with_drained(m),
            roots: self.roots.subrange(1, self.roots.len() as int),
        };
        let promoted = popped.with_promoted(self.arena.node(m).children);
        Forest { arena: promoted.arena.with_vacated(m), ..promoted }.consolidated()
    }
}

} // verus!
