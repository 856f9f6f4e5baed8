//! The nodes of a tree, counted: no tree holds more nodes than the heap has
//! elements.
use vstd::prelude::*;
use vstd::set_lib::{lemma_len_subset, lemma_map_size, lemma_set_disjoint_lens};
use crate::arena::{lemma_max_height, max_height, Arena};
use crate::fib_node::Handle;
use crate::key::HeapKey;

verus! {

/// The slot that a handle names.
pub open(crate) spec fn slot_of(h: Handle) -> usize {
    h.index
}

impl<K: HeapKey, V> Arena<K, V> {
    /// `x` is `i` or stands below it in its tree.
    pub open spec fn is_under(self, x: usize, i: usize) -> bool
        decreases max_height(self.heights) - self.heights[x as int],
        when self.shape_wf() && self.live(x)
    {
        if x == i {
            true
        } else {
            match self.node(x).parent {
                Some(p) => {
                    proof {
                        lemma_max_height(self.heights, p as int);
                    }
                    self.is_under(p, i)
                },
                None => false,
            }
        }
    }

    /// The nodes of the tree that the node in slot `i` roots.
    pub open spec fn tree(self, i: usize) -> Set<usize> {
        Set::new(|x: usize| self.live(x) && self.is_under(x, i))
    }

    /// The nodes of the trees that the children of `p` root, from the child
    /// at place `from` on.
    pub open spec fn brood(self, p: usize, from: nat) -> Set<usize> {
        Set::new(
            |x: usize|
                self.live(x) && exists|j: int|
                    from <= j < self.node(p).children.len() && self.is_under(
                        x,
                        #[trigger] self.node(p).children[j],
                    ),
        )
    }

    /// The slots that hold a node.
    pub open spec fn live_slots(self) -> Set<usize> {
        Set::new(|x: usize| self.live(x))
    }

    /// What a node stands under is a live node that stands at least as high.
    pub proof fn lemma_under_height(self, x: usize, i: usize)
        requires
            self.shape_wf(),
            self.live(x),
            self.is_under(x, i),
        ensures
            self.live(i),
            self.heights[x as int] <= self.heights[i as int],
        decreases max_height(self.heights) - self.heights[x as int],
    {
        if x != i {
            let p = self.node(x).parent.unwrap();
            lemma_max_height(self.heights, p as int);
            self.lemma_under_height(p, i);
        }
    }

    /// What stands under a child stands under its parent.
    pub proof fn lemma_under_parent(self, x: usize, c: usize, i: usize)
        requires
            self.shape_wf(),
            self.live(x),
            self.live(c),
            self.is_under(x, c),
            self.node(c).parent == Some(i),
        ensures
            self.is_under(x, i),
        decreases max_height(self.heights) - self.heights[x as int],
    {
        if x == c {
            assert(self.is_under(i, i));
        } else {
            let p = self.node(x).parent.unwrap();
            lemma_max_height(self.heights, p as int);
            self.lemma_under_parent(p, c, i);
        }
    }

    /// What stands under a node and is not the node stands under one of its
    /// children.
    pub proof fn lemma_under_child(self, x: usize, i: usize) -> (j: int)
        requires
            self.shape_wf(),
            self.live(x),
            self.is_under(x, i),
            x != i,
        ensures
            0 <= j < self.node(i).children.len(),
            self.is_under(x, self.node(i).children[j]),
        decreases max_height(self.heights) - self.heights[x as int],
    {
        let p = self.node(x).parent.unwrap();
        lemma_max_height(self.heights, p as int);
        let cs = self.node(i).children;
        if p == i {
            let j = choose|j: int| 0 <= j < cs.len() && cs[j] == x;
            j
        } else {
            let j = self.lemma_under_child(p, i);
            j
        }
    }

    /// Of two nodes that a node stands under, one stands under the other.
    pub proof fn lemma_under_chain(self, x: usize, a: usize, b: usize)
        requires
            self.shape_wf(),
            self.live(x),
            self.is_under(x, a),
            self.is_under(x, b),
        ensures
            self.is_under(a, b) || self.is_under(b, a),
        decreases max_height(self.heights) - self.heights[x as int],
    {
        if x != a && x != b {
            let p = self.node(x).parent.unwrap();
            lemma_max_height(self.heights, p as int);
            self.lemma_under_chain(p, a, b);
        }
    }

    /// The trees of two children of one node share no node, and none holds
    /// the parent.
    pub proof fn lemma_siblings_apart(self, p: usize, a: int, b: int, x: usize)
        requires
            self.shape_wf(),
            self.live(p),
            self.live(x),
            0 <= a < self.node(p).children.len(),
            0 <= b < self.node(p).children.len(),
            self.is_under(x, self.node(p).children[a]),
        ensures
            a != b ==> !self.is_under(x, self.node(p).children[b]),
            x != p,
    {
        let cs = self.node(p).children;
        self.lemma_under_height(x, cs[a]);
        if a != b && self.is_under(x, cs[b]) {
            self.lemma_under_chain(x, cs[a], cs[b]);
            if self.is_under(cs[a], cs[b]) {
                self.lemma_under_height(p, cs[b]);
            } else {
                self.lemma_under_height(p, cs[a]);
            }
        }
    }

    /// The trees of the children of `p`, from the child at place `from` on,
    /// hold as many nodes as `brood_size` says.
    pub proof fn lemma_brood_count(self, p: usize, from: nat)
        requires
            self.shape_wf(),
            self.live(p),
            from <= self.node(p).children.len(),
        ensures
            self.brood(p, from).finite(),
            self.brood(p, from).len() == self.brood_size(p, from),
        decreases self.heights[p as int], self.node(p).children.len() - from,
    {
        let cs = self.node(p).children;
        if from >= cs.len() {
            assert(self.brood(p, from) =~= Set::<usize>::empty());
        } else {
            let c = cs[from as int];
            self.lemma_tree_count(c);
            self.lemma_brood_count(p, from + 1);
            let first = self.tree(c);
            let rest = self.brood(p, from + 1);
            assert(self.brood(p, from) =~= first + rest) by {
                assert forall|x: usize| self.brood(p, from).contains(x) implies (first
                    + rest).contains(x) by {}
                assert forall|x: usize| (first + rest).contains(x) implies self.brood(
                    p,
                    from,
                ).contains(x) by {}
            }
            assert(first.disjoint(rest)) by {
                assert forall|x: usize| !(first.contains(x) && rest.contains(x)) by {
                    if first.contains(x) && rest.contains(x) {
                        let j = choose|j: int|
                            from + 1 <= j < cs.len() && self.is_under(
                                x,
                                #[trigger] self.node(p).children[j],
                            );
                        self.lemma_siblings_apart(p, from as int, j, x);
                    }
                }
            }
            lemma_set_disjoint_lens(first, rest);
        }
    }

    /// The tree that the node in slot `i` roots holds as many nodes as
    /// `subtree_size` says.
    pub proof fn lemma_tree_count(self, i: usize)
        requires
            self.shape_wf(),
            self.live(i),
        ensures
            self.tree(i).finite(),
            self.tree(i).len() == self.subtree_size(i),
        decreases self.heights[i as int], self.node(i).children.len() + 1,
    {
        self.lemma_brood_count(i, 0);
        let below = self.brood(i, 0);
        assert(self.tree(i) =~= below.insert(i)) by {
            assert forall|x: usize| self.tree(i).contains(x) implies below.insert(i).contains(
                x,
            ) by {
                if x != i {
                    let j = self.lemma_under_child(x, i);
                }
            }
            assert forall|x: usize| below.insert(i).contains(x) implies self.tree(i).contains(
                x,
            ) by {
                if x != i {
                    let j = choose|j: int|
                        0 <= j < self.node(i).children.len() && self.is_under(
                            x,
                            #[trigger] self.node(i).children[j],
                        );
                    let c = self.node(i).children[j];
                    self.lemma_under_parent(x, c, i);
                }
            }
        }
        assert(!below.contains(i)) by {
            if below.contains(i) {
                let j = choose|j: int|
                    0 <= j < self.node(i).children.len() && self.is_under(
                        i,
                        #[trigger] self.node(i).children[j],
                    );
                self.lemma_siblings_apart(i, j, j, i);
            }
        }
    }

    /// There are as many live slots as elements.
    pub proof fn lemma_live_count(self)
        requires
            self.counted(),
        ensures
            self.live_slots().finite(),
            self.live_slots().len() == self.total,
    {
        let f = |h: Handle| slot_of(h);
        let dom = self.entries().dom();
        assert(vstd::relations::injective_on(f, dom)) by {
            assert forall|a: Handle, b: Handle|
                dom.contains(a) && dom.contains(b) && #[trigger] f(a) == #[trigger] f(
                    b,
                ) implies a == b by {}
        }
        assert(dom.map(f) =~= self.live_slots()) by {
            assert forall|x: usize| dom.map(f).contains(x) implies self.live_slots().contains(
                x,
            ) by {}
            assert forall|x: usize| self.live_slots().contains(x) implies dom.map(f).contains(
                x,
            ) by {
                let h = self.handle_of(x);
                assert(dom.contains(h));
            }
        }
        lemma_map_size(dom, self.live_slots(), f);
    }

    /// No tree holds more nodes than the heap has elements.
    pub proof fn lemma_tree_within(self, i: usize)
        requires
            self.shape_wf(),
            self.counted(),
            self.live(i),
        ensures
            self.subtree_size(i) <= self.total,
    {
        self.lemma_tree_count(i);
        self.lemma_live_count();
        lemma_len_subset(self.tree(i), self.live_slots());
    }
}

} // verus!
