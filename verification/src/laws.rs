//! What holds of every heap, whatever was done to it.
use vstd::prelude::*;
use crate::fib::fib;
use crate::forest::Forest;
use crate::is_least;
use crate::key::HeapKey;

verus! {

impl<K: HeapKey, V> Forest<K, V> {
    /// Heap order: in a heap at rest the parent of a node is a live node whose
    /// key is not larger than that of the node.
    pub proof fn lemma_heap_order(self, node: usize)
        requires
            self.wf(),
            self.arena.live(node),
            self.arena.node(node).parent is Some,
        ensures
            self.arena.live(self.arena.node(node).parent.unwrap()),
            self.arena.prio(self.arena.node(node).parent.unwrap()) <= self.arena.prio(node),
    {}

    /// In a heap at rest a node of rank `r` roots a tree of at least as many
    /// nodes as the Fibonacci number two behind `r` says.
    pub proof fn lemma_rank_bound(self, node: usize)
        requires
            self.wf(),
            self.arena.live(node),
        ensures
            self.arena.subtree_size(node) >= fib(self.arena.rank(node) + 2),
    {
        self.arena.lemma_subtree_size(node);
    }

    /// In a heap at rest the Fibonacci number two behind the rank of a node
    /// is at most the number of elements: ranks grow with the logarithm of
    /// the size at most.
    pub proof fn lemma_rank_is_logarithmic(self, node: usize)
        requires
            self.wf(),
            self.arena.live(node),
        ensures
            fib(self.arena.rank(node) + 2) <= self.arena.total,
    {
        self.arena.lemma_subtree_size(node);
        self.arena.lemma_tree_within(node);
    }

    /// In a heap at rest the root list holds exactly the live nodes without a
    /// parent, each once, and none of them is marked.
    pub proof fn lemma_roots_are_the_parentless(self, node: usize)
        requires
            self.wf(),
        ensures
            self.roots.no_duplicates(),
            self.roots.contains(node) <==> self.arena.is_top(node),
            self.roots.contains(node) ==> !self.arena.node(node).marked,
    {}

    /// In a heap at rest a node lists exactly the live nodes that name it as
    /// their parent among its children, each once.
    pub proof fn lemma_children_are_those_with_this_parent(self, node: usize, child: usize)
        requires
            self.wf(),
            self.arena.live(node),
        ensures
            self.arena.node(node).children.no_duplicates(),
            self.arena.node(node).children.contains(child) <==> self.arena.live(child)
                && self.arena.node(child).parent == Some(node),
    {}
}

/// `post` is `pre` with one more element, under an entry that `pre` lacks.
pub open spec fn is_insertion<H, K, V>(pre: Map<H, (K, V)>, post: Map<H, (K, V)>) -> bool {
    exists|h: H, kv: (K, V)| !pre.contains_key(h) && post == #[trigger] pre.insert(h, kv)
}

/// `post` is `pre` without one of its elements of least key.
pub open spec fn is_min_removal<H, K: HeapKey, V>(
    pre: Map<H, (K, V)>,
    post: Map<H, (K, V)>,
) -> bool {
    exists|h: H| is_least(pre, h) && post == #[trigger] pre.remove(h)
}

/// The numbers of elements on the way from an empty heap through `n`
/// insertions and on through removals of a minimum.
proof fn lemma_sizes_along<H, K: HeapKey, V>(states: Seq<Map<H, (K, V)>>, n: nat, i: nat)
    requires
        states.len() == 2 * n + 1,
        states[0] == Map::<H, (K, V)>::empty(),
        forall|j: int| 0 <= j < n ==> is_insertion(#[trigger] states[j], states[j + 1]),
        forall|j: int| n <= j < 2 * n ==> is_min_removal(#[trigger] states[j], states[j + 1]),
        i <= 2 * n,
    ensures
        states[i as int].dom().finite(),
        states[i as int].len() == if i <= n {
            i
        } else {
            (2 * n - i) as nat
        },
    decreases i,
{
    if i > 0 {
        lemma_sizes_along(states, n, (i - 1) as nat);
        let pre = states[i - 1];
        let post = states[i as int];
        if i <= n {
            let (h, kv) = choose|h: H, kv: (K, V)|
                !pre.contains_key(h) && post == #[trigger] pre.insert(h, kv);
        }
    }
}

/// A heap that was empty, then took in `n` elements and then had a minimum
/// removed `n` times, is empty again. `states` holds the elements before the
/// first step and after each step.
pub proof fn lemma_emptied_by_as_many_removals<H, K: HeapKey, V>(
    states: Seq<Map<H, (K, V)>>,
    n: nat,
)
    requires
        states.len() == 2 * n + 1,
        states[0] == Map::<H, (K, V)>::empty(),
        forall|j: int| 0 <= j < n ==> is_insertion(#[trigger] states[j], states[j + 1]),
        forall|j: int| n <= j < 2 * n ==> is_min_removal(#[trigger] states[j], states[j + 1]),
    ensures
        states[2 * n as int].len() == 0,
        states[2 * n as int] == Map::<H, (K, V)>::empty(),
{
    lemma_sizes_along(states, n, 2 * n);
}

} // verus!
