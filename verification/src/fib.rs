//! The ranks are large enough: a node of rank `r` roots a tree of at least
//! as many nodes as the Fibonacci number two behind `r` says.
use vstd::prelude::*;
use crate::arena::{count_below, Arena};
use crate::fib_node::{lemma_position_of, position_of, shift_seq, without_child};
use crate::key::HeapKey;

verus! {

/// No more nodes are counted than there are.
pub proof fn lemma_count_below_len(cs: Seq<usize>, links: Seq<nat>, m: nat)
    ensures
        count_below(cs, links, m) <= cs.len(),
    decreases cs.len(),
{
    if cs.len() > 0 {
        lemma_count_below_len(cs.drop_last(), links, m);
    }
}

/// The count of two sequences put together is the sum of their counts.
pub proof fn lemma_count_below_concat(a: Seq<usize>, b: Seq<usize>, links: Seq<nat>, m: nat)
    ensures
        count_below(a + b, links, m) == count_below(a, links, m) + count_below(b, links, m),
    decreases b.len(),
{
    if b.len() > 0 {
        assert((a + b).drop_last() =~= a + b.drop_last());
        lemma_count_below_concat(a, b.drop_last(), links, m);
    }
}

/// Taking a node out of a sequence does not raise the count.
pub proof fn lemma_count_below_without(cs: Seq<usize>, x: usize, links: Seq<nat>, m: nat)
    requires
        cs.contains(x),
    ensures
        count_below(without_child(cs, x), links, m) <= count_below(cs, links, m),
{
    lemma_position_of(cs, x);
    let p = position_of(cs, x);
    let front = cs.subrange(0, p);
    let back = cs.subrange(p + 1, cs.len() as int);
    let one = seq![x];
    assert(cs =~= front + one + back);
    lemma_count_below_concat(front + one, back, links, m);
    lemma_count_below_concat(front, one, links, m);
    lemma_count_below_concat(back, front, links, m);
}

/// The count depends on the recorded ranks of the counted nodes only.
pub proof fn lemma_count_below_same(cs: Seq<usize>, l1: Seq<nat>, l2: Seq<nat>, m: nat)
    requires
        forall|j: int| 0 <= j < cs.len() ==> l1[#[trigger] cs[j] as int] == l2[cs[j] as int],
    ensures
        count_below(cs, l1, m) == count_below(cs, l2, m),
    decreases cs.len(),
{
    if cs.len() > 0 {
        let d = cs.drop_last();
        assert forall|j: int| 0 <= j < d.len() implies l1[#[trigger] d[j] as int]
            == l2[d[j] as int] by {}
        lemma_count_below_same(d, l1, l2, m);
    }
}

/// The count of nodes that were moved behind another arena is what it was.
pub proof fn lemma_count_below_shift(
    cs: Seq<usize>,
    la: Seq<nat>,
    lb: Seq<nat>,
    off: usize,
    m: nat,
)
    requires
        off == la.len(),
        forall|j: int| 0 <= j < cs.len() ==> (#[trigger] cs[j]) < lb.len(),
        la.len() + lb.len() <= usize::MAX,
    ensures
        count_below(shift_seq(cs, off), la + lb, m) == count_below(cs, lb, m),
    decreases cs.len(),
{
    if cs.len() > 0 {
        let d = cs.drop_last();
        assert(shift_seq(cs, off).drop_last() =~= shift_seq(d, off));
        assert forall|j: int| 0 <= j < d.len() implies (#[trigger] d[j]) < lb.len() by {}
        lemma_count_below_shift(d, la, lb, off, m);
    }
}

impl<K: HeapKey, V> Arena<K, V> {

    /// A fresh node keeps the ranks large enough.
    pub proof fn lemma_fib_with_fresh(self, key: K, value: V)
        requires
            self.shape_wf(),
            self.free_wf(),
            self.fib_wf(),
            self.slots.len() <= usize::MAX,
            self.free.len() == 0 ==> self.slots.len() < usize::MAX,
        ensures
            self.with_fresh(key, value).fib_wf(),
    {
        let g = self.with_fresh(key, value);
        let i = self.next_slot();
        assert forall|x: usize| #[trigger] g.live(x) implies g.rank_ok(x, None) && g.brood_ok(
            x,
        ) by {
            if x != i {
                assert(self.live(x));
                let cs = self.node(x).children;
                assert forall|m: nat| #[trigger] count_below(cs, g.links, m) <= m by {
                    assert forall|j: int| 0 <= j < cs.len() implies g.links[#[trigger] cs[j] as int]
                        == self.links[cs[j] as int] by {}
                    lemma_count_below_same(cs, g.links, self.links, m);
                }
            }
        }
    }

    /// After a cut the ranks are large enough but for the child that the
    /// former parent has lost.
    pub proof fn lemma_fib_with_cut(self, c: usize)
        requires
            self.shape_wf(),
            self.fib_wf_but(Some(c)),
            self.live(c),
            self.node(c).parent is Some,
        ensures
            self.with_cut(c).fib_wf_but(self.node(c).parent),
    {
        let p = self.node(c).parent.unwrap();
        let g = self.with_cut(c);
        let cs = self.node(p).children;
        assert forall|x: usize| #[trigger] g.live(x) implies g.rank_ok(x, Some(p)) && g.brood_ok(
            x,
        ) by {
            assert(self.live(x));
            if x == p {
                lemma_position_of(cs, c);
                assert forall|m: nat| #[trigger] count_below(g.node(p).children, g.links, m)
                    <= m by {
                    lemma_count_below_without(cs, c, self.links, m);
                }
            } else {
                assert forall|m: nat| #[trigger] count_below(g.node(x).children, g.links, m)
                    <= m by {}
            }
        }
    }

    /// Linking two parentless nodes of the same rank keeps the ranks large
    /// enough.
    pub proof fn lemma_fib_with_link(self, w: usize, l: usize)
        requires
            self.shape_wf(),
            self.fib_wf(),
            self.is_top(w),
            self.is_top(l),
            w != l,
            self.rank(w) == self.rank(l),
        ensures
            self.with_link(w, l).fib_wf(),
    {
        let g = self.with_link(w, l);
        let cs = self.node(w).children;
        assert forall|x: usize| #[trigger] g.live(x) implies g.rank_ok(x, None) && g.brood_ok(
            x,
        ) by {
            assert(self.live(x));
            let kids = self.node(x).children;
            assert forall|j: int| 0 <= j < kids.len() implies g.links[#[trigger] kids[j] as int]
                == self.links[kids[j] as int] by {}
            assert forall|m: nat| #[trigger] count_below(g.node(x).children, g.links, m) <= m by {
                lemma_count_below_same(kids, g.links, self.links, m);
                if x == w {
                    assert(cs.push(l).drop_last() =~= cs);
                    lemma_count_below_len(cs, g.links, m);
                }
            }
        }
    }

}

/// The Fibonacci numbers: 0, 1, 1, 2, 3, 5, ...
pub open spec fn fib(n: nat) -> nat
    decreases n,
{
    if n == 0 {
        0
    } else if n == 1 {
        1
    } else {
        fib((n - 1) as nat) + fib((n - 2) as nat)
    }
}

/// The Fibonacci numbers do not fall.
pub proof fn lemma_fib_rises(a: nat, b: nat)
    requires
        a <= b,
    ensures
        fib(a) <= fib(b),
    decreases b,
{
    if a < b {
        if b >= 2 {
            lemma_fib_rises(a, (b - 1) as nat);
        }
    }
}

/// The sum, over the nodes in `cs`, of the Fibonacci number that stands one
/// behind the rank at which the node became a child.
pub open spec fn fib_sum(cs: Seq<usize>, links: Seq<nat>) -> nat
    decreases cs.len(),
{
    if cs.len() == 0 {
        0
    } else {
        fib(links[cs[0] as int] + 1) + fib_sum(cs.subrange(1, cs.len() as int), links)
    }
}

/// The sum over two sequences put together is the sum of their sums.
pub proof fn lemma_fib_sum_concat(a: Seq<usize>, b: Seq<usize>, links: Seq<nat>)
    ensures
        fib_sum(a + b, links) == fib_sum(a, links) + fib_sum(b, links),
    decreases a.len(),
{
    if a.len() > 0 {
        assert((a + b).subrange(1, (a + b).len() as int) =~= a.subrange(1, a.len() as int) + b);
        lemma_fib_sum_concat(a.subrange(1, a.len() as int), b, links);
    }
}

/// Where every node in `cs` became a child at a rank below `m`, all of them
/// are counted.
pub proof fn lemma_count_below_all(cs: Seq<usize>, links: Seq<nat>, m: nat)
    requires
        forall|j: int| 0 <= j < cs.len() ==> links[#[trigger] cs[j] as int] < m,
    ensures
        count_below(cs, links, m) == cs.len(),
    decreases cs.len(),
{
    if cs.len() > 0 {
        let d = cs.drop_last();
        assert forall|j: int| 0 <= j < d.len() implies links[#[trigger] d[j] as int] < m by {}
        lemma_count_below_all(d, links, m);
    }
}

/// A place in `cs` of a node that became a child at the largest rank.
pub proof fn lemma_latest_child(cs: Seq<usize>, links: Seq<nat>) -> (at: int)
    requires
        cs.len() > 0,
    ensures
        0 <= at < cs.len(),
        forall|j: int| 0 <= j < cs.len() ==> links[#[trigger] cs[j] as int] <= links[cs[at] as int],
    decreases cs.len(),
{
    if cs.len() == 1 {
        0
    } else {
        let d = cs.drop_last();
        let at = lemma_latest_child(d, links);
        let last = cs.len() - 1;
        assert forall|j: int| 0 <= j < d.len() implies links[cs[j] as int]
            <= links[d[at] as int] by {
            assert(d[j] == cs[j]);
        }
        if links[cs[last] as int] >= links[d[at] as int] {
            last
        } else {
            at
        }
    }
}

/// Where for every `m` at most `m` of the nodes in `cs` became children at
/// a rank below `m`, the sum over `cs` is at least the Fibonacci number two
/// behind their number, less one.
pub proof fn lemma_brood_bound(cs: Seq<usize>, links: Seq<nat>)
    requires
        forall|m: nat| #[trigger] count_below(cs, links, m) <= m,
    ensures
        fib_sum(cs, links) + 1 >= fib(cs.len() + 2),
    decreases cs.len(),
{
    let k = cs.len();
    if k > 0 {
        let at = lemma_latest_child(cs, links);
        let top = links[cs[at] as int];
        if top + 1 < k {
            lemma_count_below_all(cs, links, (k - 1) as nat);
        }
        let front = cs.subrange(0, at);
        let back = cs.subrange(at + 1, k as int);
        let one = seq![cs[at]];
        let rest = front + back;
        assert(cs =~= front + one + back);
        assert forall|m: nat| #[trigger] count_below(rest, links, m) <= m by {
            lemma_count_below_concat(front + one, back, links, m);
            lemma_count_below_concat(front, one, links, m);
            lemma_count_below_concat(front, back, links, m);
        }
        lemma_brood_bound(rest, links);
        lemma_fib_sum_concat(front + one, back, links);
        lemma_fib_sum_concat(front, one, links);
        lemma_fib_sum_concat(front, back, links);
        lemma_fib_rises(k, top + 1);
    } else {
        assert(fib(2) == fib(1) + fib(0));
    }
}

impl<K: HeapKey, V> Arena<K, V> {
    /// The number of nodes in the tree below and with the node in slot `i`.
    pub open spec fn subtree_size(self, i: usize) -> nat
        decreases self.heights[i as int], self.node(i).children.len() + 1,
        when self.shape_wf() && self.live(i)
    {
        1 + self.brood_size(i, 0)
    }

    /// The number of nodes in the trees below and with the children of `p`,
    /// from the child at place `from` on.
    pub open spec fn brood_size(self, p: usize, from: nat) -> nat
        decreases self.heights[p as int], self.node(p).children.len() - from,
        when self.shape_wf() && self.live(p)
    {
        if from >= self.node(p).children.len() {
            0
        } else {
            self.subtree_size(self.node(p).children[from as int]) + self.brood_size(p, from + 1)
        }
    }

    /// The trees below the children of `p`, from the child at place `from`
    /// on, hold at least as many nodes as the sum over those children says.
    pub proof fn lemma_brood_size(self, p: usize, from: nat)
        requires
            self.shape_wf(),
            self.fib_wf(),
            self.live(p),
            from <= self.node(p).children.len(),
        ensures
            self.brood_size(p, from) >= fib_sum(
                self.node(p).children.subrange(from as int, self.node(p).children.len() as int),
                self.links,
            ),
        decreases self.heights[p as int], self.node(p).children.len() - from,
    {
        let cs = self.node(p).children;
        if from < cs.len() {
            let c = cs[from as int];
            self.lemma_subtree_size(c);
            self.lemma_brood_size(p, from + 1);
            lemma_fib_rises(self.links[c as int] + 1, self.rank(c) + 2);
            let tail = cs.subrange(from as int, cs.len() as int);
            assert(tail.subrange(1, tail.len() as int) =~= cs.subrange(
                from as int + 1,
                cs.len() as int,
            ));
        }
    }

    /// A node of rank `r` roots a tree of at least as many nodes as the
    /// Fibonacci number two behind `r` says.
    pub proof fn lemma_subtree_size(self, i: usize)
        requires
            self.shape_wf(),
            self.fib_wf(),
            self.live(i),
        ensures
            self.subtree_size(i) >= fib(self.rank(i) + 2),
        decreases self.heights[i as int], self.node(i).children.len() + 1,
    {
        let cs = self.node(i).children;
        self.lemma_brood_size(i, 0);
        assert(cs.subrange(0, cs.len() as int) =~= cs);
        lemma_brood_bound(cs, self.links);
    }
}

} // verus!
