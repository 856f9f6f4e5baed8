//! What the linking of roots by rank needs: the size of the by-rank array
//! and what holds of the array while it is filled.
use vstd::prelude::*;
use vstd::arithmetic::power2::{lemma2_to64, lemma_pow2_unfold, pow2};
use crate::arena::Arena;
use crate::forest::Forest;
use crate::key::HeapKey;

verus! {

/// The logarithm of `n` to base 2, rounded down; 0 for 0.
pub open spec fn spec_floor_log2(n: nat) -> nat
    decreases n,
{
    if n <= 1 {
        0
    } else {
        1 + spec_floor_log2(n / 2)
    }
}

/// The logarithm of `n` to base 2, rounded down; 0 for 0.
pub fn floor_log2(n: usize) -> (r: usize)
    ensures
        r == spec_floor_log2(n as nat),
        n > 0 ==> pow2(r as nat) <= n < pow2((r + 1) as nat),
        r < 64,
{
    let mut m: usize = n;
    let mut r: usize = 0;
    proof {
        lemma2_to64();
    }
    while m > 1
        invariant
            n > 0 ==> m > 0,
            n == 0 ==> m == 0 && r == 0,
            r + spec_floor_log2(m as nat) == spec_floor_log2(n as nat),
            r < 64,
            m * pow2(r as nat) <= n < (m + 1) * pow2(r as nat),
        decreases m,
    {
        proof {
            let p = pow2(r as nat);
            let half = (m / 2) as int;
            lemma_pow2_unfold((r + 1) as nat);
            assert(half * (2 * p) <= m * p) by (nonlinear_arith)
                requires
                    2 * half <= m,
                    p >= 0,
            ;
            assert((m + 1) * p <= (half + 1) * (2 * p)) by (nonlinear_arith)
                requires
                    m + 1 <= 2 * (half + 1),
                    p >= 0,
            ;
            assert(pow2((r + 1) as nat) <= half * pow2((r + 1) as nat)) by (nonlinear_arith)
                requires
                    half >= 1,
                    pow2((r + 1) as nat) >= 0,
            ;
            if r + 1 >= 64 {
                lemma2_to64();
            }
        }
        m = m / 2;
        r = r + 1;
    }
    proof {
        if n > 0 {
            lemma_pow2_unfold((r + 1) as nat);
        }
    }
    r
}

/// How many entries of `rv` hold a node.
pub open spec fn count_some(rv: Seq<Option<usize>>) -> nat
    decreases rv.len(),
{
    if rv.len() == 0 {
        0
    } else {
        count_some(rv.drop_last()) + if rv.last() is Some {
            1nat
        } else {
            0nat
        }
    }
}

/// Emptying an entry that held a node leaves fewer such entries.
pub proof fn lemma_count_some_emptied(rv: Seq<Option<usize>>, r: int)
    requires
        0 <= r < rv.len(),
        rv[r] is Some,
    ensures
        count_some(rv.update(r, None)) < count_some(rv),
    decreases rv.len(),
{
    let rv2 = rv.update(r, None);
    if r == rv.len() - 1 {
        assert(rv2.drop_last() =~= rv.drop_last());
    } else {
        assert(rv2.drop_last() =~= rv.drop_last().update(r, None));
        lemma_count_some_emptied(rv.drop_last(), r);
    }
}

/// `rv`, with empty entries appended until it has `len` entries.
pub open spec fn padded(rv: Seq<Option<usize>>, len: nat) -> Seq<Option<usize>>
    decreases len - rv.len(),
{
    if rv.len() >= len {
        rv
    } else {
        padded(rv.push(None), len)
    }
}

/// Padding keeps what there was, adds only empty entries, and changes
/// nothing in the count.
pub proof fn lemma_padded(rv: Seq<Option<usize>>, len: nat)
    ensures
        padded(rv, len).len() == if rv.len() >= len {
            rv.len()
        } else {
            len
        },
        forall|j: int| 0 <= j < rv.len() ==> padded(rv, len)[j] == rv[j],
        forall|j: int| rv.len() <= j < padded(rv, len).len() ==> padded(rv, len)[j] is None,
        count_some(padded(rv, len)) == count_some(rv),
    decreases len - rv.len(),
{
    if rv.len() < len {
        lemma_padded(rv.push(None), len);
        lemma_count_some_grown(rv);
        assert forall|j: int| 0 <= j < rv.len() implies padded(rv, len)[j] == rv[j] by {
            assert(rv.push(None)[j] == rv[j]);
        }
    }
}

/// `len` empty entries.
pub open spec fn nones(len: nat) -> Seq<Option<usize>> {
    Seq::new(len, |j: int| None)
}

/// Appending an empty entry changes nothing in the count.
pub proof fn lemma_count_some_grown(rv: Seq<Option<usize>>)
    ensures
        count_some(rv.push(None)) == count_some(rv),
{
    assert(rv.push(None).drop_last() =~= rv);
}

impl<K: HeapKey, V> Arena<K, V> {
    /// The by-rank array `rv` holds `i`, at its rank.
    pub open spec fn parked_at(self, rv: Seq<Option<usize>>, i: usize) -> bool {
        self.rank(i) < rv.len() && rv[self.rank(i) as int] == Some(i)
    }

    /// The nodes that `rv` holds at the ranks from `from` on.
    pub open spec fn parked(self, rv: Seq<Option<usize>>, from: int) -> Set<usize> {
        Set::new(|i: usize| self.parked_at(rv, i) && self.rank(i) >= from)
    }

    /// Every entry of `rv` that holds a node holds a node without a parent,
    /// at its rank.
    pub open spec fn ranks_ok(self, rv: Seq<Option<usize>>) -> bool {
        forall|r: int|
            0 <= r < rv.len() ==> ((#[trigger] rv[r]) matches Some(i) ==> self.is_top(i)
                && self.rank(i) == r)
    }
}

impl<K: HeapKey, V> Forest<K, V> {
    /// What holds while the roots are linked by rank: the forest is in order
    /// but for the completeness and the order of the root list, and the
    /// by-rank array `rv` holds nodes without a parent that the root list
    /// lacks.
    pub open(crate) spec fn consolidating(self, rv: Seq<Option<usize>>) -> bool {
        &&& self.inner_wf()
        &&& self.arena.ranks_ok(rv)
        &&& forall|k: int|
            0 <= k < self.roots.len() ==> !self.arena.parked_at(rv, #[trigger] self.roots[k])
    }

    /// No two roots have the same rank.
    pub open spec fn ranks_distinct(self) -> bool {
        forall|a: int, b: int|
            0 <= a < b < self.roots.len() ==> self.arena.rank(#[trigger] self.roots[a])
                != self.arena.rank(#[trigger] self.roots[b])
    }
}

} // verus!
