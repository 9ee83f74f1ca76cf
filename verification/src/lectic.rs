//! The lectic order on sets of attribute indices: `A < B` when the least
//! index on which they differ belongs to `B`. Next Closure lists intents in
//! this order.

use vstd::prelude::*;
use crate::bitset::below;

verus! {

/// `A` and `B` hold the same indices below `i`.
pub open spec fn agree_below(a: Set<usize>, b: Set<usize>, i: int) -> bool {
    forall|k: usize| k < i ==> (#[trigger] a.contains(k) <==> b.contains(k))
}

/// `A <_i B`: they agree below `i`, and `i` is in `B` but not in `A`.
pub open spec fn lectic_lt_at(a: Set<usize>, b: Set<usize>, i: usize) -> bool {
    &&& agree_below(a, b, i as int)
    &&& !a.contains(i)
    &&& b.contains(i)
}

/// The lectic order: `A < B` when `A <_i B` for some `i`.
pub open spec fn lectic_lt(a: Set<usize>, b: Set<usize>) -> bool {
    exists|i: usize| lectic_lt_at(a, b, i)
}

/// `2^k`.
pub open spec fn pow2(k: nat) -> nat
    decreases k,
{
    if k == 0 { 1 } else { 2 * pow2((k - 1) as nat) }
}

/// The rank of `A` among the subsets of `{0, ..., k-1}` in lectic order:
/// index 0 is the most significant bit.
pub open spec fn rank(a: Set<usize>, k: nat) -> nat
    decreases k,
{
    if k == 0 {
        0
    } else {
        2 * rank(a, (k - 1) as nat) + if a.contains((k - 1) as usize) { 1nat } else { 0nat }
    }
}

/// The lectic order is irreflexive.
pub proof fn lemma_lectic_irreflexive(a: Set<usize>)
    ensures
        !lectic_lt(a, a),
{
}

/// The lectic order is transitive.
pub proof fn lemma_lectic_transitive(a: Set<usize>, b: Set<usize>, c: Set<usize>)
    requires
        lectic_lt(a, b),
        lectic_lt(b, c),
    ensures
        lectic_lt(a, c),
{
    let i = choose|i: usize| lectic_lt_at(a, b, i);
    let j = choose|j: usize| lectic_lt_at(b, c, j);
    if i < j {
        assert(lectic_lt_at(a, c, i));
    } else if j < i {
        assert(lectic_lt_at(a, c, j));
    } else {
        assert(false);
    }
}

/// The lectic order is asymmetric.
pub proof fn lemma_lectic_asymmetric(a: Set<usize>, b: Set<usize>)
    requires
        lectic_lt(a, b),
    ensures
        !lectic_lt(b, a),
{
    if lectic_lt(b, a) {
        lemma_lectic_transitive(a, b, a);
    }
}

/// Two different subsets of `{0, ..., n-1}` differ first at some index below `n`.
pub proof fn lemma_first_difference(a: Set<usize>, b: Set<usize>, n: nat)
    requires
        a.subset_of(below(n as int)),
        b.subset_of(below(n as int)),
        a != b,
        n <= usize::MAX,
    ensures
        exists|i: usize| i < n && agree_below(a, b, i as int) && (a.contains(i) != b.contains(i)),
    decreases n,
{
    if n == 0 {
        assert(a =~= b);
    } else {
        let m = (n - 1) as nat;
        let a1 = a.intersect(below(m as int));
        let b1 = b.intersect(below(m as int));
        if a1 != b1 {
            lemma_first_difference(a1, b1, m);
            let i = choose|i: usize| i < m && agree_below(a1, b1, i as int) && (a1.contains(i) != b1.contains(i));
            assert(agree_below(a, b, i as int)) by {
                assert forall|k: usize| k < i implies (#[trigger] a.contains(k) <==> b.contains(k)) by {
                    assert(a1.contains(k) == b1.contains(k));
                }
            }
            assert(a.contains(i) == a1.contains(i));
            assert(b.contains(i) == b1.contains(i));
        } else {
            let i = m as usize;
            assert(agree_below(a, b, i as int)) by {
                assert forall|k: usize| k < i implies (#[trigger] a.contains(k) <==> b.contains(k)) by {
                    assert(a1.contains(k) == b1.contains(k));
                }
            }
            if a.contains(i) == b.contains(i) {
                assert(a =~= b) by {
                    assert forall|k: usize| a.contains(k) <==> b.contains(k) by {
                        if k < i {
                            assert(a1.contains(k) == b1.contains(k));
                        } else if k > i {
                            assert(!below(n as int).contains(k));
                        }
                    }
                }
            }
        }
    }
}

/// Any two different subsets of `{0, ..., n-1}` are lectically comparable.
pub proof fn lemma_lectic_total(a: Set<usize>, b: Set<usize>, n: nat)
    requires
        a.subset_of(below(n as int)),
        b.subset_of(below(n as int)),
        a != b,
        n <= usize::MAX,
    ensures
        lectic_lt(a, b) || lectic_lt(b, a),
{
    lemma_first_difference(a, b, n);
    let i = choose|i: usize| i < n && agree_below(a, b, i as int) && (a.contains(i) != b.contains(i));
    if b.contains(i) {
        assert(lectic_lt_at(a, b, i));
    } else {
        assert(lectic_lt_at(b, a, i));
    }
}

/// A proper subset comes lectically first.
pub proof fn lemma_subset_lectic(a: Set<usize>, b: Set<usize>, n: nat)
    requires
        a.subset_of(b),
        b.subset_of(below(n as int)),
        a != b,
        n <= usize::MAX,
    ensures
        lectic_lt(a, b),
{
    lemma_first_difference(a, b, n);
    let i = choose|i: usize| i < n && agree_below(a, b, i as int) && (a.contains(i) != b.contains(i));
    assert(lectic_lt_at(a, b, i));
}

/// Sets that agree below `k` have the same rank over `k`.
pub proof fn lemma_rank_agree(a: Set<usize>, b: Set<usize>, k: nat)
    requires
        agree_below(a, b, k as int),
    ensures
        rank(a, k) == rank(b, k),
    decreases k,
{
    if k > 0 {
        lemma_rank_agree(a, b, (k - 1) as nat);
        assert(a.contains((k - 1) as usize) == b.contains((k - 1) as usize));
    }
}

/// The rank over `k` is below `2^k`.
pub proof fn lemma_rank_bound(a: Set<usize>, k: nat)
    ensures
        rank(a, k) < pow2(k),
    decreases k,
{
    if k > 0 {
        lemma_rank_bound(a, (k - 1) as nat);
    }
}

/// The rank respects the lectic order.
pub proof fn lemma_rank_lectic(a: Set<usize>, b: Set<usize>, i: usize, k: nat)
    requires
        lectic_lt_at(a, b, i),
        i < k,
    ensures
        rank(a, k) < rank(b, k),
    decreases k,
{
    if k == i + 1 {
        lemma_rank_agree(a, b, i as nat);
    } else {
        lemma_rank_lectic(a, b, i, (k - 1) as nat);
    }
}

} // verus!
