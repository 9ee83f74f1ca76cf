//! Ordering of indices by keys, with ties broken by the index itself, as a
//! stable sort by the keys leaves them.

use vstd::prelude::*;

verus! {

/// Index `i` comes before index `j`: by the first key, then the second key,
/// then the index.
pub open spec fn key_lt(k1: Seq<u64>, k2: Seq<u64>, i: usize, j: usize) -> bool {
    ||| k1[i as int] < k1[j as int]
    ||| (k1[i as int] == k1[j as int] && k2[i as int] < k2[j as int])
    ||| (k1[i as int] == k1[j as int] && k2[i as int] == k2[j as int] && i < j)
}

fn key_lt_exec(k1: &Vec<u64>, k2: &Vec<u64>, i: usize, j: usize) -> (r: bool)
    requires
        i < k1@.len(),
        j < k1@.len(),
        k1@.len() == k2@.len(),
    ensures
        r == key_lt(k1@, k2@, i, j),
{
    k1[i] < k1[j] || (k1[i] == k1[j] && k2[i] < k2[j]) || (k1[i] == k1[j] && k2[i] == k2[j] && i < j)
}

/// The indices `0..m` in ascending order of `(k1[i], k2[i], i)`: what a
/// stable sort of `0..m` by `(k1[i], k2[i])` gives.
pub fn sorted_indices(k1: &Vec<u64>, k2: &Vec<u64>) -> (r: Vec<usize>)
    requires
        k1@.len() == k2@.len(),
    ensures
        r@.len() == k1@.len(),
        forall|i: int| 0 <= i < r@.len() ==> (#[trigger] r@[i]) < k1@.len(),
        forall|i: int, j: int| 0 <= i < j < r@.len() ==> key_lt(k1@, k2@, r@[i], r@[j]),
        forall|t: usize| t < k1@.len() ==> r@.contains(t),
{
    let m = k1.len();
    let mut r: Vec<usize> = Vec::new();
    let mut t: usize = 0;
    while t < m
        invariant
            m == k1@.len(),
            m == k2@.len(),
            t <= m,
            r@.len() == t,
            forall|i: int| 0 <= i < r@.len() ==> (#[trigger] r@[i]) < t,
            forall|i: int, j: int| 0 <= i < j < r@.len() ==> key_lt(k1@, k2@, r@[i], r@[j]),
            forall|s: usize| s < t ==> r@.contains(s),
        decreases m - t,
    {
        let mut p: usize = 0;
        while p < r.len() && key_lt_exec(k1, k2, r[p], t)
            invariant
                m == k1@.len(),
                m == k2@.len(),
                t < m,
                p <= r@.len(),
                forall|i: int| 0 <= i < r@.len() ==> (#[trigger] r@[i]) < t,
                forall|i: int| 0 <= i < p ==> key_lt(k1@, k2@, #[trigger] r@[i], t),
            decreases r@.len() - p,
        {
            p = p + 1;
        }
        let ghost r0 = r@;
        proof {
            // everything from p on comes after t
            assert forall|i: int| p <= i < r0.len() implies key_lt(k1@, k2@, t, #[trigger] r0[i]) by {
                if i > p {
                    assert(key_lt(k1@, k2@, r0[p as int], r0[i]));
                }
                assert(!key_lt(k1@, k2@, r0[p as int], t));
            }
        }
        r.insert(p, t);
        proof {
            assert(r@ == r0.insert(p as int, t));
            assert forall|i: int, j: int| 0 <= i < j < r@.len() implies key_lt(k1@, k2@, r@[i], r@[j]) by {
                if j < p {
                } else if j == p {
                    assert(r@[i] == r0[i]);
                } else if i < p {
                    assert(r@[j] == r0[j - 1]);
                    assert(key_lt(k1@, k2@, r0[i], t));
                    assert(key_lt(k1@, k2@, t, r0[j - 1]));
                } else if i == p {
                    assert(r@[j] == r0[j - 1]);
                } else {
                    assert(r@[i] == r0[i - 1]);
                    assert(r@[j] == r0[j - 1]);
                }
            }
            assert forall|s: usize| s < t + 1 implies r@.contains(s) by {
                if s == t {
                    assert(r@[p as int] == t);
                } else {
                    assert(r0.contains(s));
                    let i = choose|i: int| 0 <= i < r0.len() && r0[i] == s;
                    if i < p {
                        assert(r@[i] == s);
                    } else {
                        assert(r@[i + 1] == s);
                    }
                }
            }
            assert forall|i: int| 0 <= i < r@.len() implies (#[trigger] r@[i]) < t + 1 by {
                if i < p {
                    assert(r@[i] == r0[i]);
                } else if i > p {
                    assert(r@[i] == r0[i - 1]);
                }
            }
        }
        t = t + 1;
    }
    r
}

} // verus!
