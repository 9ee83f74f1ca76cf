//! DimDraw: a branch-and-bound search for two linear extensions of a
//! poset that agree on as few incomparable pairs as possible; the two
//! positions of each node give its place in the drawing.

use vstd::prelude::*;
use bit_set::BitSet;
use crate::bitset::{members, below, bs_new, bs_clone, bs_contains, bs_insert, bs_len, bs_to_vec, range_set,
    difference, intersection, lemma_below_len, lemma_subset_below_len};
use crate::order::{rows, rel, within, strict_order, total, linear_extension};
use crate::sort::{key_lt, sorted_indices};

verus! {

/// `u` and `v` are not ordered either way.
pub open spec fn incomparable(r: Seq<Set<usize>>, u: usize, v: usize) -> bool {
    !rel(r, u, v) && !rel(r, v, u)
}

/// `not_orig[i]`: the nodes not above `i` in the poset's order.
pub fn precompute_not_orig(tc_orig: &Vec<BitSet>, node_count: usize) -> (r: Vec<BitSet>)
    ensures
        rows(r@) == Seq::new(tc_orig@.len(), |i: int| below(node_count as int).difference(rows(tc_orig@)[i])),
{
    let all = range_set(node_count);
    let mut r: Vec<BitSet> = Vec::new();
    let mut i: usize = 0;
    while i < tc_orig.len()
        invariant
            i <= tc_orig@.len(),
            members(all) == below(node_count as int),
            r@.len() == i,
            forall|k: int| 0 <= k < i ==> members(#[trigger] r@[k]) == below(node_count as int).difference(members(tc_orig@[k])),
        decreases tc_orig@.len() - i,
    {
        r.push(difference(&all, &tc_orig[i]));
        i = i + 1;
    }
    assert(rows(r@) =~= Seq::new(tc_orig@.len(), |i: int| below(node_count as int).difference(rows(tc_orig@)[i])));
    r
}

/// The number of nodes incomparable to `x`.
pub open spec fn degree(r: Seq<Set<usize>>, x: usize) -> nat {
    Set::new(|y: usize| y < r.len() && y != x && incomparable(r, x, y)).len()
}

/// The weight by which pairs are ordered: the product of the two degrees.
pub open spec fn pair_weight(r: Seq<Set<usize>>, p: (usize, usize)) -> nat {
    degree(r, p.0) * degree(r, p.1)
}

/// Pair `p` comes before pair `q` in the search: larger weight first, then
/// in ascending order of `(u, v)`.
pub open spec fn pair_before(r: Seq<Set<usize>>, p: (usize, usize), q: (usize, usize)) -> bool {
    ||| pair_weight(r, p) > pair_weight(r, q)
    ||| (pair_weight(r, p) == pair_weight(r, q) && (p.0 < q.0 || (p.0 == q.0 && p.1 < q.1)))
}

/// The pair `(a, b)` comes before `(u, v)` in row-major order.
spec fn scanned_before(a: usize, b: usize, u: int, v: int) -> bool {
    a < u || (a == u && b < v)
}

/// The partners of `x` found once every pair before `(u, v)` is scanned.
spec fn partners(r: Seq<Set<usize>>, x: usize, u: int, v: int) -> Set<usize> {
    Set::new(|y: usize| y < r.len() && y != x && incomparable(r, x, y)
        && scanned_before(if x < y { x } else { y }, if x < y { y } else { x }, (u) as int, (v) as int))
}

/// The incomparable pairs `(u, v)`, `u < v`, each once, most constrained
/// first: in descending order of the product of the two degrees, ties in
/// ascending order of `(u, v)`.
pub fn extract_incomparable_pairs(tc_orig: &Vec<BitSet>) -> (r: Vec<(usize, usize)>)
    requires
        tc_orig@.len() <= u32::MAX,
    ensures
        forall|i: int| 0 <= i < r@.len() ==> (#[trigger] r@[i]).0 < r@[i].1 < tc_orig@.len()
            && incomparable(rows(tc_orig@), r@[i].0, r@[i].1),
        forall|u: usize, v: usize| u < v < tc_orig@.len() && incomparable(rows(tc_orig@), u, v) ==> r@.contains((u, v)),
        forall|i: int, j: int| 0 <= i < j < r@.len() ==> pair_before(rows(tc_orig@), r@[i], r@[j]),
{
    let ghost rr = rows(tc_orig@);
    let n = tc_orig.len();
    let mut degrees: Vec<u32> = Vec::new();
    let mut x: usize = 0;
    while x < n
        invariant
            x <= n,
            degrees@.len() == x,
            forall|k: int| 0 <= k < x ==> degrees@[k] == 0,
        decreases n - x,
    {
        degrees.push(0);
        x = x + 1;
    }
    let mut raw_pairs: Vec<(usize, usize)> = Vec::new();
    proof {
        assert forall|y: usize| y < n implies #[trigger] partners(rr, y, (0) as int, (1) as int) =~= Set::<usize>::empty() by {}
    }
    let mut u: usize = 0;
    while u < n
        invariant
            n == tc_orig@.len(),
            rr == rows(tc_orig@),
            n <= u32::MAX,
            u <= n,
            degrees@.len() == n,
            forall|y: usize| y < n ==> degrees@[y as int] == #[trigger] partners(rr, y, (u) as int, (u + 1) as int).len(),
            forall|i: int| 0 <= i < raw_pairs@.len() ==> (#[trigger] raw_pairs@[i]).0 < raw_pairs@[i].1 < n
                && incomparable(rr, raw_pairs@[i].0, raw_pairs@[i].1) && scanned_before(raw_pairs@[i].0, raw_pairs@[i].1, (u) as int, (u + 1) as int),
            forall|i: int, j: int| 0 <= i < j < raw_pairs@.len() ==> scanned_before(raw_pairs@[i].0, raw_pairs@[i].1, raw_pairs@[j].0 as int, raw_pairs@[j].1 as int),
            forall|a: usize, b: usize| a < b < n && incomparable(rr, a, b) && scanned_before(a, b, (u) as int, (u + 1) as int) ==> raw_pairs@.contains((a, b)),
        decreases n - u,
    {
        let mut v: usize = u + 1;
        while v < n
            invariant
                n == tc_orig@.len(),
                rr == rows(tc_orig@),
                n <= u32::MAX,
                u < n,
                u + 1 <= v <= n,
                degrees@.len() == n,
                forall|y: usize| y < n ==> degrees@[y as int] == #[trigger] partners(rr, y, (u) as int, (v) as int).len(),
                forall|i: int| 0 <= i < raw_pairs@.len() ==> (#[trigger] raw_pairs@[i]).0 < raw_pairs@[i].1 < n
                    && incomparable(rr, raw_pairs@[i].0, raw_pairs@[i].1) && scanned_before(raw_pairs@[i].0, raw_pairs@[i].1, (u) as int, (v) as int),
                forall|i: int, j: int| 0 <= i < j < raw_pairs@.len() ==> scanned_before(raw_pairs@[i].0, raw_pairs@[i].1, raw_pairs@[j].0 as int, raw_pairs@[j].1 as int),
                forall|a: usize, b: usize| a < b < n && incomparable(rr, a, b) && scanned_before(a, b, (u) as int, (v) as int) ==> raw_pairs@.contains((a, b)),
            decreases n - v,
        {
            let ghost d0 = degrees@;
            let ghost p0 = raw_pairs@;
            if !bs_contains(&tc_orig[u], v) && !bs_contains(&tc_orig[v], u) {
                proof {
                    assert(partners(rr, u, (u) as int, (v) as int).subset_of(below(n as int).remove(u).remove(v)));
                    assert(partners(rr, v, (u) as int, (v) as int).subset_of(below(n as int).remove(v).remove(u)));
                    lemma_below_len(n as nat);
                    lemma_subset_below_len(partners(rr, u, (u) as int, (v) as int), n as nat);
                    lemma_subset_below_len(partners(rr, v, (u) as int, (v) as int), n as nat);
                    vstd::set_lib::lemma_len_subset(partners(rr, u, (u) as int, (v) as int), below(n as int).remove(u).remove(v));
                    vstd::set_lib::lemma_len_subset(partners(rr, v, (u) as int, (v) as int), below(n as int).remove(v).remove(u));
                }
                raw_pairs.push((u, v));
                degrees.set(u, degrees[u] + 1);
                degrees.set(v, degrees[v] + 1);
                proof {
                    assert(partners(rr, u, (u) as int, (v + 1) as int) =~= partners(rr, u, (u) as int, (v) as int).insert(v));
                    assert(partners(rr, v, (u) as int, (v + 1) as int) =~= partners(rr, v, (u) as int, (v) as int).insert(u));
                    assert forall|y: usize| y < n implies degrees@[y as int] == #[trigger] partners(rr, y, (u) as int, (v + 1) as int).len() by {
                        if y != u && y != v {
                            assert(partners(rr, y, (u) as int, (v + 1) as int) =~= partners(rr, y, (u) as int, (v) as int));
                        }
                    }
                    assert forall|a: usize, b: usize| a < b < n && incomparable(rr, a, b) && scanned_before(a, b, (u) as int, (v + 1) as int)
                        implies raw_pairs@.contains((a, b)) by {
                        if a == u && b == v {
                            assert(raw_pairs@[p0.len() as int] == (a, b));
                        } else {
                            assert(p0.contains((a, b)));
                            let i = choose|i: int| 0 <= i < p0.len() && p0[i] == (a, b);
                            assert(raw_pairs@[i] == (a, b));
                        }
                    }
                }
            } else {
                proof {
                    assert forall|y: usize| y < n implies degrees@[y as int] == #[trigger] partners(rr, y, (u) as int, (v + 1) as int).len() by {
                        assert(partners(rr, y, (u) as int, (v + 1) as int) =~= partners(rr, y, (u) as int, (v) as int));
                    }
                }
            }
            v = v + 1;
        }
        let ghost prev = u;
        u = u + 1;
        proof {
            assert forall|y: usize| y < n implies degrees@[y as int] == #[trigger] partners(rr, y, (u) as int, (u + 1) as int).len() by {
                assert(partners(rr, y, (u) as int, (u + 1) as int) =~= partners(rr, y, (prev) as int, (n) as int));
            }
        }
    }
    // ghost: the degrees are the full partner counts
    proof {
        assert forall|y: usize| y < n implies degrees@[y as int] == degree(rr, y) by {
            assert(partners(rr, y, (n) as int, (n + 1) as int) =~= Set::new(|z: usize| z < rr.len() && z != y && incomparable(rr, y, z)));
        }
    }
    // sort by descending degree product; ties keep the scan order
    let mut k1: Vec<u64> = Vec::new();
    let mut k2: Vec<u64> = Vec::new();
    let mut i: usize = 0;
    while i < raw_pairs.len()
        invariant
            n == tc_orig@.len(),
            degrees@.len() == n,
            forall|y: usize| y < n ==> degrees@[y as int] == degree(rr, y),
            forall|i: int| 0 <= i < raw_pairs@.len() ==> (#[trigger] raw_pairs@[i]).0 < raw_pairs@[i].1 < n,
            i <= raw_pairs@.len(),
            k1@.len() == i,
            k2@.len() == i,
            forall|t: int| 0 <= t < i ==> #[trigger] k1@[t] == u64::MAX - pair_weight(rr, raw_pairs@[t]) && k2@[t] == 0,
        decreases raw_pairs@.len() - i,
    {
        let (a, b) = raw_pairs[i];
        let da = degrees[a] as u64;
        let db = degrees[b] as u64;
        assert(da * db <= u64::MAX) by (nonlinear_arith)
            requires
                da <= u32::MAX,
                db <= u32::MAX,
        {}
        let weight = da * db;
        proof {
            assert(weight == pair_weight(rr, raw_pairs@[i as int])) by (nonlinear_arith)
                requires
                    weight == da * db,
                    da == degrees@[a as int],
                    db == degrees@[b as int],
                    degrees@[a as int] == degree(rr, a),
                    degrees@[b as int] == degree(rr, b),
                    raw_pairs@[i as int] == (a, b),
                    degrees@[a as int] <= u32::MAX,
                    degrees@[b as int] <= u32::MAX,
            {}
        }
        let ghost k1_0 = k1@;
        let ghost k2_0 = k2@;
        k1.push(u64::MAX - weight);
        k2.push(0);
        proof {
            assert forall|t: int| 0 <= t < i + 1 implies #[trigger] k1@[t] == u64::MAX - pair_weight(rr, raw_pairs@[t]) && k2@[t] == 0 by {
                if t < i {
                    assert(k1@[t] == k1_0[t]);
                    assert(k2@[t] == k2_0[t]);
                }
            }
        }
        i = i + 1;
    }
    let order = sorted_indices(&k1, &k2);
    let mut r: Vec<(usize, usize)> = Vec::new();
    let mut t: usize = 0;
    while t < order.len()
        invariant
            order@.len() == raw_pairs@.len(),
            forall|i: int| 0 <= i < order@.len() ==> (#[trigger] order@[i]) < raw_pairs@.len(),
            t <= order@.len(),
            r@.len() == t,
            forall|s: int| 0 <= s < t ==> #[trigger] r@[s] == raw_pairs@[order@[s] as int],
        decreases order@.len() - t,
    {
        r.push(raw_pairs[order[t]]);
        t = t + 1;
    }
    proof {
        assert forall|i: int| 0 <= i < r@.len() implies (#[trigger] r@[i]).0 < r@[i].1 < tc_orig@.len()
            && incomparable(rr, r@[i].0, r@[i].1) by {
            assert(r@[i] == raw_pairs@[order@[i] as int]);
        }
        assert forall|a: usize, b: usize| a < b < tc_orig@.len() && incomparable(rr, a, b) implies r@.contains((a, b)) by {
            assert(raw_pairs@.contains((a, b)));
            let s = choose|s: int| 0 <= s < raw_pairs@.len() && raw_pairs@[s] == (a, b);
            assert(order@.contains(s as usize));
            let t = choose|t: int| 0 <= t < order@.len() && order@[t] == s as usize;
            assert(r@[t] == (a, b));
        }
        assert forall|i: int, j: int| 0 <= i < j < r@.len() implies pair_before(rr, r@[i], r@[j]) by {
            let oi = order@[i];
            let oj = order@[j];
            assert(key_lt(k1@, k2@, oi, oj));
            assert(r@[i] == raw_pairs@[oi as int]);
            assert(r@[j] == raw_pairs@[oj as int]);
            if oi < oj {
                assert(scanned_before(raw_pairs@[oi as int].0, raw_pairs@[oi as int].1, raw_pairs@[oj as int].0 as int, raw_pairs@[oj as int].1 as int));
            }
        }
    }
    r
}


/// The agreements of the two orders in row `i` that the poset's order does
/// not force: nodes above `i` in both, but not above `i` in the poset.
pub open spec fn row_cost(r1: Seq<Set<usize>>, r2: Seq<Set<usize>>, no: Seq<Set<usize>>, i: int) -> nat {
    r1[i].intersect(r2[i]).intersect(no[i]).len()
}

/// The cost over the first `k` rows.
pub open spec fn cost(r1: Seq<Set<usize>>, r2: Seq<Set<usize>>, no: Seq<Set<usize>>, k: nat) -> nat
    decreases k,
{
    if k == 0 { 0 } else { cost(r1, r2, no, (k - 1) as nat) + row_cost(r1, r2, no, k - 1) }
}

pub proof fn lemma_cost_bound(r1: Seq<Set<usize>>, r2: Seq<Set<usize>>, no: Seq<Set<usize>>, n: nat, k: nat)
    requires
        within(r1, n),
        k <= n,
        n <= usize::MAX,
    ensures
        cost(r1, r2, no, k) <= k * n,
    decreases k,
{
    if k > 0 {
        lemma_cost_bound(r1, r2, no, n, (k - 1) as nat);
        let s = r1[k - 1].intersect(r2[k - 1]).intersect(no[k - 1]);
        assert(s.subset_of(below(n as int))) by {
            assert(r1[k - 1].subset_of(below(n as int)));
        }
        lemma_subset_below_len(s, n);
        assert((k - 1) * n + n == k * n) by (nonlinear_arith);
    }
}

/// The cost grows with the tables: over the first `k` rows, if each row of
/// `r1` and `r2` lies in the same row of `b1` and `b2` (the rows of `b1`
/// finite), `b1`, `b2` cost at least as much. Adding order edges never lowers
/// the cost; with `lemma_cost_symmetric` the cost is also symmetric.
pub proof fn lemma_cost_grows(r1: Seq<Set<usize>>, r2: Seq<Set<usize>>, b1: Seq<Set<usize>>, b2: Seq<Set<usize>>,
    no: Seq<Set<usize>>, k: nat)
    requires
        forall|i: int| #![trigger b1[i]] 0 <= i < k ==> r1[i].subset_of(b1[i]) && r2[i].subset_of(b2[i]) && b1[i].finite(),
    ensures
        cost(r1, r2, no, k) <= cost(b1, b2, no, k),
    decreases k,
{
    if k > 0 {
        lemma_cost_grows(r1, r2, b1, b2, no, (k - 1) as nat);
        let i = k - 1;
        let small = r1[i].intersect(r2[i]).intersect(no[i]);
        let large = b1[i].intersect(b2[i]).intersect(no[i]);
        assert(b1[i].finite());
        assert(large.subset_of(b1[i]));
        vstd::set_lib::lemma_set_subset_finite(b1[i], large);
        assert(small.subset_of(large));
        vstd::set_lib::lemma_len_subset(small, large);
    }
}

/// The cost of a pair of orders: over all rows, the nodes above the row's
/// node in both orders but not in the poset's order.
pub fn global_cost(tc1: &Vec<BitSet>, tc2: &Vec<BitSet>, not_orig: &Vec<BitSet>) -> (r: u64)
    requires
        tc2@.len() == tc1@.len(),
        not_orig@.len() == tc1@.len(),
        within(rows(tc1@), tc1@.len()),
        tc1@.len() * tc1@.len() <= u64::MAX,
    ensures
        r == cost(rows(tc1@), rows(tc2@), rows(not_orig@), tc1@.len()),
{
    let n = tc1.len();
    let ghost r1 = rows(tc1@);
    let ghost r2 = rows(tc2@);
    let ghost no = rows(not_orig@);
    let mut total: u64 = 0;
    let mut i: usize = 0;
    while i < n
        invariant
            n == tc1@.len(),
            n == tc2@.len(),
            n == not_orig@.len(),
            r1 == rows(tc1@),
            r2 == rows(tc2@),
            no == rows(not_orig@),
            within(r1, n as nat),
            n * n <= u64::MAX,
            i <= n,
            total == cost(r1, r2, no, i as nat),
        decreases n - i,
    {
        let both = intersection(&tc1[i], &tc2[i]);
        let unforced = intersection(&both, &not_orig[i]);
        let count = bs_len(&unforced);
        proof {
            assert(members(unforced) == r1[i as int].intersect(r2[i as int]).intersect(no[i as int]));
            lemma_cost_bound(r1, r2, no, n as nat, (i + 1) as nat);
            assert((i + 1) * n <= n * n) by (nonlinear_arith)
                requires
                    i < n,
            {}
        }
        total = total + count as u64;
        i = i + 1;
    }
    total
}


/// `y` is an upper cover of `x`: `x < y` with nothing strictly between.
pub open spec fn is_cover(r: Seq<Set<usize>>, x: usize, y: usize) -> bool {
    &&& rel(r, x, y)
    &&& forall|z: usize| #[trigger] rel(r, x, z) && z != y ==> !rel(r, z, y)
}

/// `x` has at most one upper cover.
pub open spec fn at_most_one_cover(r: Seq<Set<usize>>, x: usize) -> bool {
    forall|y1: usize, y2: usize| #[trigger] is_cover(r, x, y1) && #[trigger] is_cover(r, x, y2) ==> y1 == y2
}

/// Counts the upper covers of `x`, stopping at two: true when there is at
/// most one.
fn has_at_most_one_cover(tc_orig: &Vec<BitSet>, x: usize) -> (r: bool)
    requires
        x < tc_orig@.len(),
        within(rows(tc_orig@), tc_orig@.len()),
    ensures
        r == at_most_one_cover(rows(tc_orig@), x),
{
    let ghost rr = rows(tc_orig@);
    let n = tc_orig.len();
    let above = bs_to_vec(&tc_orig[x]);
    proof {
        assert forall|i: int| 0 <= i < above@.len() implies (#[trigger] above@[i]) < n by {
            assert(above@.contains(above@[i]));
            assert(rr[x as int].subset_of(below(n as int)));
        }
    }
    let mut covers: u32 = 0;
    let ghost mut first: usize = 0;
    let mut i: usize = 0;
    while i < above.len()
        invariant
            n == tc_orig@.len(),
            rr == rows(tc_orig@),
            x < n,
            forall|t: int| 0 <= t < above@.len() ==> (#[trigger] above@[t]) < n,
            forall|y: usize| above@.contains(y) <==> rr[x as int].contains(y),
            forall|s: int, t: int| 0 <= s < t < above@.len() ==> above@[s] < above@[t],
            i <= above@.len(),
            covers <= 1,
            covers == 0 ==> forall|t: int| 0 <= t < i ==> !is_cover(rr, x, #[trigger] above@[t]),
            covers == 1 ==> is_cover(rr, x, first) && forall|t: int| 0 <= t < i && is_cover(rr, x, #[trigger] above@[t]) ==> above@[t] == first,
            covers == 1 ==> exists|t: int| 0 <= t < i && above@[t] == first,
        decreases above@.len() - i,
    {
        let y = above[i];
        let mut is_cover_y = true;
        let mut j: usize = 0;
        while j < above.len()
            invariant_except_break
                is_cover_y,
                forall|t: int| 0 <= t < j ==> !(#[trigger] above@[t] != y && rr[above@[t] as int].contains(y)),
            invariant
                n == tc_orig@.len(),
                rr == rows(tc_orig@),
                forall|t: int| 0 <= t < above@.len() ==> (#[trigger] above@[t]) < n,
                y < n,
                j <= above@.len(),
            ensures
                is_cover_y ==> forall|t: int| 0 <= t < above@.len() ==> !(#[trigger] above@[t] != y && rr[above@[t] as int].contains(y)),
                !is_cover_y ==> exists|t: int| 0 <= t < above@.len() && (above@[t] != y && rr[above@[t] as int].contains(y)),
            decreases above@.len() - j,
        {
            let z = above[j];
            if z != y && bs_contains(&tc_orig[z], y) {
                is_cover_y = false;
                proof {
                    assert(above@[j as int] != y && rr[above@[j as int] as int].contains(y));
                }
                break;
            }
            j = j + 1;
        }
        proof {
            assert(above@.contains(y));
            if is_cover_y {
                assert forall|z: usize| #[trigger] rel(rr, x, z) && z != y implies !rel(rr, z, y) by {
                    assert(above@.contains(z));
                    let t = choose|t: int| 0 <= t < above@.len() && above@[t] == z;
                    assert(!(above@[t] != y && rr[above@[t] as int].contains(y)));
                }
            } else {
                let t = choose|t: int| 0 <= t < above@.len() && (above@[t] != y && rr[above@[t] as int].contains(y));
                assert(above@.contains(above@[t]));
                assert(rel(rr, x, above@[t]));
                assert(rel(rr, above@[t], y));
            }
            assert(is_cover_y == is_cover(rr, x, y));
        }
        if is_cover_y {
            if covers == 1 {
                proof {
                    assert(first != y) by {
                        let t0 = choose|t: int| 0 <= t < i && above@[t] == first;
                        assert(above@[t0] < above@[i as int]);
                    }
                    assert(is_cover(rr, x, first) && is_cover(rr, x, y));
                }
                return false;
            }
            covers = 1;
            proof {
                first = y;
                assert(above@[i as int] == first);
            }
        }
        i = i + 1;
    }
    proof {
        assert forall|y1: usize, y2: usize| #[trigger] is_cover(rr, x, y1) && #[trigger] is_cover(rr, x, y2) implies y1 == y2 by {
            assert(above@.contains(y1));
            assert(above@.contains(y2));
            let t1 = choose|t: int| 0 <= t < above@.len() && above@[t] == y1;
            let t2 = choose|t: int| 0 <= t < above@.len() && above@[t] == y2;
        }
    }
    true
}


/// The basis of the heuristic: the nodes with at most one upper cover, or
/// every node when there is none.
pub open spec fn basis_set(r: Seq<Set<usize>>, n: nat) -> Set<usize> {
    let few = Set::new(|x: usize| x < n && at_most_one_cover(r, x));
    if few == Set::<usize>::empty() { below(n as int) } else { few }
}

/// The basis nodes at or above `x`.
pub open spec fn basis_above(r: Seq<Set<usize>>, basis: Set<usize>, x: usize) -> Set<usize> {
    Set::new(|b: usize| basis.contains(b) && (b == x || rel(r, x, b)))
}

/// The number of basis nodes at or above `x`.
pub open spec fn count_above(r: Seq<Set<usize>>, basis: Set<usize>, x: usize) -> nat {
    basis_above(r, basis, x).len()
}

/// `w` is placed above `x` by the heuristic: fewer basis nodes above it,
/// then fewer nodes above it in the poset's order, then the smaller index.
pub open spec fn heuristic_before(r: Seq<Set<usize>>, basis: Set<usize>, w: usize, x: usize) -> bool {
    let cw = count_above(r, basis, w);
    let cx = count_above(r, basis, x);
    ||| cw < cx
    ||| (cw == cx && r[w as int].len() < r[x as int].len())
    ||| (cw == cx && r[w as int].len() == r[x as int].len() && w < x)
}

/// The linear order built by the heuristic: row `x` holds the nodes placed
/// above `x`.
pub open spec fn heuristic_order(r: Seq<Set<usize>>, n: nat) -> Seq<Set<usize>> {
    Seq::new(n, |x: int| Set::new(|w: usize| w < n && heuristic_before(r, basis_set(r, n), w, x as usize)))
}

/// In a list sorted by `key_lt` that holds each index below `n`, position
/// order is key order.
proof fn lemma_sorted_positions(k1: Seq<u64>, k2: Seq<u64>, l: Seq<usize>, p: int, q: int)
    requires
        k1.len() == k2.len(),
        l.len() == k1.len(),
        forall|i: int, j: int| 0 <= i < j < l.len() ==> key_lt(k1, k2, l[i], l[j]),
        0 <= p < l.len(),
        0 <= q < l.len(),
    ensures
        p < q <==> key_lt(k1, k2, l[p], l[q]),
{
    if q < p {
        assert(key_lt(k1, k2, l[q], l[p]));
    }
}

/// The order placing nodes by (basis nodes above, rank in the poset) for the
/// basis listed in `pi`.
fn build_tc_from_basis_order(tc_orig: &Vec<BitSet>, top_sort_idx: &Vec<u64>, pi: &Vec<usize>) -> (r: Vec<BitSet>)
    requires
        within(rows(tc_orig@), tc_orig@.len()),
        top_sort_idx@.len() == tc_orig@.len(),
        forall|w: usize, x: usize| w < tc_orig@.len() && x < tc_orig@.len() ==>
            ((top_sort_idx@[w as int] < top_sort_idx@[x as int]) <==> (rows(tc_orig@)[w as int].len() < rows(tc_orig@)[x as int].len()
                || (rows(tc_orig@)[w as int].len() == rows(tc_orig@)[x as int].len() && w < x))),
        forall|i: int| 0 <= i < pi@.len() ==> (#[trigger] pi@[i]) < tc_orig@.len(),
        forall|i: int, j: int| 0 <= i < j < pi@.len() ==> pi@[i] != pi@[j],
    ensures
        rows(r@) == Seq::new(tc_orig@.len() as nat, |x: int| Set::new(|w: usize| w < tc_orig@.len()
            && heuristic_before(rows(tc_orig@), pi@.to_set(), w, x as usize))),
{
    let ghost rr = rows(tc_orig@);
    let ghost basis = pi@.to_set();
    let n = tc_orig.len();
    // counts[x]: how many entries of pi are at or above x
    let mut counts: Vec<u64> = Vec::new();
    let mut x: usize = 0;
    while x < n
        invariant
            n == tc_orig@.len(),
            rr == rows(tc_orig@),
            basis == pi@.to_set(),
            within(rr, n as nat),
            forall|i: int| 0 <= i < pi@.len() ==> (#[trigger] pi@[i]) < n,
            forall|i: int, j: int| 0 <= i < j < pi@.len() ==> pi@[i] != pi@[j],
            x <= n,
            counts@.len() == x,
            forall|y: int| 0 <= y < x ==> #[trigger] counts@[y] == count_above(rr, basis, y as usize),
        decreases n - x,
    {
        let mut m = bs_new();
        let mut k: usize = 0;
        while k < pi.len()
            invariant
                n == tc_orig@.len(),
                rr == rows(tc_orig@),
                x < n,
                forall|i: int| 0 <= i < pi@.len() ==> (#[trigger] pi@[i]) < n,
                k <= pi@.len(),
                members(m) == Set::new(|i: usize| i < k && (pi@[i as int] == x || rel(rr, x, pi@[i as int]))),
            decreases pi@.len() - k,
        {
            let pk = pi[k];
            if x == pk || bs_contains(&tc_orig[x], pk) {
                bs_insert(&mut m, k);
            }
            k = k + 1;
            assert(members(m) =~= Set::new(|i: usize| i < k && (pi@[i as int] == x || rel(rr, x, pi@[i as int]))));
        }
        let c = bs_len(&m);
        proof {
            let idx = members(m);
            let above = basis_above(rr, basis, x);
            let f = |i: usize| pi@[i as int];
            lemma_subset_below_len(idx, pi@.len());
            assert(vstd::relations::injective_on(f, idx));
            assert(idx.map(f) =~= above) by {
                assert forall|b: usize| above.contains(b) implies idx.map(f).contains(b) by {
                    let i = choose|i: int| 0 <= i < pi@.len() && pi@[i] == b;
                    assert(idx.contains(i as usize));
                    assert(f(i as usize) == b);
                }
            }
            vstd::set_lib::lemma_map_size(idx, above, f);
            assert(idx.len() == above.len());
            assert(c as nat == idx.len());
            assert(count_above(rr, basis, x) == above.len());
            assert(c == count_above(rr, basis, x));
        }
        let ghost counts0 = counts@;
        counts.push(c as u64);
        proof {
            assert forall|y: int| 0 <= y < x + 1 implies #[trigger] counts@[y] == count_above(rr, basis, y as usize) by {
                if y < x {
                    assert(counts@[y] == counts0[y]);
                }
            }
        }
        x = x + 1;
    }
    // place the nodes in ascending order of (count, rank in the poset)
    let l_seq = sorted_indices(&counts, top_sort_idx);
    let mut tc_full: Vec<BitSet> = Vec::new();
    let mut i: usize = 0;
    while i < n
        invariant
            i <= n,
            tc_full@.len() == i,
            forall|k: int| 0 <= k < i ==> members(#[trigger] tc_full@[k]) == Set::<usize>::empty(),
        decreases n - i,
    {
        tc_full.push(bs_new());
        i = i + 1;
    }
    let mut current = bs_new();
    let mut p: usize = 0;
    proof {
        assert forall|s: usize| s < n implies l_seq@.contains(s) by {}
    }
    while p < n
        invariant
            n == tc_orig@.len(),
            l_seq@.len() == n,
            tc_full@.len() == n,
            forall|t: int| 0 <= t < n ==> (#[trigger] l_seq@[t]) < n,
            forall|s: int, t: int| 0 <= s < t < n ==> key_lt(counts@, top_sort_idx@, l_seq@[s], l_seq@[t]),
            counts@.len() == n,
            top_sort_idx@.len() == n,
            p <= n,
            members(current) == Set::new(|w: usize| exists|q: int| 0 <= q < p && l_seq@[q] == w),
            forall|t: int| 0 <= t < p ==> members(#[trigger] tc_full@[l_seq@[t] as int])
                == Set::new(|w: usize| exists|q: int| 0 <= q < t && l_seq@[q] == w),
            forall|x: usize| x < n && (forall|t: int| 0 <= t < p ==> l_seq@[t] != x) ==> members(#[trigger] tc_full@[x as int]) == Set::<usize>::empty(),
        decreases n - p,
    {
        let node = l_seq[p];
        let ghost before = tc_full@;
        let ghost cur0 = members(current);
        tc_full.set(node, bs_clone(&current));
        bs_insert(&mut current, node);
        proof {
            assert(members(current) =~= Set::new(|w: usize| exists|q: int| 0 <= q < p + 1 && l_seq@[q] == w)) by {
                assert forall|w: usize| Set::new(|w: usize| exists|q: int| 0 <= q < p + 1 && l_seq@[q] == w).contains(w)
                    implies members(current).contains(w) by {
                    let q = choose|q: int| 0 <= q < p + 1 && l_seq@[q] == w;
                    if q < p {
                        assert(cur0.contains(w));
                    }
                }
            }
            assert forall|t: int| 0 <= t < p + 1 implies members(#[trigger] tc_full@[l_seq@[t] as int])
                == Set::new(|w: usize| exists|q: int| 0 <= q < t && l_seq@[q] == w) by {
                if t < p {
                    if l_seq@[t] == node {
                        lemma_sorted_positions(counts@, top_sort_idx@, l_seq@, t, p as int);
                        lemma_sorted_positions(counts@, top_sort_idx@, l_seq@, p as int, t);
                    }
                    assert(tc_full@[l_seq@[t] as int] == before[l_seq@[t] as int]);
                } else {
                    assert(cur0 =~= Set::new(|w: usize| exists|q: int| 0 <= q < t && l_seq@[q] == w));
                }
            }
            assert forall|x: usize| x < n && (forall|t: int| 0 <= t < p + 1 ==> l_seq@[t] != x)
                implies members(#[trigger] tc_full@[x as int]) == Set::<usize>::empty() by {
                assert(l_seq@[p as int] != x);
                assert(tc_full@[x as int] == before[x as int]);
            }
        }
        p = p + 1;
    }
    proof {
        let target = Seq::new(n as nat, |x: int| Set::new(|w: usize| w < n && heuristic_before(rr, basis, w, x as usize)));
        assert forall|x: int| 0 <= x < n implies #[trigger] rows(tc_full@)[x] == target[x] by {
            assert(l_seq@.contains(x as usize));
            let px = choose|t: int| 0 <= t < n && l_seq@[t] == x as usize;
            assert(members(tc_full@[l_seq@[px] as int]) == Set::new(|w: usize| exists|q: int| 0 <= q < px && l_seq@[q] == w));
            assert forall|w: usize| rows(tc_full@)[x].contains(w) <==> target[x].contains(w) by {
                if w < n {
                    assert(l_seq@.contains(w));
                    let pw = choose|t: int| 0 <= t < n && l_seq@[t] == w;
                    lemma_sorted_positions(counts@, top_sort_idx@, l_seq@, pw, px);
                    if rows(tc_full@)[x].contains(w) {
                        let q = choose|q: int| 0 <= q < px && l_seq@[q] == w;
                        lemma_sorted_positions(counts@, top_sort_idx@, l_seq@, q, px);
                    }
                    if w == x as usize {
                        assert(!key_lt(counts@, top_sort_idx@, w, w));
                    }
                } else {
                    if rows(tc_full@)[x].contains(w) {
                        let q = choose|q: int| 0 <= q < px && l_seq@[q] == w;
                    }
                }
            }
            assert(rows(tc_full@)[x] =~= target[x]);
        }
        assert(rows(tc_full@) =~= target);
    }
    tc_full
}


/// Builds the starting candidate: the basis is sorted by the number of
/// nodes above each of its members, and the two orders come from the basis
/// in that order and reversed. It returns both orders and their cost.
pub(crate) fn heuristic_initial_candidate(tc_orig: &Vec<BitSet>, not_orig: &Vec<BitSet>) -> (r: (Vec<BitSet>, Vec<BitSet>, u64))
    requires
        within(rows(tc_orig@), tc_orig@.len()),
        not_orig@.len() == tc_orig@.len(),
        tc_orig@.len() * tc_orig@.len() <= u64::MAX,
    ensures
        rows(r.0@) == heuristic_order(rows(tc_orig@), tc_orig@.len()),
        rows(r.1@) == heuristic_order(rows(tc_orig@), tc_orig@.len()),
        r.2 == cost(rows(r.0@), rows(r.1@), rows(not_orig@), tc_orig@.len()),
{
    let ghost rr = rows(tc_orig@);
    let n = tc_orig.len();
    let ghost few = Set::new(|x: usize| x < n && at_most_one_cover(rr, x));
    // basis = nodes with <= 1 immediate upper cover
    let mut basis: Vec<usize> = Vec::new();
    let mut x: usize = 0;
    while x < n
        invariant
            n == tc_orig@.len(),
            rr == rows(tc_orig@),
            within(rr, n as nat),
            few == Set::new(|x: usize| x < n && at_most_one_cover(rr, x)),
            x <= n,
            forall|i: int| 0 <= i < basis@.len() ==> (#[trigger] basis@[i]) < x,
            forall|i: int, j: int| 0 <= i < j < basis@.len() ==> basis@[i] < basis@[j],
            forall|y: usize| y < x ==> (basis@.contains(y) <==> few.contains(y)),
            forall|y: usize| basis@.contains(y) ==> few.contains(y),
        decreases n - x,
    {
        let ghost b0 = basis@;
        let keep = has_at_most_one_cover(tc_orig, x);
        if keep {
            basis.push(x);
        }
        proof {
            assert forall|y: usize| y < x + 1 implies (basis@.contains(y) <==> few.contains(y)) by {
                if basis@.contains(y) && y != x {
                    let i = choose|i: int| 0 <= i < basis@.len() && basis@[i] == y;
                    assert(b0[i] == y);
                }
                if few.contains(y) && y < x {
                    let i = choose|i: int| 0 <= i < b0.len() && b0[i] == y;
                    assert(basis@[i] == y);
                }
                if y == x {
                    if keep {
                        assert(basis@[b0.len() as int] == y);
                    } else if basis@.contains(y) {
                        let i = choose|i: int| 0 <= i < basis@.len() && basis@[i] == y;
                        assert(b0[i] < x);
                    }
                }
            }
            assert forall|y: usize| basis@.contains(y) implies few.contains(y) by {
                let i = choose|i: int| 0 <= i < basis@.len() && basis@[i] == y;
                if i < b0.len() {
                    assert(b0[i] == y);
                }
            }
        }
        x = x + 1;
    }
    if basis.len() == 0 {
        proof {
            assert(few =~= Set::<usize>::empty()) by {
                assert forall|y: usize| !few.contains(y) by {
                    if y < n && few.contains(y) {
                        assert(basis@.contains(y));
                    }
                }
            }
        }
        let mut x: usize = 0;
        while x < n
            invariant
                x <= n,
                basis@.len() == x,
                forall|i: int| 0 <= i < x ==> #[trigger] basis@[i] == i,
            decreases n - x,
        {
            basis.push(x);
            x = x + 1;
        }
        proof {
            assert forall|y: usize| basis@.to_set().contains(y) <==> below(n as int).contains(y) by {
                if y < n {
                    assert(basis@[y as int] == y);
                }
            }
            assert(basis@.to_set() =~= basis_set(rr, n as nat));
            assert forall|i: int, j: int| 0 <= i < j < basis@.len() implies basis@[i] != basis@[j] by {}
        }
    } else {
        proof {
            assert(few != Set::<usize>::empty()) by {
                assert(basis@.contains(basis@[0]));
                assert(few.contains(basis@[0]));
                assert(!Set::<usize>::empty().contains(basis@[0]));
            }
            assert forall|y: usize| basis@.to_set().contains(y) <==> few.contains(y) by {}
            assert(basis@.to_set() =~= basis_set(rr, n as nat));
            assert forall|i: int, j: int| 0 <= i < j < basis@.len() implies basis@[i] != basis@[j] by {}
        }
    }
    proof {
        assert forall|i: int| 0 <= i < basis@.len() implies (#[trigger] basis@[i]) < n by {
            assert(basis@.to_set().contains(basis@[i]));
        }
    }
    // the rank of each node: the number of nodes above it
    let mut lens: Vec<u64> = Vec::new();
    let mut zeros: Vec<u64> = Vec::new();
    let mut x: usize = 0;
    while x < n
        invariant
            n == tc_orig@.len(),
            rr == rows(tc_orig@),
            x <= n,
            lens@.len() == x,
            zeros@.len() == x,
            forall|y: int| 0 <= y < x ==> #[trigger] lens@[y] == rr[y].len() && zeros@[y] == 0,
        decreases n - x,
    {
        let len = bs_len(&tc_orig[x]);
        let ghost lens0 = lens@;
        let ghost zeros0 = zeros@;
        lens.push(len as u64);
        zeros.push(0);
        proof {
            assert(rr[x as int] == members(tc_orig@[x as int]));
            assert(lens@[x as int] == rr[x as int].len());
            assert forall|y: int| 0 <= y < x + 1 implies #[trigger] lens@[y] == rr[y].len() && zeros@[y] == 0 by {
                if y < x {
                    assert(lens@[y] == lens0[y]);
                    assert(zeros@[y] == zeros0[y]);
                }
            }
        }
        x = x + 1;
    }
    // basis.sort_by_key(|&x| tc_orig[x].len())
    let mut basis_keys: Vec<u64> = Vec::new();
    let mut basis_zeros: Vec<u64> = Vec::new();
    let mut i: usize = 0;
    while i < basis.len()
        invariant
            i <= basis@.len(),
            lens@.len() == n,
            forall|t: int| 0 <= t < basis@.len() ==> (#[trigger] basis@[t]) < n,
            basis_keys@.len() == i,
            basis_zeros@.len() == i,
        decreases basis@.len() - i,
    {
        basis_keys.push(lens[basis[i]]);
        basis_zeros.push(0);
        i = i + 1;
    }
    let basis_order = sorted_indices(&basis_keys, &basis_zeros);
    let mut pi_1: Vec<usize> = Vec::new();
    let mut t: usize = 0;
    while t < basis_order.len()
        invariant
            basis_order@.len() == basis@.len(),
            forall|i: int| 0 <= i < basis_order@.len() ==> (#[trigger] basis_order@[i]) < basis@.len(),
            t <= basis_order@.len(),
            pi_1@.len() == t,
            forall|s: int| 0 <= s < t ==> #[trigger] pi_1@[s] == basis@[basis_order@[s] as int],
        decreases basis_order@.len() - t,
    {
        pi_1.push(basis[basis_order[t]]);
        t = t + 1;
    }
    proof {
        assert forall|i: int, j: int| 0 <= i < j < pi_1@.len() implies pi_1@[i] != pi_1@[j] by {
            assert(key_lt(basis_keys@, basis_zeros@, basis_order@[i], basis_order@[j]));
        }
        assert(pi_1@.to_set() =~= basis@.to_set()) by {
            assert forall|y: usize| basis@.to_set().contains(y) implies pi_1@.to_set().contains(y) by {
                let s = choose|s: int| 0 <= s < basis@.len() && basis@[s] == y;
                assert(basis_order@.contains(s as usize));
                let q = choose|q: int| 0 <= q < basis_order@.len() && basis_order@[q] == s as usize;
                assert(pi_1@[q] == y);
            }
        }
    }
    // the nodes in ascending order of the number of nodes above them
    let top_sort = sorted_indices(&lens, &zeros);
    let mut top_sort_idx: Vec<u64> = Vec::new();
    let mut x: usize = 0;
    while x < n
        invariant
            x <= n,
            top_sort_idx@.len() == x,
        decreases n - x,
    {
        top_sort_idx.push(0);
        x = x + 1;
    }
    let mut idx: usize = 0;
    while idx < n
        invariant
            n == tc_orig@.len(),
            top_sort@.len() == n,
            top_sort_idx@.len() == n,
            lens@.len() == n,
            zeros@.len() == n,
            forall|i: int| 0 <= i < n ==> (#[trigger] top_sort@[i]) < n,
            forall|i: int, j: int| 0 <= i < j < n ==> key_lt(lens@, zeros@, top_sort@[i], top_sort@[j]),
            idx <= n,
            forall|i: int| 0 <= i < idx ==> #[trigger] top_sort_idx@[top_sort@[i] as int] == i,
        decreases n - idx,
    {
        let ghost before = top_sort_idx@;
        top_sort_idx.set(top_sort[idx], idx as u64);
        proof {
            assert forall|i: int| 0 <= i < idx + 1 implies #[trigger] top_sort_idx@[top_sort@[i] as int] == i by {
                if i < idx {
                    if top_sort@[i] == top_sort@[idx as int] {
                        lemma_sorted_positions(lens@, zeros@, top_sort@, i, idx as int);
                    }
                    assert(top_sort_idx@[top_sort@[i] as int] == before[top_sort@[i] as int]);
                }
            }
        }
        idx = idx + 1;
    }
    proof {
        assert forall|w: usize, x: usize| w < n && x < n implies
            ((top_sort_idx@[w as int] < top_sort_idx@[x as int]) <==> (rr[w as int].len() < rr[x as int].len()
                || (rr[w as int].len() == rr[x as int].len() && w < x))) by {
            assert(top_sort@.contains(w));
            assert(top_sort@.contains(x));
            let pw = choose|i: int| 0 <= i < n && top_sort@[i] == w;
            let px = choose|i: int| 0 <= i < n && top_sort@[i] == x;
            assert(top_sort_idx@[w as int] == pw);
            assert(top_sort_idx@[x as int] == px);
            lemma_sorted_positions(lens@, zeros@, top_sort@, pw, px);
        }
    }
    let mut pi_2: Vec<usize> = Vec::new();
    let mut t: usize = pi_1.len();
    while t > 0
        invariant
            t <= pi_1@.len(),
            pi_2@.len() == pi_1@.len() - t,
            forall|s: int| 0 <= s < pi_2@.len() ==> #[trigger] pi_2@[s] == pi_1@[pi_1@.len() - 1 - s],
        decreases t,
    {
        t = t - 1;
        pi_2.push(pi_1[t]);
    }
    proof {
        assert forall|i: int, j: int| 0 <= i < j < pi_2@.len() implies pi_2@[i] != pi_2@[j] by {}
        assert(pi_2@.to_set() =~= pi_1@.to_set()) by {
            assert forall|y: usize| pi_1@.to_set().contains(y) implies pi_2@.to_set().contains(y) by {
                let s = choose|s: int| 0 <= s < pi_1@.len() && pi_1@[s] == y;
                assert(pi_2@[pi_1@.len() - 1 - s] == y);
            }
        }
    }
    let tc1 = build_tc_from_basis_order(tc_orig, &top_sort_idx, &pi_1);
    let tc2 = build_tc_from_basis_order(tc_orig, &top_sort_idx, &pi_2);
    proof {
        assert(rows(tc1@) =~= heuristic_order(rr, n as nat));
        assert(rows(tc2@) =~= heuristic_order(rr, n as nat));
        assert forall|i: int| 0 <= i < n implies (#[trigger] rows(tc1@)[i]).subset_of(below(n as int)) by {}
    }
    let cost = global_cost(&tc1, &tc2, not_orig);
    (tc1, tc2, cost)
}

/// For a strict partial order, the heuristic's order is a linear extension.
pub proof fn lemma_heuristic_is_linear_extension(r: Seq<Set<usize>>, n: nat)
    requires
        strict_order(r, n),
        n <= usize::MAX,
    ensures
        linear_extension(heuristic_order(r, n), r, n),
{
    let h = heuristic_order(r, n);
    let basis = basis_set(r, n);
    assert forall|i: int| 0 <= i < n implies (#[trigger] h[i]).subset_of(below(n as int)) by {}
    assert forall|a: usize| !#[trigger] rel(h, a, a) by {}
    assert forall|a: usize, b: usize, c: usize| #[trigger] rel(h, a, b) && #[trigger] rel(h, b, c) implies rel(h, a, c) by {}
    assert forall|a: usize, b: usize| a < n && b < n && a != b implies rel(h, a, b) || rel(h, b, a) by {}
    assert forall|u: usize, v: usize| #[trigger] rel(r, u, v) implies rel(h, u, v) by {
        assert(v < n) by {
            assert(r[u as int].subset_of(below(n as int)));
        }
        // the basis nodes at or above v are at or above u
        assert(basis_above(r, basis, v).subset_of(basis_above(r, basis, u)));
        assert(basis_above(r, basis, u).subset_of(below(n as int))) by {
            assert forall|b: usize| basis_above(r, basis, u).contains(b) implies b < n by {
                if b != u {
                    assert(r[u as int].subset_of(below(n as int)));
                }
            }
        }
        lemma_subset_below_len(basis_above(r, basis, u), n);
        vstd::set_lib::lemma_len_subset(basis_above(r, basis, v), basis_above(r, basis, u));
        // the nodes above v are strictly fewer than those above u
        assert forall|w: usize| r[v as int].contains(w) implies r[u as int].remove(v).contains(w) by {
            assert(rel(r, v, w));
            assert(rel(r, u, w));
        }
        lemma_subset_below_len(r[u as int], n);
        vstd::set_lib::lemma_len_subset(r[v as int], r[u as int].remove(v));
        assert(heuristic_before(r, basis, v, u));
    }
}

} // verus!
