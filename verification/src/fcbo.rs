//! Fast Close-by-One (FCbO) concept enumeration.
//!
//! The search tree is that of Close-by-One: a node is an intent `A` entered
//! at index `y`; its children are the hulls `(A ∪ {j})''` for `j ≥ y`,
//! `j ∉ A`, that add no attribute below `j`. FCbO also remembers, per
//! index, a hull that failed this test ("dead end"); a child whose node
//! contains that remembered hull below `j` would fail as well and is
//! skipped without computing its hull.

use vstd::prelude::*;
use bit_set::BitSet;
use std::collections::HashMap;
use crate::bitset::{members, below, bs_new, bs_clone, bs_contains, bs_is_subset, bs_eq, intersection, singleton, range_set};
use crate::context::FormalContext;
use crate::next_closure::{is_lectic_listing, intent_at};
use crate::lectic::lemma_lectic_irreflexive;

verus! {

/// The hull of the attributes of `c` below `t`.
pub open spec fn prefix_hull<T>(ctx: &FormalContext<T>, c: Set<usize>, t: int) -> Set<usize> {
    ctx.attribute_hull(c.intersect(below(t)))
}

/// Node `(A, y)` of the search tree: `A` is an intent generated by its
/// attributes below `y` and by no shorter prefix.
pub open spec fn tight<T>(ctx: &FormalContext<T>, a: Set<usize>, y: int) -> bool {
    &&& 0 <= y <= ctx.n_attributes()
    &&& ctx.is_intent(a)
    &&& prefix_hull(ctx, a, y) == a
    &&& forall|t: int| 0 <= t < y ==> #[trigger] prefix_hull(ctx, a, t) != a
}

/// The intent `c` lies strictly below node `a` in the search tree: some
/// prefix of `c` generates `a`.
pub open spec fn below_node<T>(ctx: &FormalContext<T>, a: Set<usize>, c: Set<usize>) -> bool {
    &&& ctx.is_intent(c)
    &&& c != a
    &&& exists|t: int| 0 <= t <= ctx.n_attributes() && #[trigger] prefix_hull(ctx, c, t) == a
}

/// The prefixes of `c` generate `a` up to `j` and something larger from `j + 1`.
pub open spec fn crosses_at<T>(ctx: &FormalContext<T>, a: Set<usize>, c: Set<usize>, j: int) -> bool {
    &&& prefix_hull(ctx, c, j) == a
    &&& prefix_hull(ctx, c, j + 1) != a
}

/// Close-by-One's canonicity test: `j ∉ A` and `(A ∪ {j})''` adds no
/// attribute below `j`.
pub open spec fn canonical_at<T>(ctx: &FormalContext<T>, a: Set<usize>, j: usize) -> bool {
    &&& !a.contains(j)
    &&& ctx.attribute_hull(a.insert(j)).intersect(below(j as int)).subset_of(a)
}

proof fn lemma_prefix_mono<T>(ctx: &FormalContext<T>, c: Set<usize>, t1: int, t2: int)
    requires
        c.subset_of(below(ctx.n_attributes() as int)),
        t1 <= t2,
    ensures
        prefix_hull(ctx, c, t1).subset_of(prefix_hull(ctx, c, t2)),
        prefix_hull(ctx, c, t2).subset_of(ctx.attribute_hull(c)),
{
    ctx.lemma_attribute_hull_is_closure(c.intersect(below(t1)), c.intersect(below(t2)));
    ctx.lemma_attribute_hull_is_closure(c.intersect(below(t2)), c);
}

proof fn lemma_prefix_full<T>(ctx: &FormalContext<T>, c: Set<usize>, t: int)
    requires
        ctx.is_intent(c),
        t >= ctx.n_attributes(),
    ensures
        prefix_hull(ctx, c, t) == c,
        c.subset_of(below(ctx.n_attributes() as int)),
{
    assert(c.subset_of(below(ctx.n_attributes() as int)));
    assert(c.intersect(below(t)) =~= c);
}

/// Entering the subtree of `(A, y)`: any intent `c` that some prefix maps to
/// `A` contains `A` and agrees with `A` below `y`.
proof fn lemma_agree_on_entry<T>(ctx: &FormalContext<T>, a: Set<usize>, y: int, c: Set<usize>, t0: int)
    requires
        tight(ctx, a, y),
        ctx.is_intent(c),
        0 <= t0,
        prefix_hull(ctx, c, t0) == a,
    ensures
        a.subset_of(c),
        c.intersect(below(y)) == a.intersect(below(y)),
        prefix_hull(ctx, c, y) == a,
{
    let n = ctx.n_attributes() as int;
    lemma_prefix_full(ctx, c, n);
    lemma_prefix_full(ctx, a, n);
    lemma_prefix_mono(ctx, c, t0, t0);
    ctx.lemma_attribute_hull_is_closure(c.intersect(below(t0)), c.intersect(below(t0)));
    if y <= t0 {
        assert(c.intersect(below(y)).subset_of(c.intersect(below(t0))));
        assert(c.intersect(below(y)) =~= a.intersect(below(y)));
    } else {
        // c ∩ below(t0) ⊆ a ∩ below(t0), so the prefix of a of length t0
        // already generates a, against tightness.
        assert(c.intersect(below(t0)).subset_of(a.intersect(below(t0))));
        ctx.lemma_attribute_hull_is_closure(c.intersect(below(t0)), a.intersect(below(t0)));
        ctx.lemma_attribute_hull_is_closure(a.intersect(below(t0)), a);
        assert(prefix_hull(ctx, a, t0) == a);
        assert(false);
    }
}

/// A crossing index is unique.
proof fn lemma_crossing_unique<T>(ctx: &FormalContext<T>, a: Set<usize>, c: Set<usize>, j1: int, j2: int)
    requires
        ctx.is_intent(c),
        0 <= j1,
        0 <= j2,
        crosses_at(ctx, a, c, j1),
        crosses_at(ctx, a, c, j2),
    ensures
        j1 == j2,
{
    lemma_prefix_full(ctx, c, ctx.n_attributes() as int);
    if j1 < j2 {
        lemma_prefix_mono(ctx, c, j1, j1 + 1);
        lemma_prefix_mono(ctx, c, j1 + 1, j2);
        assert(prefix_hull(ctx, c, j1 + 1) =~= a);
    } else if j2 < j1 {
        lemma_prefix_mono(ctx, c, j2, j2 + 1);
        lemma_prefix_mono(ctx, c, j2 + 1, j1);
        assert(prefix_hull(ctx, c, j2 + 1) =~= a);
    }
}

proof fn lemma_find_crossing<T>(ctx: &FormalContext<T>, a: Set<usize>, c: Set<usize>, lo: int, hi: int)
    requires
        0 <= lo < hi,
        prefix_hull(ctx, c, lo) == a,
        prefix_hull(ctx, c, hi) != a,
    ensures
        exists|j: int| lo <= j < hi && crosses_at(ctx, a, c, j),
    decreases hi - lo,
{
    if prefix_hull(ctx, c, lo + 1) != a {
        assert(crosses_at(ctx, a, c, lo));
    } else {
        lemma_find_crossing(ctx, a, c, lo + 1, hi);
    }
}

/// Every intent below node `(A, y)` crosses `A` at some index in `[y, n)`.
proof fn lemma_crossing_exists<T>(ctx: &FormalContext<T>, a: Set<usize>, y: int, c: Set<usize>)
    requires
        tight(ctx, a, y),
        below_node(ctx, a, c),
    ensures
        exists|j: int| y <= j < ctx.n_attributes() && crosses_at(ctx, a, c, j),
{
    let n = ctx.n_attributes() as int;
    let t0 = choose|t: int| 0 <= t <= n && #[trigger] prefix_hull(ctx, c, t) == a;
    lemma_agree_on_entry(ctx, a, y, c, t0);
    lemma_prefix_full(ctx, c, n);
    if y == n {
        assert(false);
    }
    lemma_find_crossing(ctx, a, c, y, n);
}

/// What a crossing at `j` tells: `j` is in `c` and not in `A`, `j` passes the
/// canonicity test at `A`, and `c` is the hull `(A ∪ {j})''` or lies below it.
proof fn lemma_crossing_child<T>(ctx: &FormalContext<T>, a: Set<usize>, c: Set<usize>, j: usize)
    requires
        ctx.is_intent(c),
        crosses_at(ctx, a, c, j as int),
    ensures
        j < ctx.n_attributes(),
        c.contains(j),
        canonical_at(ctx, a, j),
        prefix_hull(ctx, c, j + 1) == ctx.attribute_hull(a.insert(j)),
        c == ctx.attribute_hull(a.insert(j)) || below_node(ctx, ctx.attribute_hull(a.insert(j)), c),
{
    let n = ctx.n_attributes() as int;
    let mm = below(n);
    lemma_prefix_full(ctx, c, n);
    let x = c.intersect(below(j as int));
    ctx.lemma_attribute_hull_is_closure(x, x);
    // a = x'' ⊇ x
    if !c.contains(j) {
        assert(c.intersect(below(j + 1)) =~= x);
        assert(false);
    }
    assert(j < n);
    if a.contains(j) {
        assert(c.intersect(below(j + 1)).subset_of(a));
        assert(c.intersect(below(j + 1)).subset_of(mm));
        ctx.lemma_attribute_hull_is_closure(c.intersect(below(j + 1)), a);
        ctx.lemma_attribute_hull_is_closure(x, c.intersect(below(j + 1)));
        assert(prefix_hull(ctx, c, j + 1) =~= a);
        assert(false);
    }
    assert(c.intersect(below(j + 1)) =~= x.union(set![j]));
    assert(a.insert(j) =~= a.union(set![j]));
    ctx.lemma_hull_absorbs(x, set![j]);
    let d = ctx.attribute_hull(a.insert(j));
    assert(d == prefix_hull(ctx, c, j + 1));
    lemma_prefix_mono(ctx, c, j + 1, n);
    assert(d.subset_of(c));
    assert(d.intersect(below(j as int)).subset_of(a));
    if c != d {
        assert(prefix_hull(ctx, c, j + 1) == d);
        assert(below_node(ctx, d, c));
    }
}

/// The child `(A ∪ {j})''` of node `(A, y)` is itself a node entered at
/// `j + 1`, crossing `A` at `j`.
proof fn lemma_child_tight<T>(ctx: &FormalContext<T>, a: Set<usize>, y: int, j: usize)
    requires
        tight(ctx, a, y),
        y <= j < ctx.n_attributes(),
        canonical_at(ctx, a, j),
    ensures
        tight(ctx, ctx.attribute_hull(a.insert(j)), j + 1),
        crosses_at(ctx, a, ctx.attribute_hull(a.insert(j)), j as int),
        a.subset_of(ctx.attribute_hull(a.insert(j))),
        ctx.attribute_hull(a.insert(j)).contains(j),
        ctx.attribute_hull(a.insert(j)) != a,
{
    let n = ctx.n_attributes() as int;
    let mm = below(n);
    lemma_prefix_full(ctx, a, n);
    let d = ctx.attribute_hull(a.insert(j));
    assert(a.insert(j).subset_of(mm));
    ctx.lemma_attribute_hull_is_closure(a.insert(j), a.insert(j));
    ctx.lemma_hull_gives_concept(a.insert(j));
    // a = (a ∩ below(j))''
    lemma_prefix_mono(ctx, a, y, j as int);
    assert(prefix_hull(ctx, a, j as int) == a);
    // d ∩ below(j) = a ∩ below(j)
    assert(d.intersect(below(j as int)) =~= a.intersect(below(j as int)));
    let x = a.intersect(below(j as int));
    assert(d.intersect(below(j + 1)) =~= x.union(set![j]));
    assert(a.insert(j) =~= a.union(set![j]));
    ctx.lemma_hull_absorbs(x, set![j]);
    assert(prefix_hull(ctx, d, j + 1) == d);
    assert forall|t: int| 0 <= t < j + 1 implies #[trigger] prefix_hull(ctx, d, t) != d by {
        assert(d.intersect(below(t)) =~= a.intersect(below(t)));
        lemma_prefix_mono(ctx, a, t, n);
    }
    assert(prefix_hull(ctx, d, j as int) == a);
}

/// Every intent equal to a child `(A ∪ {j})''` or below it lies below `A`
/// and crosses `A` at `j`.
proof fn lemma_desc_of_child<T>(ctx: &FormalContext<T>, a: Set<usize>, y: int, j: usize, c: Set<usize>)
    requires
        tight(ctx, a, y),
        y <= j < ctx.n_attributes(),
        canonical_at(ctx, a, j),
        c == ctx.attribute_hull(a.insert(j)) || below_node(ctx, ctx.attribute_hull(a.insert(j)), c),
    ensures
        below_node(ctx, a, c),
        crosses_at(ctx, a, c, j as int),
{
    let n = ctx.n_attributes() as int;
    let d = ctx.attribute_hull(a.insert(j));
    lemma_child_tight(ctx, a, y, j);
    if c == d {
        assert(prefix_hull(ctx, c, j as int) == a);
    } else {
        let t0 = choose|t: int| 0 <= t <= n && #[trigger] prefix_hull(ctx, c, t) == d;
        lemma_agree_on_entry(ctx, d, j + 1, c, t0);
        assert(c.intersect(below(j as int)) =~= d.intersect(below(j as int))) by {
            assert forall|k: usize| c.intersect(below(j as int)).contains(k) <==> d.intersect(below(j as int)).contains(k) by {
                assert(c.intersect(below(j + 1)).contains(k) == d.intersect(below(j + 1)).contains(k));
            }
        }
        assert(prefix_hull(ctx, c, j as int) == a);
        assert(c.contains(j)) by {
            assert(d.intersect(below(j + 1)).contains(j));
        }
    }
    assert(prefix_hull(ctx, c, j as int) == a);
}

/// A node entered past the last attribute, or whose intent is all of `M`,
/// has nothing below it.
proof fn lemma_leaf<T>(ctx: &FormalContext<T>, d: Set<usize>, y: int, c: Set<usize>)
    requires
        tight(ctx, d, y),
        y == ctx.n_attributes() || d == below(ctx.n_attributes() as int),
    ensures
        !below_node(ctx, d, c),
{
    let n = ctx.n_attributes() as int;
    if below_node(ctx, d, c) {
        let t0 = choose|t: int| 0 <= t <= n && #[trigger] prefix_hull(ctx, c, t) == d;
        lemma_agree_on_entry(ctx, d, y, c, t0);
        lemma_prefix_full(ctx, c, n);
        lemma_prefix_full(ctx, d, n);
        if y == n {
            assert(c =~= d) by {
                assert(c.intersect(below(y)) =~= c);
                assert(d.intersect(below(y)) =~= d);
            }
        } else {
            assert(c =~= d);
        }
    }
}

/// The root node: `∅''` entered at 0; every other intent lies below it.
proof fn lemma_root<T>(ctx: &FormalContext<T>, c: Set<usize>)
    ensures
        tight(ctx, ctx.attribute_hull(Set::empty()), 0),
        ctx.is_intent(c) && c != ctx.attribute_hull(Set::empty())
            ==> below_node(ctx, ctx.attribute_hull(Set::empty()), c),
{
    let e = Set::<usize>::empty();
    assert(e.subset_of(below(ctx.n_attributes() as int)));
    ctx.lemma_hull_gives_concept(e);
    let r = ctx.attribute_hull(e);
    ctx.lemma_attribute_hull_is_closure(e, e);
    assert(r.intersect(below(0)) =~= e);
    if ctx.is_intent(c) {
        assert(c.intersect(below(0)) =~= e);
        assert(prefix_hull(ctx, c, 0) == r);
    }
}


/// The canonical indices of node `A` from `j` on, in ascending order.
pub open spec fn canonical_from<T>(ctx: &FormalContext<T>, a: Set<usize>, j: int) -> Seq<usize>
    decreases ctx.n_attributes() - j,
{
    if j < 0 || j >= ctx.n_attributes() {
        Seq::empty()
    } else {
        (if canonical_at(ctx, a, j as usize) { seq![j as usize] } else { Seq::<usize>::empty() })
            + canonical_from(ctx, a, j + 1)
    }
}

/// `canonical_from` ascends strictly through exactly the canonical indices
/// in `[j, n)`.
pub proof fn lemma_canonical_from<T>(ctx: &FormalContext<T>, a: Set<usize>, j: int)
    requires
        0 <= j <= ctx.n_attributes(),
        ctx.n_attributes() <= usize::MAX,
    ensures
        canonical_from(ctx, a, j).len() <= ctx.n_attributes() - j,
        forall|p: int| 0 <= p < canonical_from(ctx, a, j).len() ==> j <= #[trigger] canonical_from(ctx, a, j)[p] < ctx.n_attributes()
            && canonical_at(ctx, a, canonical_from(ctx, a, j)[p]),
        forall|p: int, q: int| 0 <= p < q < canonical_from(ctx, a, j).len() ==> canonical_from(ctx, a, j)[p] < canonical_from(ctx, a, j)[q],
        forall|k: usize| j <= k < ctx.n_attributes() && canonical_at(ctx, a, k) ==> #[trigger] canonical_from(ctx, a, j).contains(k),
    decreases ctx.n_attributes() - j,
{
    let n = ctx.n_attributes() as int;
    if j < n {
        lemma_canonical_from(ctx, a, j + 1);
        let head = if canonical_at(ctx, a, j as usize) { seq![j as usize] } else { Seq::<usize>::empty() };
        let rest = canonical_from(ctx, a, j + 1);
        let s = canonical_from(ctx, a, j);
        assert(s == head + rest);
        assert forall|p: int| 0 <= p < s.len() implies j <= #[trigger] s[p] < n && canonical_at(ctx, a, s[p]) by {
            if p >= head.len() {
                assert(s[p] == rest[p - head.len()]);
            }
        }
        assert forall|p: int, q: int| 0 <= p < q < s.len() implies s[p] < s[q] by {
            if p >= head.len() {
                assert(s[p] == rest[p - head.len()]);
            }
            assert(s[q] == rest[q - head.len()]);
        }
        assert forall|k: usize| j <= k < n && canonical_at(ctx, a, k) implies #[trigger] s.contains(k) by {
            if k == j {
                assert(s[0] == k);
            } else {
                assert(rest.contains(k));
                let p = choose|p: int| 0 <= p < rest.len() && rest[p] == k;
                assert(s[p + head.len()] == k);
            }
        }
    }
}

/// The intents that FCbO lists below node `(A, y)`, in its order: the
/// children `(A ∪ {j})''` for the canonical indices `j ≥ y` in ascending
/// order, then what is listed below each child, from the last child back to
/// the first.
pub open spec fn fcbo_order<T>(ctx: &FormalContext<T>, a: Set<usize>, y: int) -> Seq<Set<usize>>
    decreases ctx.n_attributes() - y, ctx.n_attributes() + 1 - y,
{
    if y < 0 || y >= ctx.n_attributes() || ctx.n_attributes() > usize::MAX {
        Seq::empty()
    } else {
        let ks = canonical_from(ctx, a, y);
        proof {
            lemma_canonical_from(ctx, a, y);
        }
        Seq::new(ks.len(), |p: int| ctx.attribute_hull(a.insert(ks[p]))) + fcbo_after(ctx, a, y, 0)
    }
}

/// What FCbO lists below the children of node `(A, y)` from the `m`-th on,
/// the last child first.
pub open spec fn fcbo_after<T>(ctx: &FormalContext<T>, a: Set<usize>, y: int, m: int) -> Seq<Set<usize>>
    decreases ctx.n_attributes() - y, canonical_from(ctx, a, y).len() - m,
{
    let ks = canonical_from(ctx, a, y);
    if y < 0 || y >= ctx.n_attributes() || ctx.n_attributes() > usize::MAX || m < 0 || m >= ks.len() {
        Seq::empty()
    } else {
        proof {
            lemma_canonical_from(ctx, a, y);
        }
        fcbo_after(ctx, a, y, m + 1) + fcbo_order(ctx, ctx.attribute_hull(a.insert(ks[m])), ks[m] + 1)
    }
}

/// Two strictly ascending sequences with the same elements are equal.
pub proof fn lemma_ascending_unique(s1: Seq<usize>, s2: Seq<usize>)
    requires
        forall|p: int, q: int| 0 <= p < q < s1.len() ==> s1[p] < s1[q],
        forall|p: int, q: int| 0 <= p < q < s2.len() ==> s2[p] < s2[q],
        forall|x: usize| s1.contains(x) <==> s2.contains(x),
    ensures
        s1 == s2,
    decreases s1.len(),
{
    if s1.len() == 0 {
        if s2.len() > 0 {
            assert(s2.contains(s2[0]));
        }
        assert(s1 =~= s2);
    } else {
        assert(s1.contains(s1[0]));
        assert(s2.len() > 0);
        assert(s2.contains(s2[0]));
        let p = choose|p: int| 0 <= p < s2.len() && s2[p] == s1[0];
        let q = choose|q: int| 0 <= q < s1.len() && s1[q] == s2[0];
        if p > 0 {
            assert(s2[0] < s2[p]);
            if q > 0 {
                assert(s1[0] < s1[q]);
            }
        }
        assert(s1[0] == s2[0]);
        let t1 = s1.drop_first();
        let t2 = s2.drop_first();
        assert forall|x: usize| t1.contains(x) <==> t2.contains(x) by {
            if t1.contains(x) {
                let i = choose|i: int| 0 <= i < t1.len() && t1[i] == x;
                assert(s1[i + 1] == x);
                assert(s2.contains(x));
                let k = choose|k: int| 0 <= k < s2.len() && s2[k] == x;
                assert(s1[0] < s1[i + 1]);
                if k == 0 {
                    assert(false);
                }
                assert(t2[k - 1] == x);
            }
            if t2.contains(x) {
                let i = choose|i: int| 0 <= i < t2.len() && t2[i] == x;
                assert(s2[i + 1] == x);
                assert(s1.contains(x));
                let k = choose|k: int| 0 <= k < s1.len() && s1[k] == x;
                assert(s2[0] < s2[i + 1]);
                if k == 0 {
                    assert(false);
                }
                assert(t1[k - 1] == x);
            }
        }
        lemma_ascending_unique(t1, t2);
        assert(s1 =~= s2) by {
            assert forall|i: int| 0 <= i < s1.len() implies s1[i] == s2[i] by {
                if i > 0 {
                    assert(s1[i] == t1[i - 1]);
                    assert(s2[i] == t2[i - 1]);
                }
            }
        }
    }
}

/// A child of node `(A, y)` that the search does not queue: its hull is all
/// of `M`, or it is entered past the last attribute.
pub open spec fn unqueued_child<T>(ctx: &FormalContext<T>, a: Set<usize>, j: usize) -> bool {
    ctx.attribute_hull(a.insert(j)) == below(ctx.n_attributes() as int) || j + 1 >= ctx.n_attributes()
}

/// FCbO lists nothing below a child that it does not queue.
proof fn lemma_unqueued_empty<T>(ctx: &FormalContext<T>, a: Set<usize>, j: usize)
    requires
        unqueued_child(ctx, a, j),
        ctx.n_attributes() <= usize::MAX,
    ensures
        fcbo_order(ctx, ctx.attribute_hull(a.insert(j)), j + 1) == Seq::<Set<usize>>::empty(),
{
    let n = ctx.n_attributes() as int;
    let d = ctx.attribute_hull(a.insert(j));
    if j + 1 < n {
        lemma_canonical_from(ctx, d, j + 1);
        let ks = canonical_from(ctx, d, j + 1);
        if ks.len() > 0 {
            assert(canonical_at(ctx, d, ks[0]));
            assert(d.contains(ks[0]));
        }
        assert(fcbo_after(ctx, d, j + 1, 0) == Seq::<Set<usize>>::empty());
        assert(fcbo_order(ctx, d, j + 1) =~= Seq::<Set<usize>>::empty());
    }
}

/// Children from `lo` up to `hi` that are not queued add nothing.
proof fn lemma_after_skip<T>(ctx: &FormalContext<T>, a: Set<usize>, y: int, lo: int, hi: int)
    requires
        0 <= y < ctx.n_attributes(),
        ctx.n_attributes() <= usize::MAX,
        0 <= lo <= hi <= canonical_from(ctx, a, y).len(),
        forall|i: int| lo <= i < hi ==> unqueued_child(ctx, a, #[trigger] canonical_from(ctx, a, y)[i]),
    ensures
        fcbo_after(ctx, a, y, lo) == fcbo_after(ctx, a, y, hi),
    decreases hi - lo,
{
    if lo < hi {
        lemma_after_skip(ctx, a, y, lo + 1, hi);
        let j = canonical_from(ctx, a, y)[lo];
        assert(unqueued_child(ctx, a, j));
        lemma_unqueued_empty(ctx, a, j);
        assert(fcbo_after(ctx, a, y, lo) =~= fcbo_after(ctx, a, y, lo + 1));
    }
}

broadcast use vstd::std_specs::hash::group_hash_axioms;

/// Outcome of one step of the search at a node.
enum OutputType {
    /// A new concept `(extent, intent)` and the index that produced it.
    FormalConcept((BitSet, BitSet), usize),
    /// A hull that failed the canonicity test, and the index that produced it.
    DeadEndAttributes(BitSet, usize),
    /// No index is left at this node.
    NodeCleared,
}

/// A node waiting to be searched.
struct CallingContext {
    /// The node's intent.
    input_attr: BitSet,
    /// The first index to try at the node.
    inner_index: usize,
    /// The dead-end hulls handed down from the parent.
    dead_end_attr: Option<HashMap<usize, BitSet>>,
}

impl CallingContext {
    /// A node with no dead-end hulls yet; they are handed down once the
    /// parent has been searched through.
    fn new(input_attr: BitSet, inner_index: usize) -> (r: Self)
        ensures
            r.input_attr == input_attr,
            r.inner_index == inner_index,
            r.dead_end_attr is None,
    {
        CallingContext { input_attr, inner_index, dead_end_attr: None }
    }
}

/// `smaller[i]` is `{0, ..., i-1}` for each attribute index `i`.
pub open spec fn smaller_subsets_ok(smaller: Seq<BitSet>, n: nat) -> bool {
    &&& smaller.len() == n
    &&& forall|i: int| 0 <= i < n ==> members(#[trigger] smaller[i]) == below(i)
}

/// The dead-end hulls at node `A` entered at `y`: one for each index from
/// `y` on, each contained in the hull that the index would produce at `A`.
pub open spec fn dead_ends_ok<T>(ctx: &FormalContext<T>, a: Set<usize>, y: int, d: Map<usize, BitSet>) -> bool {
    &&& forall|j: usize| y <= j < ctx.n_attributes() ==> #[trigger] d.contains_key(j)
    &&& forall|j: usize| #[trigger] d.contains_key(j) ==> j < ctx.n_attributes()
        && members(d[j]).subset_of(ctx.attribute_hull(a.insert(j)))
}

/// FCbO's test on the remembered hull: it adds no attribute below `j` that
/// the node lacks.
fn canonicity_test_one(
    smaller_subsets: &[BitSet],
    inner_index: usize,
    input_attributes: &BitSet,
    dead_end_attr_set: &HashMap<usize, BitSet>,
) -> (r: bool)
    requires
        inner_index < smaller_subsets@.len(),
        members(smaller_subsets@[inner_index as int]) == below(inner_index as int),
        dead_end_attr_set@.contains_key(inner_index),
    ensures
        r == members(dead_end_attr_set@[inner_index]).intersect(below(inner_index as int)).subset_of(
            members(*input_attributes).intersect(below(inner_index as int))),
{
    let dead = dead_end_attr_set.get(&inner_index).unwrap();
    let intersection_dead = intersection(dead, &smaller_subsets[inner_index]);
    let intersection_input = intersection(input_attributes, &smaller_subsets[inner_index]);
    bs_is_subset(&intersection_dead, &intersection_input)
}

/// Close-by-One's test: the node and the new hull agree below `j`.
fn canonicity_test_two(
    smaller_subsets: &[BitSet],
    inner_index: usize,
    input_attributes: &BitSet,
    next_attributes: &BitSet,
) -> (r: bool)
    requires
        inner_index < smaller_subsets@.len(),
        members(smaller_subsets@[inner_index as int]) == below(inner_index as int),
    ensures
        r == (members(*input_attributes).intersect(below(inner_index as int))
            == members(*next_attributes).intersect(below(inner_index as int))),
{
    let intersection_input = intersection(input_attributes, &smaller_subsets[inner_index]);
    let intersection_next = intersection(next_attributes, &smaller_subsets[inner_index]);
    bs_eq(&intersection_input, &intersection_next)
}

/// FCbO's first test at index `j` of node `A`: `j ∉ A`, and the dead-end
/// hull remembered for `j` adds no attribute below `j` that `A` lacks.
pub open spec fn passes_dead_end_test(a: Set<usize>, d: Map<usize, BitSet>, j: usize) -> bool {
    &&& !a.contains(j)
    &&& members(d[j]).intersect(below(j as int)).subset_of(a.intersect(below(j as int)))
}

/// One step of the search at node `A` from index `inner_index`: the first
/// index `j ∉ A` that passes the dead-end test yields either a new concept
/// (canonical) or a new dead-end hull; with no such index the node is
/// cleared.
fn fcbo_next_concept<T>(
    context: &FormalContext<T>,
    smaller_subsets: &[BitSet],
    input_attributes: &BitSet,
    inner_index: usize,
    dead_end_attr_set: &HashMap<usize, BitSet>,
) -> (r: OutputType)
    requires
        context.wf(),
        smaller_subsets_ok(smaller_subsets@, context.n_attributes()),
        context.is_intent(members(*input_attributes)),
        dead_ends_ok(context, members(*input_attributes), inner_index as int, dead_end_attr_set@),
    ensures
        match r {
            OutputType::FormalConcept((g, b), j) => {
                &&& inner_index <= j < context.n_attributes()
                &&& passes_dead_end_test(members(*input_attributes), dead_end_attr_set@, j)
                &&& forall|k: usize| inner_index <= k < j
                    ==> !passes_dead_end_test(members(*input_attributes), dead_end_attr_set@, k)
                &&& canonical_at(context, members(*input_attributes), j)
                &&& members(b) == context.attribute_hull(members(*input_attributes).insert(j))
                &&& members(g) == context.extent_of(members(b))
                &&& forall|k: usize| inner_index <= k < j ==> !canonical_at(context, members(*input_attributes), k)
            },
            OutputType::DeadEndAttributes(b, j) => {
                &&& inner_index <= j < context.n_attributes()
                &&& passes_dead_end_test(members(*input_attributes), dead_end_attr_set@, j)
                &&& forall|k: usize| inner_index <= k < j
                    ==> !passes_dead_end_test(members(*input_attributes), dead_end_attr_set@, k)
                &&& !canonical_at(context, members(*input_attributes), j)
                &&& members(b) == context.attribute_hull(members(*input_attributes).insert(j))
                &&& forall|k: usize| inner_index <= k < j ==> !canonical_at(context, members(*input_attributes), k)
            },
            OutputType::NodeCleared => forall|k: usize| inner_index <= k < context.n_attributes()
                ==> !canonical_at(context, members(*input_attributes), k)
                    && !passes_dead_end_test(members(*input_attributes), dead_end_attr_set@, k),
        },
{
    let ghost a = members(*input_attributes);
    let n = context.attributes.len();
    proof {
        lemma_prefix_full(context, a, n as int);
    }
    let mut j = inner_index;
    while j < n
        invariant
            context.wf(),
            n == context.n_attributes(),
            a == members(*input_attributes),
            a.subset_of(below(n as int)),
            context.is_intent(a),
            smaller_subsets_ok(smaller_subsets@, n as nat),
            dead_ends_ok(context, a, inner_index as int, dead_end_attr_set@),
            inner_index <= j,
            forall|k: usize| inner_index <= k < j ==> !canonical_at(context, a, k),
            forall|k: usize| inner_index <= k < j ==> !passes_dead_end_test(a, dead_end_attr_set@, k),
        decreases n - j,
    {
        if !bs_contains(input_attributes, j) && canonicity_test_one(smaller_subsets, j, input_attributes, dead_end_attr_set) {
            let new_attr = singleton(j);
            let objects_input = context.index_extent(input_attributes);
            let objects_new = context.index_extent(&new_attr);
            let next_objects = intersection(&objects_input, &objects_new);
            let next_attributes = context.index_intent(&next_objects);
            proof {
                let x = a.insert(j);
                assert forall|g: usize| context.extent_of(a).intersect(context.extent_of(set![j])).contains(g)
                    <==> context.extent_of(x).contains(g) by {
                    if context.extent_of(x).contains(g) {
                        assert forall|m: usize| #[trigger] a.contains(m) implies context.incident(g, m) by {
                            assert(x.contains(m));
                        }
                        assert forall|m: usize| #[trigger] set![j].contains(m) implies context.incident(g, m) by {
                            assert(x.contains(m));
                        }
                    }
                    if context.extent_of(a).intersect(context.extent_of(set![j])).contains(g) {
                        assert forall|m: usize| #[trigger] x.contains(m) implies context.incident(g, m) by {
                            if m == j {
                                assert(set![j].contains(m));
                            } else {
                                assert(a.contains(m));
                            }
                        }
                    }
                }
                assert(context.extent_of(a).intersect(context.extent_of(set![j])) =~= context.extent_of(x));
                assert(x.subset_of(below(n as int)));
                context.lemma_attribute_hull_is_closure(x, x);
                context.lemma_extent_closed(x);
                assert(a.subset_of(members(next_attributes)));
            }
            if canonicity_test_two(smaller_subsets, j, input_attributes, &next_attributes) {
                proof {
                    assert(members(next_attributes).intersect(below(j as int)).subset_of(a));
                }
                return OutputType::FormalConcept((next_objects, next_attributes), j);
            } else {
                proof {
                    if canonical_at(context, a, j) {
                        assert(members(next_attributes).intersect(below(j as int)) =~= a.intersect(below(j as int)));
                    }
                }
                return OutputType::DeadEndAttributes(next_attributes, j);
            }
        }
        proof {
            if !a.contains(j) {
                // the remembered hull lies in (A ∪ {j})'' and already adds an
                // attribute below j
                let dj = members(dead_end_attr_set@[j]);
                assert(dead_end_attr_set@.contains_key(j));
                assert(dj.subset_of(context.attribute_hull(a.insert(j))));
                if canonical_at(context, a, j) {
                    assert(dj.intersect(below(j as int)).subset_of(a.intersect(below(j as int))));
                }
            }
        }
        j = j + 1;
    }
    OutputType::NodeCleared
}

/// The intent held in a listed concept.
pub open spec fn listed_intent(s: Seq<(BitSet, BitSet)>, p: int) -> Set<usize> {
    members(s[p].1)
}

/// A list of concepts that holds each intent below node `A` exactly once.
pub open spec fn lists_subtree<T>(ctx: &FormalContext<T>, a: Set<usize>, s: Seq<(BitSet, BitSet)>) -> bool {
    &&& forall|p: int| 0 <= p < s.len() ==> below_node(ctx, a, #[trigger] listed_intent(s, p))
        && members(s[p].0) == ctx.extent_of(listed_intent(s, p))
    &&& forall|p: int, q: int| 0 <= p < q < s.len() ==> listed_intent(s, p) != listed_intent(s, q)
    &&& forall|c: Set<usize>| #[trigger] below_node(ctx, a, c) ==> exists|p: int| 0 <= p < s.len() && listed_intent(s, p) == c
}


/// The scan of node `(A, y)` has tried every index below `upto`: `seg` lists,
/// in index order, the hull of each canonical index tried, and `js` holds
/// those indices.
spec fn scan_ok<T>(ctx: &FormalContext<T>, a: Set<usize>, y: int, upto: int, seg: Seq<(BitSet, BitSet)>, js: Seq<usize>) -> bool {
    &&& js.len() == seg.len()
    &&& forall|p: int| 0 <= p < seg.len() ==> y <= #[trigger] js[p] < upto && canonical_at(ctx, a, js[p])
        && listed_intent(seg, p) == ctx.attribute_hull(a.insert(js[p]))
        && members(seg[p].0) == ctx.extent_of(listed_intent(seg, p))
    &&& forall|p: int, q: int| 0 <= p < q < seg.len() ==> js[p] < js[q]
    &&& forall|k: usize| y <= k < upto && #[trigger] canonical_at(ctx, a, k) ==> exists|p: int| 0 <= p < seg.len() && js[p] == k
}

/// The queue of node `(A, y)` after trying every index below `upto`: in
/// index order, each hull of a canonical index `j` that may have something
/// below it, entered at `j + 1`.
spec fn queue_ok<T>(ctx: &FormalContext<T>, a: Set<usize>, y: int, upto: int, queue: Seq<CallingContext>) -> bool {
    &&& forall|c: int| 0 <= c < queue.len() ==> {
        let q = #[trigger] queue[c];
        &&& y < q.inner_index <= upto
        &&& q.inner_index < ctx.n_attributes()
        &&& canonical_at(ctx, a, (q.inner_index - 1) as usize)
        &&& members(q.input_attr) == ctx.attribute_hull(a.insert((q.inner_index - 1) as usize))
    }
    &&& forall|c: int, d: int| 0 <= c < d < queue.len() ==> queue[c].inner_index < queue[d].inner_index
    &&& forall|k: usize| y <= k < upto && #[trigger] canonical_at(ctx, a, k)
        && ctx.attribute_hull(a.insert(k)) != below(ctx.n_attributes() as int) && k + 1 < ctx.n_attributes()
        ==> exists|c: int| 0 <= c < queue.len() && queue[c].inner_index == k + 1
}

/// Trying indices that are not canonical changes nothing but the bound.
proof fn lemma_scan_skip<T>(
    ctx: &FormalContext<T>,
    a: Set<usize>,
    y: int,
    lo: int,
    up: int,
    seg: Seq<(BitSet, BitSet)>,
    js: Seq<usize>,
    queue: Seq<CallingContext>,
)
    requires
        y <= lo <= up,
        scan_ok(ctx, a, y, lo, seg, js),
        queue_ok(ctx, a, y, lo, queue),
        forall|k: usize| lo <= k < up ==> !canonical_at(ctx, a, k),
    ensures
        scan_ok(ctx, a, y, up, seg, js),
        queue_ok(ctx, a, y, up, queue),
{
    let n = ctx.n_attributes() as int;
    assert forall|k: usize| y <= k < up && #[trigger] canonical_at(ctx, a, k)
        implies exists|p: int| 0 <= p < seg.len() && js[p] == k by {
        assert(k < lo);
    }
    assert forall|k: usize| y <= k < up && #[trigger] canonical_at(ctx, a, k)
        && ctx.attribute_hull(a.insert(k)) != below(n) && k + 1 < n
        implies exists|c: int| 0 <= c < queue.len() && queue[c].inner_index == k + 1 by {
        assert(k < lo);
    }
}

/// A canonical index `j` adds its hull to the list.
proof fn lemma_scan_concept<T>(
    ctx: &FormalContext<T>,
    a: Set<usize>,
    y: int,
    lo: int,
    j: usize,
    seg: Seq<(BitSet, BitSet)>,
    js: Seq<usize>,
    fc: (BitSet, BitSet),
)
    requires
        y <= lo <= j,
        scan_ok(ctx, a, y, lo, seg, js),
        forall|k: usize| lo <= k < j ==> !canonical_at(ctx, a, k),
        canonical_at(ctx, a, j),
        members(fc.1) == ctx.attribute_hull(a.insert(j)),
        members(fc.0) == ctx.extent_of(members(fc.1)),
    ensures
        scan_ok(ctx, a, y, j + 1, seg.push(fc), js.push(j)),
{
    let seg1 = seg.push(fc);
    let js1 = js.push(j);
    assert forall|p: int| 0 <= p < seg.len() implies #[trigger] seg1[p] == seg[p] && js1[p] == js[p] by {}
    assert(listed_intent(seg1, seg.len() as int) == members(fc.1));
    assert forall|p: int| 0 <= p < seg1.len() implies y <= #[trigger] js1[p] < j + 1 && canonical_at(ctx, a, js1[p])
        && listed_intent(seg1, p) == ctx.attribute_hull(a.insert(js1[p]))
        && members(seg1[p].0) == ctx.extent_of(listed_intent(seg1, p)) by {
        if p < seg.len() {
            assert(seg1[p] == seg[p]);
        }
    }
    assert forall|k: usize| y <= k < j + 1 && #[trigger] canonical_at(ctx, a, k)
        implies exists|p: int| 0 <= p < seg1.len() && js1[p] == k by {
        if k < lo {
            let p = choose|p: int| 0 <= p < seg.len() && js[p] == k;
            assert(js1[p] == k);
        } else {
            assert(k == j);
            assert(js1[seg.len() as int] == k);
        }
    }
}

/// A canonical index `j` whose hull may have something below it joins the
/// queue.
proof fn lemma_queue_push<T>(
    ctx: &FormalContext<T>,
    a: Set<usize>,
    y: int,
    lo: int,
    j: usize,
    queue0: Seq<CallingContext>,
    queue1: Seq<CallingContext>,
)
    requires
        y <= lo <= j,
        queue_ok(ctx, a, y, lo, queue0),
        forall|k: usize| lo <= k < j ==> !canonical_at(ctx, a, k),
        canonical_at(ctx, a, j),
        if ctx.attribute_hull(a.insert(j)) != below(ctx.n_attributes() as int) && j + 1 < ctx.n_attributes() {
            &&& queue1.len() == queue0.len() + 1
            &&& forall|c: int| 0 <= c < queue0.len() ==> queue1[c] == queue0[c]
            &&& queue1[queue0.len() as int].inner_index == j + 1
            &&& members(queue1[queue0.len() as int].input_attr) == ctx.attribute_hull(a.insert(j))
        } else {
            queue1 == queue0
        },
    ensures
        queue_ok(ctx, a, y, j + 1, queue1),
{
    let n = ctx.n_attributes() as int;
    assert forall|c: int| 0 <= c < queue1.len() implies {
        let q = #[trigger] queue1[c];
        &&& y < q.inner_index <= j + 1
        &&& q.inner_index < n
        &&& canonical_at(ctx, a, (q.inner_index - 1) as usize)
        &&& members(q.input_attr) == ctx.attribute_hull(a.insert((q.inner_index - 1) as usize))
    } by {
        if c < queue0.len() {
            assert(queue1[c] == queue0[c]);
        }
    }
    assert forall|c: int, d: int| 0 <= c < d < queue1.len() implies queue1[c].inner_index < queue1[d].inner_index by {
        assert(queue1[c] == queue0[c]);
        if d < queue0.len() {
            assert(queue1[d] == queue0[d]);
        }
    }
    assert forall|k: usize| y <= k < j + 1 && #[trigger] canonical_at(ctx, a, k)
        && ctx.attribute_hull(a.insert(k)) != below(n) && k + 1 < n
        implies exists|c: int| 0 <= c < queue1.len() && queue1[c].inner_index == k + 1 by {
        if k < lo {
            let c = choose|c: int| 0 <= c < queue0.len() && queue0[c].inner_index == k + 1;
            assert(queue1[c] == queue0[c]);
        } else {
            assert(k == j);
            assert(queue1[queue0.len() as int].inner_index == k + 1);
        }
    }
}

/// A child waiting in the queue of node `(A, y)`: its node and the dead-end
/// hulls handed down to it.
spec fn child_ready<T>(ctx: &FormalContext<T>, a: Set<usize>, y: int, q: CallingContext) -> bool {
    let j = (q.inner_index - 1) as usize;
    &&& y < q.inner_index < ctx.n_attributes()
    &&& canonical_at(ctx, a, j)
    &&& members(q.input_attr) == ctx.attribute_hull(a.insert(j))
    &&& q.dead_end_attr is Some
    &&& dead_ends_ok(ctx, members(q.input_attr), q.inner_index as int, q.dead_end_attr->0@)
}

/// While the children of node `(A, y)` are searched: `seg` lists concepts
/// below `A` once each; those crossing `A` at a queued child's index are that
/// child only; every intent below `A` is listed or lies below a queued child.
spec fn children_state<T>(ctx: &FormalContext<T>, a: Set<usize>, y: int, seg: Seq<(BitSet, BitSet)>, queue: Seq<CallingContext>) -> bool {
    &&& forall|p: int| 0 <= p < seg.len() ==> below_node(ctx, a, #[trigger] listed_intent(seg, p))
        && members(seg[p].0) == ctx.extent_of(listed_intent(seg, p))
    &&& forall|p: int, q: int| 0 <= p < q < seg.len() ==> listed_intent(seg, p) != listed_intent(seg, q)
    &&& forall|c: int| 0 <= c < queue.len() ==> child_ready(ctx, a, y, #[trigger] queue[c])
    &&& forall|c: int, d: int| 0 <= c < d < queue.len() ==> queue[c].inner_index < queue[d].inner_index
    &&& forall|p: int, c: int| 0 <= p < seg.len() && 0 <= c < queue.len()
        && crosses_at(ctx, a, #[trigger] listed_intent(seg, p), #[trigger] queue[c].inner_index - 1)
        ==> listed_intent(seg, p) == members(queue[c].input_attr)
    &&& forall|cc: Set<usize>| #[trigger] below_node(ctx, a, cc) ==>
        (exists|p: int| 0 <= p < seg.len() && listed_intent(seg, p) == cc)
        || (exists|c: int| 0 <= c < queue.len() && below_node(ctx, members(queue[c].input_attr), cc))
}

/// When the scan ends, the children's search can start.
proof fn lemma_children_start<T>(
    ctx: &FormalContext<T>,
    a: Set<usize>,
    y: int,
    seg: Seq<(BitSet, BitSet)>,
    js: Seq<usize>,
    queue0: Seq<CallingContext>,
    queue: Seq<CallingContext>,
    dead: Map<usize, BitSet>,
)
    requires
        tight(ctx, a, y),
        ctx.n_attributes() <= usize::MAX,
        scan_ok(ctx, a, y, ctx.n_attributes() as int, seg, js),
        queue_ok(ctx, a, y, ctx.n_attributes() as int, queue0),
        queue.len() == queue0.len(),
        forall|c: int| 0 <= c < queue.len() ==> (#[trigger] queue[c]).input_attr == queue0[c].input_attr
            && queue[c].inner_index == queue0[c].inner_index
            && queue[c].dead_end_attr is Some && queue[c].dead_end_attr->0@ == dead,
        queue.len() > 0 ==> forall|k: usize| queue[0].inner_index <= k < ctx.n_attributes() ==> #[trigger] dead.contains_key(k),
        forall|k: usize| #[trigger] dead.contains_key(k) ==> k < ctx.n_attributes()
            && members(dead[k]).subset_of(ctx.attribute_hull(a.insert(k))),
    ensures
        children_state(ctx, a, y, seg, queue),
{
    let n = ctx.n_attributes() as int;
    lemma_prefix_full(ctx, a, n);
    assert forall|p: int| 0 <= p < seg.len() implies below_node(ctx, a, #[trigger] listed_intent(seg, p))
        && crosses_at(ctx, a, listed_intent(seg, p), js[p] as int) by {
        lemma_child_tight(ctx, a, y, js[p]);
        assert(prefix_hull(ctx, listed_intent(seg, p), js[p] as int) == a);
    }
    assert forall|p: int, q: int| 0 <= p < q < seg.len() implies listed_intent(seg, p) != listed_intent(seg, q) by {
        if listed_intent(seg, p) == listed_intent(seg, q) {
            lemma_crossing_unique(ctx, a, listed_intent(seg, p), js[p] as int, js[q] as int);
        }
    }
    assert forall|c: int| 0 <= c < queue.len() implies child_ready(ctx, a, y, #[trigger] queue[c]) by {
        let q = queue[c];
        let q0 = queue0[c];
        let j = (q.inner_index - 1) as usize;
        let d = members(q.input_attr);
        lemma_child_tight(ctx, a, y, j);
        assert(queue0[0].inner_index <= q0.inner_index) by {
            if c > 0 {
                assert(queue0[0].inner_index < queue0[c].inner_index);
            }
        }
        assert forall|k: usize| #[trigger] dead.contains_key(k) implies k < n
            && members(dead[k]).subset_of(ctx.attribute_hull(d.insert(k))) by {
            assert(a.insert(k).subset_of(d.insert(k)));
            assert(a.insert(k).subset_of(below(n)));
            ctx.lemma_attribute_hull_is_closure(a.insert(k), d.insert(k));
        }
    }
    assert forall|p: int, c: int| 0 <= p < seg.len() && 0 <= c < queue.len()
        && crosses_at(ctx, a, #[trigger] listed_intent(seg, p), #[trigger] queue[c].inner_index - 1)
        implies listed_intent(seg, p) == members(queue[c].input_attr) by {
        lemma_child_tight(ctx, a, y, js[p]);
        lemma_crossing_unique(ctx, a, listed_intent(seg, p), js[p] as int, queue[c].inner_index - 1);
    }
    assert forall|cc: Set<usize>| #[trigger] below_node(ctx, a, cc) implies
        (exists|p: int| 0 <= p < seg.len() && listed_intent(seg, p) == cc)
        || (exists|c: int| 0 <= c < queue.len() && below_node(ctx, members(queue[c].input_attr), cc)) by {
        lemma_crossing_exists(ctx, a, y, cc);
        let j = choose|j: int| y <= j < n && crosses_at(ctx, a, cc, j);
        assert(j as usize as int == j);
        lemma_crossing_child(ctx, a, cc, j as usize);
        let d = ctx.attribute_hull(a.insert(j as usize));
        let p = choose|p: int| 0 <= p < seg.len() && js[p] == j;
        assert(listed_intent(seg, p) == d);
        if cc != d {
            lemma_child_tight(ctx, a, y, j as usize);
            if d == below(n) || j + 1 == n {
                lemma_leaf(ctx, d, j + 1, cc);
            }
            let c = choose|c: int| 0 <= c < queue0.len() && queue0[c].inner_index == j + 1;
            assert(members(queue[c].input_attr) == d);
        }
    }
}

/// Searching the last queued child lists everything below it.
proof fn lemma_children_step<T>(
    ctx: &FormalContext<T>,
    a: Set<usize>,
    y: int,
    seg: Seq<(BitSet, BitSet)>,
    queue: Seq<CallingContext>,
    sub: Seq<(BitSet, BitSet)>,
)
    requires
        tight(ctx, a, y),
        queue.len() > 0,
        children_state(ctx, a, y, seg, queue),
        lists_subtree(ctx, members(queue.last().input_attr), sub),
    ensures
        children_state(ctx, a, y, seg + sub, queue.drop_last()),
{
    let n = ctx.n_attributes() as int;
    let last = queue.last();
    let jl = (last.inner_index - 1) as usize;
    let d = members(last.input_attr);
    let seg1 = seg + sub;
    let q1 = queue.drop_last();
    assert(child_ready(ctx, a, y, queue[queue.len() - 1]));
    assert forall|p: int| 0 <= p < sub.len() implies below_node(ctx, a, #[trigger] listed_intent(sub, p))
        && crosses_at(ctx, a, listed_intent(sub, p), jl as int) by {
        lemma_desc_of_child(ctx, a, y, jl, listed_intent(sub, p));
    }
    assert forall|p: int| 0 <= p < seg1.len() implies (p < seg.len() ==> #[trigger] seg1[p] == seg[p])
        && (p >= seg.len() ==> seg1[p] == sub[p - seg.len()]) by {}
    assert forall|c: int| 0 <= c < q1.len() implies #[trigger] q1[c] == queue[c] by {}
    assert forall|p: int| 0 <= p < seg1.len() implies below_node(ctx, a, #[trigger] listed_intent(seg1, p))
        && members(seg1[p].0) == ctx.extent_of(listed_intent(seg1, p)) by {
        if p >= seg.len() {
            assert(listed_intent(seg1, p) == listed_intent(sub, p - seg.len()));
        } else {
            assert(listed_intent(seg1, p) == listed_intent(seg, p));
        }
    }
    assert forall|p: int, q: int| 0 <= p < q < seg1.len() implies listed_intent(seg1, p) != listed_intent(seg1, q) by {
        if q >= seg.len() && p < seg.len() {
            let cq = listed_intent(sub, q - seg.len());
            assert(listed_intent(seg1, q) == cq);
            assert(listed_intent(seg1, p) == listed_intent(seg, p));
            if listed_intent(seg, p) == cq {
                assert(crosses_at(ctx, a, listed_intent(seg, p), queue[queue.len() - 1].inner_index - 1));
            }
        } else if p >= seg.len() {
            assert(listed_intent(seg1, p) == listed_intent(sub, p - seg.len()));
            assert(listed_intent(seg1, q) == listed_intent(sub, q - seg.len()));
        } else {
            assert(listed_intent(seg1, p) == listed_intent(seg, p));
            assert(listed_intent(seg1, q) == listed_intent(seg, q));
        }
    }
    assert forall|c: int| 0 <= c < q1.len() implies child_ready(ctx, a, y, #[trigger] q1[c]) by {
        assert(child_ready(ctx, a, y, queue[c]));
    }
    assert forall|p: int, c: int| 0 <= p < seg1.len() && 0 <= c < q1.len()
        && crosses_at(ctx, a, #[trigger] listed_intent(seg1, p), #[trigger] q1[c].inner_index - 1)
        implies listed_intent(seg1, p) == members(q1[c].input_attr) by {
        assert(q1[c] == queue[c]);
        if p >= seg.len() {
            let cp = listed_intent(sub, p - seg.len());
            assert(listed_intent(seg1, p) == cp);
            assert(below_node(ctx, d, cp));
            assert(ctx.is_intent(cp));
            assert(queue[c].inner_index < last.inner_index);
            lemma_crossing_unique(ctx, a, cp, jl as int, queue[c].inner_index - 1);
        } else {
            assert(listed_intent(seg1, p) == listed_intent(seg, p));
        }
    }
    assert forall|cc: Set<usize>| #[trigger] below_node(ctx, a, cc) implies
        (exists|p: int| 0 <= p < seg1.len() && listed_intent(seg1, p) == cc)
        || (exists|c: int| 0 <= c < q1.len() && below_node(ctx, members(q1[c].input_attr), cc)) by {
        if exists|p: int| 0 <= p < seg.len() && listed_intent(seg, p) == cc {
            let p = choose|p: int| 0 <= p < seg.len() && listed_intent(seg, p) == cc;
            assert(listed_intent(seg1, p) == cc);
        } else {
            let c = choose|c: int| 0 <= c < queue.len() && below_node(ctx, members(queue[c].input_attr), cc);
            if c == queue.len() - 1 {
                let p = choose|p: int| 0 <= p < sub.len() && listed_intent(sub, p) == cc;
                assert(listed_intent(seg1, p + seg.len()) == cc);
            } else {
                assert(q1[c] == queue[c]);
            }
        }
    }
}

/// The children `(A ∪ {j})''` of node `(A, y)`, in ascending order of `j`.
pub open spec fn child_hulls<T>(ctx: &FormalContext<T>, a: Set<usize>, y: int) -> Seq<Set<usize>> {
    let ks = canonical_from(ctx, a, y);
    Seq::new(ks.len(), |p: int| ctx.attribute_hull(a.insert(ks[p])))
}

/// The queue of node `(A, y)` holds the queued children among the first `m`
/// canonical ones: each entry is one of them, and each of them that is
/// queued at all is an entry.
#[verifier::opaque]
spec fn queue_matches<T>(ctx: &FormalContext<T>, a: Set<usize>, y: int, queue: Seq<CallingContext>, m: int) -> bool {
    let ks = canonical_from(ctx, a, y);
    &&& forall|c: int| 0 <= c < queue.len() ==> exists|i: int| 0 <= i < m
        && #[trigger] queue[c].inner_index == ks[i] + 1
    &&& forall|i: int| 0 <= i < m && !unqueued_child(ctx, a, #[trigger] ks[i]) ==>
        exists|c: int| 0 <= c < queue.len() && queue[c].inner_index == ks[i] + 1
}

/// After the scan, the concepts listed are the children in ascending order,
/// and the queue holds the queued ones.
proof fn lemma_order_start<T>(
    ctx: &FormalContext<T>,
    a: Set<usize>,
    y: int,
    seg: Seq<(BitSet, BitSet)>,
    js: Seq<usize>,
    queue0: Seq<CallingContext>,
    queue: Seq<CallingContext>,
)
    requires
        tight(ctx, a, y),
        ctx.n_attributes() <= usize::MAX,
        scan_ok(ctx, a, y, ctx.n_attributes() as int, seg, js),
        queue_ok(ctx, a, y, ctx.n_attributes() as int, queue0),
        queue.len() == queue0.len(),
        forall|c: int| 0 <= c < queue.len() ==> (#[trigger] queue[c]).inner_index == queue0[c].inner_index,
    ensures
        intents_of(seg) == child_hulls(ctx, a, y) + fcbo_after(ctx, a, y, canonical_from(ctx, a, y).len() as int),
        queue_matches(ctx, a, y, queue, canonical_from(ctx, a, y).len() as int),
{
    reveal(queue_matches);
    let n = ctx.n_attributes() as int;
    let ks = canonical_from(ctx, a, y);
    let m = ks.len() as int;
    let hulls = child_hulls(ctx, a, y);
    lemma_canonical_from(ctx, a, y);
    assert forall|x: usize| js.contains(x) <==> ks.contains(x) by {
        if js.contains(x) {
            let p = choose|p: int| 0 <= p < js.len() && js[p] == x;
            assert(y <= js[p] < n && canonical_at(ctx, a, js[p]));
        }
        if ks.contains(x) {
            let p = choose|p: int| 0 <= p < ks.len() && ks[p] == x;
            assert(y <= ks[p] < n && canonical_at(ctx, a, ks[p]));
        }
    }
    lemma_ascending_unique(js, ks);
    assert(intents_of(seg) =~= hulls + fcbo_after(ctx, a, y, m)) by {
        assert(fcbo_after(ctx, a, y, m) == Seq::<Set<usize>>::empty());
        assert forall|p: int| 0 <= p < seg.len() implies #[trigger] intents_of(seg)[p] == hulls[p] by {
            assert(listed_intent(seg, p) == ctx.attribute_hull(a.insert(js[p])));
        }
    }
    assert forall|c: int| 0 <= c < queue.len() implies exists|i: int| 0 <= i < m
        && #[trigger] queue[c].inner_index == ks[i] + 1 by {
        let k = (queue0[c].inner_index - 1) as usize;
        assert(canonical_at(ctx, a, k) && y <= k < n);
        assert(ks.contains(k));
        let i = choose|i: int| 0 <= i < ks.len() && ks[i] == k;
        assert(queue[c].inner_index == ks[i] + 1);
    }
    assert forall|i: int| 0 <= i < m && !unqueued_child(ctx, a, #[trigger] ks[i]) implies
        exists|c: int| 0 <= c < queue.len() && queue[c].inner_index == ks[i] + 1 by {
        let k = ks[i];
        assert(canonical_at(ctx, a, k) && y <= k < n);
        let c = choose|c: int| 0 <= c < queue0.len() && queue0[c].inner_index == k + 1;
        assert(queue[c].inner_index == ks[i] + 1);
    }
}

/// Searching the last queued child, the `i`-th canonical one, appends what
/// FCbO lists below it.
#[verifier::spinoff_prover]
#[verifier::rlimit(40)]
proof fn lemma_order_step<T>(
    ctx: &FormalContext<T>,
    a: Set<usize>,
    y: int,
    m: int,
    queue1: Seq<CallingContext>,
    seg1: Seq<(BitSet, BitSet)>,
    sub: Seq<(BitSet, BitSet)>,
) -> (i: int)
    requires
        ctx.n_attributes() <= usize::MAX,
        queue1.len() > 0,
        children_state(ctx, a, y, seg1, queue1),
        0 <= m <= canonical_from(ctx, a, y).len(),
        intents_of(seg1) == child_hulls(ctx, a, y) + fcbo_after(ctx, a, y, m),
        queue_matches(ctx, a, y, queue1, m),
        intents_of(sub) == fcbo_order(ctx, members(queue1.last().input_attr), queue1.last().inner_index as int),
    ensures
        0 <= i < m,
        intents_of(seg1 + sub) == child_hulls(ctx, a, y) + fcbo_after(ctx, a, y, i),
        queue_matches(ctx, a, y, queue1.drop_last(), i),
{
    reveal(queue_matches);
    let n = ctx.n_attributes() as int;
    let ks = canonical_from(ctx, a, y);
    let last = queue1.len() - 1;
    assert(child_ready(ctx, a, y, queue1[last]));
    lemma_canonical_from(ctx, a, y);
    let i = choose|i: int| 0 <= i < m && #[trigger] queue1[last].inner_index == ks[i] + 1;
    assert forall|i2: int| i + 1 <= i2 < m implies unqueued_child(ctx, a, #[trigger] ks[i2]) by {
        if !unqueued_child(ctx, a, ks[i2]) {
            let c = choose|c: int| 0 <= c < queue1.len() && queue1[c].inner_index == ks[i2] + 1;
            assert(ks[i] < ks[i2]);
            if c < last {
                assert(queue1[c].inner_index < queue1[last].inner_index);
            }
        }
    }
    assert(y < n);
    lemma_after_skip(ctx, a, y, i + 1, m);
    let d = ctx.attribute_hull(a.insert(ks[i]));
    assert(fcbo_after(ctx, a, y, i) == fcbo_after(ctx, a, y, i + 1) + fcbo_order(ctx, d, ks[i] + 1));
    assert(members(queue1.last().input_attr) == d);
    assert(intents_of(seg1 + sub) =~= intents_of(seg1) + intents_of(sub));
    let q2 = queue1.drop_last();
    assert forall|c: int| 0 <= c < q2.len() implies exists|i3: int| 0 <= i3 < i
        && #[trigger] q2[c].inner_index == ks[i3] + 1 by {
        assert(q2[c] == queue1[c]);
        let i3 = choose|i3: int| 0 <= i3 < m && #[trigger] queue1[c].inner_index == ks[i3] + 1;
        assert(queue1[c].inner_index < queue1[last].inner_index);
        if i3 > i {
            assert(ks[i] < ks[i3]);
        }
    }
    assert forall|i3: int| 0 <= i3 < i && !unqueued_child(ctx, a, #[trigger] ks[i3]) implies
        exists|c: int| 0 <= c < q2.len() && q2[c].inner_index == ks[i3] + 1 by {
        let c = choose|c: int| 0 <= c < queue1.len() && queue1[c].inner_index == ks[i3] + 1;
        assert(ks[i3] < ks[i]);
        assert(c != last);
        assert(q2[c] == queue1[c]);
    }
    i
}

/// With the queue empty, what the node lists is FCbO's order below it.
proof fn lemma_order_end<T>(ctx: &FormalContext<T>, a: Set<usize>, y: int, m: int, queue: Seq<CallingContext>)
    requires
        ctx.n_attributes() <= usize::MAX,
        0 <= y <= ctx.n_attributes(),
        0 <= m <= canonical_from(ctx, a, y).len(),
        queue.len() == 0,
        queue_matches(ctx, a, y, queue, m),
    ensures
        child_hulls(ctx, a, y) + fcbo_after(ctx, a, y, m) == fcbo_order(ctx, a, y),
{
    reveal(queue_matches);
    let n = ctx.n_attributes() as int;
    let ks = canonical_from(ctx, a, y);
    if y < n {
        lemma_canonical_from(ctx, a, y);
        assert forall|i: int| 0 <= i < m implies unqueued_child(ctx, a, #[trigger] ks[i]) by {}
        lemma_after_skip(ctx, a, y, 0, m);
    } else {
        assert(ks.len() == 0);
        assert(child_hulls(ctx, a, y) =~= Seq::<Set<usize>>::empty());
        assert(fcbo_order(ctx, a, y) =~= Seq::<Set<usize>>::empty());
    }
}

/// Searches the subtree of node `(A, inner_index)`, appending each concept
/// whose intent lies below `A` to `out`, each exactly once.
fn fcbo_node<T>(
    context: &FormalContext<T>,
    smaller_subsets: &[BitSet],
    input_attributes: BitSet,
    inner_index: usize,
    dead_end_attr_set: HashMap<usize, BitSet>,
    out: &mut Vec<(BitSet, BitSet)>,
)
    requires
        context.wf(),
        smaller_subsets_ok(smaller_subsets@, context.n_attributes()),
        tight(context, members(input_attributes), inner_index as int),
        dead_ends_ok(context, members(input_attributes), inner_index as int, dead_end_attr_set@),
    ensures
        final(out)@.len() >= old(out)@.len(),
        final(out)@.subrange(0, old(out)@.len() as int) == old(out)@,
        lists_subtree(context, members(input_attributes),
            final(out)@.subrange(old(out)@.len() as int, final(out)@.len() as int)),
        intents_of(final(out)@.subrange(old(out)@.len() as int, final(out)@.len() as int))
            == fcbo_order(context, members(input_attributes), inner_index as int),
    decreases context.n_attributes() - inner_index,
{
    let ghost a = members(input_attributes);
    let ghost y = inner_index as int;
    let ghost start = out@;
    let ghost k0 = out@.len() as int;
    let ghost mut js: Seq<usize> = Seq::empty();
    let n = context.attributes.len();
    let all = range_set(n);
    let mut dead_end_attr_set = dead_end_attr_set;
    let mut index = inner_index;
    let mut queue: Vec<CallingContext> = Vec::new();
    proof {
        lemma_prefix_full(context, a, n as int);
        assert(out@.subrange(k0, out@.len() as int) =~= Seq::<(BitSet, BitSet)>::empty());
    }
    // scan the indices of this node
    loop
        invariant
            context.wf(),
            n == context.n_attributes(),
            members(all) == below(n as int),
            smaller_subsets_ok(smaller_subsets@, n as nat),
            a == members(input_attributes),
            tight(context, a, y),
            a.subset_of(below(n as int)),
            y <= index <= n,
            dead_ends_ok(context, a, y, dead_end_attr_set@),
            forall|c: int| 0 <= c < queue@.len() ==> (#[trigger] queue@[c]).dead_end_attr is None,
            k0 == start.len(),
            out@.len() >= k0,
            out@.subrange(0, k0) == start,
            scan_ok(context, a, y, index as int, out@.subrange(k0, out@.len() as int), js),
            queue_ok(context, a, y, index as int, queue@),
        ensures
            context.wf(),
            dead_ends_ok(context, a, y, dead_end_attr_set@),
            forall|c: int| 0 <= c < queue@.len() ==> (#[trigger] queue@[c]).dead_end_attr is None,
            out@.len() >= k0,
            out@.subrange(0, k0) == start,
            scan_ok(context, a, y, n as int, out@.subrange(k0, out@.len() as int), js),
            queue_ok(context, a, y, n as int, queue@),
        decreases n - index,
    {
        let ghost seg0 = out@.subrange(k0, out@.len() as int);
        let ghost out0 = out@;
        let ghost queue0 = queue@;
        let ghost old_index = index;
        let output = fcbo_next_concept(context, smaller_subsets, &input_attributes, index, &dead_end_attr_set);
        match output {
            OutputType::FormalConcept(formal_concept, previous_inner_index) => {
                let j = previous_inner_index;
                index = j + 1;
                let full = bs_eq(&formal_concept.1, &all);
                if !full && j < n - 1 {
                    queue.push(CallingContext::new(bs_clone(&formal_concept.1), index));
                }
                let ghost fc = formal_concept;
                out.push(formal_concept);
                proof {
                    assert(out@ == out0.push(fc));
                    assert(out@.subrange(0, k0) =~= start);
                    assert(out@.subrange(k0, out@.len() as int) =~= seg0.push(fc));
                    lemma_scan_concept(context, a, y, old_index as int, j, seg0, js, fc);
                    lemma_queue_push(context, a, y, old_index as int, j, queue0, queue@);
                    js = js.push(j);
                }
            },
            OutputType::DeadEndAttributes(dead_end_attributes, previous_inner_index) => {
                let ghost j = previous_inner_index;
                proof {
                    assert(a.insert(j).subset_of(below(n as int)));
                }
                dead_end_attr_set.insert(previous_inner_index, dead_end_attributes);
                index = previous_inner_index + 1;
                proof {
                    lemma_scan_skip(context, a, y, old_index as int, index as int, seg0, js, queue@);
                }
            },
            OutputType::NodeCleared => {
                proof {
                    lemma_scan_skip(context, a, y, old_index as int, n as int, seg0, js, queue@);
                }
                break;
            },
        }
    }
    // hand the dead-end hulls down to the children found here
    let ghost queue0 = queue@;
    if queue.len() > 0 {
        let first = queue[0].inner_index;
        let mut j: usize = 0;
        while j < first
            invariant
                j <= first,
                first < n,
                n == context.n_attributes(),
                forall|k: usize| first <= k < n ==> #[trigger] dead_end_attr_set@.contains_key(k),
                forall|k: usize| #[trigger] dead_end_attr_set@.contains_key(k) ==> k < n
                    && members(dead_end_attr_set@[k]).subset_of(context.attribute_hull(a.insert(k))),
            decreases first - j,
        {
            dead_end_attr_set.remove(&j);
            j = j + 1;
        }
        let mut c: usize = 0;
        while c < queue.len()
            invariant
                queue@.len() == queue0.len(),
                c <= queue@.len(),
                forall|i: int| 0 <= i < queue0.len() ==> (#[trigger] queue@[i]).input_attr == queue0[i].input_attr
                    && queue@[i].inner_index == queue0[i].inner_index,
                forall|i: int| 0 <= i < c ==> (#[trigger] queue@[i]).dead_end_attr is Some
                    && queue@[i].dead_end_attr->0@ == dead_end_attr_set@,
            decreases queue0.len() - c,
        {
            queue[c].dead_end_attr = Some(dead_end_attr_set.clone());
            c = c + 1;
        }
    }
    proof {
        lemma_children_start(context, a, y, out@.subrange(k0, out@.len() as int), js, queue0, queue@, dead_end_attr_set@);
    }
    let ghost mut m: int = canonical_from(context, a, y).len() as int;
    proof {
        lemma_order_start(context, a, y, out@.subrange(k0, out@.len() as int), js, queue0, queue@);
    }
    // search the children, the last found first
    while queue.len() > 0
        invariant
            context.wf(),
            smaller_subsets_ok(smaller_subsets@, context.n_attributes()),
            n == context.n_attributes(),
            a == members(input_attributes),
            tight(context, a, y),
            y == inner_index,
            k0 == start.len(),
            out@.len() >= k0,
            out@.subrange(0, k0) == start,
            children_state(context, a, y, out@.subrange(k0, out@.len() as int), queue@),
            n <= usize::MAX,
            0 <= m <= canonical_from(context, a, y).len(),
            intents_of(out@.subrange(k0, out@.len() as int)) == child_hulls(context, a, y) + fcbo_after(context, a, y, m),
            queue_matches(context, a, y, queue@, m),
        decreases queue@.len(),
    {
        let ghost queue1 = queue@;
        let ghost seg1 = out@.subrange(k0, out@.len() as int);
        let ghost out1 = out@;
        let state = queue.pop().unwrap();
        proof {
            assert(state == queue1.last());
            assert(queue@ == queue1.drop_last());
            assert(child_ready(context, a, y, queue1[queue1.len() - 1]));
            lemma_child_tight(context, a, y, (state.inner_index - 1) as usize);
        }
        let CallingContext { input_attr, inner_index: child_index, dead_end_attr } = state;
        fcbo_node(context, smaller_subsets, input_attr, child_index, dead_end_attr.unwrap(), out);
        proof {
            let sub = out@.subrange(out1.len() as int, out@.len() as int);
            assert(out@.subrange(0, k0) =~= start) by {
                assert(out@.subrange(0, out1.len() as int) == out1);
                assert forall|i: int| 0 <= i < k0 implies out@[i] == out1[i] by {
                    assert(out@.subrange(0, out1.len() as int)[i] == out1[i]);
                }
            }
            assert(out@.subrange(k0, out@.len() as int) =~= seg1 + sub) by {
                assert(out@.subrange(0, out1.len() as int) == out1);
                assert forall|i: int| 0 <= i < out1.len() implies out@[i] == out1[i] by {
                    assert(out@.subrange(0, out1.len() as int)[i] == out1[i]);
                }
            }
            lemma_children_step(context, a, y, seg1, queue1, sub);
            let i = lemma_order_step(context, a, y, m, queue1, seg1, sub);
            assert(intents_of(seg1 + sub) == intents_of(out@.subrange(k0, out@.len() as int)));
            m = i;
        }
    }
    proof {
        lemma_order_end(context, a, y, m, queue@);
    }
    proof {
        let seg = out@.subrange(k0, out@.len() as int);
        assert(old(out)@ == start);
        assert forall|cc: Set<usize>| #[trigger] below_node(context, a, cc)
            implies exists|p: int| 0 <= p < seg.len() && listed_intent(seg, p) == cc by {}
    }
}

/// `r` lists the formal concepts of the context as FCbO does: the first is
/// `(∅', ∅'')`, the intents follow in FCbO's order, each entry is a concept
/// `(A', A)` with `A` an intent, and every intent of the context appears
/// exactly once.
pub open spec fn is_fcbo_listing<T>(context: &FormalContext<T>, r: Seq<(BitSet, BitSet)>) -> bool {
    &&& r.len() >= 1
    &&& listed_intent(r, 0) == context.attribute_hull(Set::empty())
    &&& intents_of(r) == seq![context.attribute_hull(Set::empty())]
        + fcbo_order(context, context.attribute_hull(Set::empty()), 0)
    &&& forall|p: int| 0 <= p < r.len() ==> context.is_intent(#[trigger] listed_intent(r, p))
        && members(r[p].0) == context.extent_of(listed_intent(r, p))
    &&& forall|p: int, q: int| 0 <= p < q < r.len() ==> listed_intent(r, p) != listed_intent(r, q)
    &&& forall|c: Set<usize>| #[trigger] context.is_intent(c) ==> exists|p: int| 0 <= p < r.len() && listed_intent(r, p) == c
}

/// The intents that a listing holds, in its order.
pub open spec fn intents_of(r: Seq<(BitSet, BitSet)>) -> Seq<Set<usize>> {
    Seq::new(r.len(), |p: int| members(r[p].1))
}

/// FCbO and Next Closure list the same concepts, and as many: the two
/// listings hold the same set of intents (with the same extents, each the
/// derivation of its intent), and each lists every intent exactly once.
pub proof fn lemma_fcbo_agrees_with_next_closure<T>(context: &FormalContext<T>, f: Seq<(BitSet, BitSet)>,
    nc: Seq<(BitSet, BitSet)>)
    requires
        is_fcbo_listing(context, f),
        is_lectic_listing(context, nc),
    ensures
        intents_of(f).to_set() == intents_of(nc).to_set(),
        f.len() == nc.len(),
{
    let fi = intents_of(f);
    let ni = intents_of(nc);
    assert forall|c: Set<usize>| fi.to_set().contains(c) <==> ni.to_set().contains(c) by {
        if fi.to_set().contains(c) {
            let p = choose|p: int| 0 <= p < fi.len() && fi[p] == c;
            assert(listed_intent(f, p) == c);
            let i = choose|i: int| 0 <= i < nc.len() && intent_at(nc, i) == c;
            assert(ni[i] == c);
        }
        if ni.to_set().contains(c) {
            let i = choose|i: int| 0 <= i < ni.len() && ni[i] == c;
            assert(intent_at(nc, i) == c);
            let p = choose|p: int| 0 <= p < f.len() && listed_intent(f, p) == c;
            assert(fi[p] == c);
        }
    }
    assert(fi.to_set() =~= ni.to_set());
    assert(fi.no_duplicates()) by {
        assert forall|p: int, q: int| 0 <= p < fi.len() && 0 <= q < fi.len() && p != q implies fi[p] != fi[q] by {
            assert(fi[p] == listed_intent(f, p) && fi[q] == listed_intent(f, q));
        }
    }
    assert(ni.no_duplicates()) by {
        assert forall|i: int, j: int| 0 <= i < ni.len() && 0 <= j < ni.len() && i != j implies ni[i] != ni[j] by {
            assert(ni[i] == intent_at(nc, i) && ni[j] == intent_at(nc, j));
            if i < j {
                lemma_lectic_irreflexive(ni[i]);
            } else {
                lemma_lectic_irreflexive(ni[j]);
            }
        }
    }
    fi.unique_seq_to_set();
    ni.unique_seq_to_set();
}

/// All formal concepts of the context, listed by FCbO: the first is
/// `(∅', ∅'')`, every intent of the context appears exactly once, and each
/// extent is the derivation of its intent.
pub fn index_fcbo_concepts<T>(context: &FormalContext<T>) -> (r: Vec<(BitSet, BitSet)>)
    requires
        context.wf(),
    ensures
        is_fcbo_listing(context, r@),
{
    let attr_length = context.attributes.len();
    // smaller_subsets[i] holds {0, ..., i-1}
    let mut smaller_subsets: Vec<BitSet> = Vec::with_capacity(attr_length);
    let mut i: usize = 0;
    while i < attr_length
        invariant
            i <= attr_length,
            smaller_subsets_ok(smaller_subsets@, i as nat),
        decreases attr_length - i,
    {
        smaller_subsets.push(range_set(i));
        i = i + 1;
    }
    // the first concept: the closure of the empty attribute set
    let empty = bs_new();
    let starting_objects = context.index_extent(&empty);
    let input_attributes = context.index_intent(&starting_objects);
    // every index starts with an empty dead-end hull
    let mut dead_end_attr_set: HashMap<usize, BitSet> = HashMap::new();
    let mut i: usize = 0;
    while i < attr_length
        invariant
            i <= attr_length,
            forall|k: usize| k < i ==> #[trigger] dead_end_attr_set@.contains_key(k),
            forall|k: usize| #[trigger] dead_end_attr_set@.contains_key(k) ==> k < i
                && members(dead_end_attr_set@[k]) == Set::<usize>::empty(),
        decreases attr_length - i,
    {
        dead_end_attr_set.insert(i, bs_new());
        i = i + 1;
    }
    let ghost root = members(input_attributes);
    proof {
        lemma_root(context, Set::empty());
        assert(Set::<usize>::empty().subset_of(below(attr_length as int)));
        context.lemma_hull_gives_concept(Set::empty());
        assert forall|k: usize| #[trigger] dead_end_attr_set@.contains_key(k) implies k < attr_length
            && members(dead_end_attr_set@[k]).subset_of(context.attribute_hull(root.insert(k))) by {}
    }
    let mut out: Vec<(BitSet, BitSet)> = Vec::new();
    out.push((bs_clone(&starting_objects), bs_clone(&input_attributes)));
    let ghost first = out@;
    fcbo_node(context, smaller_subsets.as_slice(), input_attributes, 0, dead_end_attr_set, &mut out);
    proof {
        let rest = out@.subrange(1, out@.len() as int);
        assert(out@[0] == first[0]) by {
            assert(out@.subrange(0, 1)[0] == first[0]);
        }
        assert(listed_intent(out@, 0) == root);
        assert forall|p: int| 1 <= p < out@.len() implies #[trigger] listed_intent(out@, p) == listed_intent(rest, p - 1) by {}
        assert forall|p: int| 0 <= p < out@.len() implies context.is_intent(#[trigger] listed_intent(out@, p))
            && members(out@[p].0) == context.extent_of(listed_intent(out@, p)) by {
            if p > 0 {
                assert(listed_intent(out@, p) == listed_intent(rest, p - 1));
            }
        }
        assert forall|p: int, q: int| 0 <= p < q < out@.len() implies listed_intent(out@, p) != listed_intent(out@, q) by {
            assert(listed_intent(out@, q) == listed_intent(rest, q - 1));
            if p > 0 {
                assert(listed_intent(out@, p) == listed_intent(rest, p - 1));
            }
        }
        assert(intents_of(out@) =~= seq![root] + intents_of(rest)) by {
            assert forall|p: int| 1 <= p < out@.len() implies #[trigger] intents_of(out@)[p] == intents_of(rest)[p - 1] by {
                assert(listed_intent(out@, p) == listed_intent(rest, p - 1));
            }
        }
        assert forall|c: Set<usize>| #[trigger] context.is_intent(c) implies exists|p: int| 0 <= p < out@.len() && listed_intent(out@, p) == c by {
            lemma_root(context, c);
            if c != root {
                let p = choose|p: int| 0 <= p < rest.len() && listed_intent(rest, p) == c;
                assert(listed_intent(out@, p + 1) == c);
            }
        }
    }
    out
}

/// Handle for the FCbO concept enumeration algorithm.
pub struct Fcbo;

impl Fcbo {
    /// All formal concepts of the context, each once, starting with `(∅', ∅'')`.
    pub fn enumerate_concepts<T>(&self, context: &FormalContext<T>) -> (r: Vec<(BitSet, BitSet)>)
        requires
            context.wf(),
        ensures
            is_fcbo_listing(context, r@),
    {
        index_fcbo_concepts(context)
    }
}

} // verus!
