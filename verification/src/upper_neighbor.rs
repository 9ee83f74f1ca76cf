//! Upper neighbours of a concept (Lindig's algorithm): one generating object
//! for each upper neighbour of the concept with a given extent.

use vstd::prelude::*;
use bit_set::BitSet;
use crate::bitset::{members, below, bs_clone, bs_to_vec, bs_eq, bs_difference_with, range_set, difference,
    intersection, union, singleton};
use crate::context::FormalContext;

verus! {

/// The objects outside `X`: the candidates for extending the extent `X`.
pub open spec fn candidates<T>(ctx: &FormalContext<T>, x: Set<usize>) -> Set<usize> {
    below(ctx.n_objects() as int).difference(x)
}

/// The extent generated by adding object `g` to `X`: `(X ∪ {g})''`.
pub open spec fn neighbor_hull<T>(ctx: &FormalContext<T>, x: Set<usize>, g: usize) -> Set<usize> {
    ctx.object_hull(x.insert(g))
}

/// `(X ∪ {g})''` is minimal among the extents generated by one candidate:
/// it is an upper neighbour of `X`.
pub open spec fn is_minimal_hull<T>(ctx: &FormalContext<T>, x: Set<usize>, g: usize) -> bool {
    forall|h: usize| #[trigger] candidates(ctx, x).contains(h)
        && neighbor_hull(ctx, x, h).subset_of(neighbor_hull(ctx, x, g))
        ==> neighbor_hull(ctx, x, h) == neighbor_hull(ctx, x, g)
}

/// `g` is the largest new object of `(X ∪ {g})''`.
pub open spec fn is_top_generator<T>(ctx: &FormalContext<T>, x: Set<usize>, g: usize) -> bool {
    forall|h: usize| #[trigger] neighbor_hull(ctx, x, g).contains(h) && !x.contains(h) ==> h <= g
}

/// The generators that the algorithm keeps: for each upper neighbour of `X`,
/// its largest object outside `X`.
pub open spec fn upper_neighbor_generators<T>(ctx: &FormalContext<T>, x: Set<usize>) -> Set<usize> {
    Set::new(|g: usize| candidates(ctx, x).contains(g) && is_minimal_hull(ctx, x, g) && is_top_generator(ctx, x, g))
}

/// A nonempty set of integers below `n` has a largest element.
proof fn lemma_max_exists(s: Set<usize>, n: nat)
    requires
        s.subset_of(below(n as int)),
        s != Set::<usize>::empty(),
        n <= usize::MAX,
    ensures
        exists|m: usize| s.contains(m) && forall|h: usize| #[trigger] s.contains(h) ==> h <= m,
    decreases n,
{
    assert(exists|e: usize| s.contains(e)) by {
        if !exists|e: usize| s.contains(e) {
            assert(s =~= Set::<usize>::empty());
        }
    }
    let e = choose|e: usize| s.contains(e);
    if n == 0 {
        assert(below(0).contains(e));
    } else if s.contains((n - 1) as usize) {
        let m = (n - 1) as usize;
        assert(forall|h: usize| #[trigger] s.contains(h) ==> h <= m);
    } else {
        lemma_max_exists(s, (n - 1) as nat);
    }
}

/// Below the extent generated by a candidate lies a minimal one.
proof fn lemma_minimal_below<T>(ctx: &FormalContext<T>, x: Set<usize>, g0: usize)
    requires
        candidates(ctx, x).contains(g0),
    ensures
        exists|g: usize| candidates(ctx, x).contains(g) && is_minimal_hull(ctx, x, g)
            && neighbor_hull(ctx, x, g).subset_of(neighbor_hull(ctx, x, g0)),
    decreases neighbor_hull(ctx, x, g0).len(),
{
    let hg0 = neighbor_hull(ctx, x, g0);
    let n = ctx.n_objects() as int;
    assert(hg0.subset_of(below(n)));
    vstd::set_lib::lemma_int_range(0, n);
    assert(below(n).finite()) by {
        assert(below(n) =~= Set::new(|i: usize| 0 <= i < n));
        lemma_below_finite(n as nat);
    }
    vstd::set_lib::lemma_set_subset_finite(below(n), hg0);
    if !is_minimal_hull(ctx, x, g0) {
        let g1 = choose|h: usize| #[trigger] candidates(ctx, x).contains(h)
            && neighbor_hull(ctx, x, h).subset_of(hg0) && neighbor_hull(ctx, x, h) != hg0;
        let hg1 = neighbor_hull(ctx, x, g1);
        assert(exists|e: usize| hg0.contains(e) && !hg1.contains(e)) by {
            if !exists|e: usize| hg0.contains(e) && !hg1.contains(e) {
                assert(hg0 =~= hg1);
            }
        }
        let e = choose|e: usize| hg0.contains(e) && !hg1.contains(e);
        assert(hg1.subset_of(hg0.remove(e)));
        assert(hg0.remove(e).len() == hg0.len() - 1);
        vstd::set_lib::lemma_len_subset(hg1, hg0.remove(e));
        lemma_minimal_below(ctx, x, g1);
    }
}

/// `{0, ..., n-1}` is finite.
proof fn lemma_below_finite(n: nat)
    ensures
        below(n as int).finite(),
    decreases n,
{
    if n == 0 {
        assert(below(0) =~= Set::<usize>::empty());
    } else {
        lemma_below_finite((n - 1) as nat);
        if n - 1 <= usize::MAX {
            assert(below(n as int) =~= below(n - 1).insert((n - 1) as usize));
        } else {
            assert(below(n as int) =~= below(n - 1));
        }
    }
}


/// `g` is kept by the algorithm.
pub open spec fn kept<T>(ctx: &FormalContext<T>, x: Set<usize>, g: usize) -> bool {
    is_minimal_hull(ctx, x, g) && is_top_generator(ctx, x, g)
}

/// The working set once every candidate below `t` has been examined.
pub open spec fn working_set<T>(ctx: &FormalContext<T>, x: Set<usize>, t: int) -> Set<usize> {
    Set::new(|m: usize| candidates(ctx, x).contains(m) && (m >= t || kept(ctx, x, m)))
}

/// A candidate's hull holds the candidate, lies in `G`, and holds the hull of
/// each candidate it contains.
proof fn lemma_hull_facts<T>(ctx: &FormalContext<T>, x: Set<usize>, g: usize, h: usize)
    requires
        x.subset_of(below(ctx.n_objects() as int)),
        candidates(ctx, x).contains(g),
    ensures
        neighbor_hull(ctx, x, g).contains(g),
        neighbor_hull(ctx, x, g).subset_of(below(ctx.n_objects() as int)),
        x.subset_of(neighbor_hull(ctx, x, g)),
        neighbor_hull(ctx, x, g).contains(h) && h < ctx.n_objects()
            ==> neighbor_hull(ctx, x, h).subset_of(neighbor_hull(ctx, x, g)),
{
    let n = ctx.n_objects() as int;
    let hg = neighbor_hull(ctx, x, g);
    ctx.lemma_object_hull_is_closure(x.insert(g), x.insert(g));
    if hg.contains(h) && h < n {
        assert(x.insert(h).subset_of(hg));
        ctx.lemma_object_hull_is_closure(x.insert(h), hg);
    }
}

/// The test made for candidate `k`: its hull meets the working set in `k`
/// alone exactly when `k` is kept.
proof fn lemma_decision<T>(ctx: &FormalContext<T>, x: Set<usize>, k: usize)
    requires
        x.subset_of(below(ctx.n_objects() as int)),
        candidates(ctx, x).contains(k),
        ctx.n_objects() <= usize::MAX,
    ensures
        (neighbor_hull(ctx, x, k).intersect(working_set(ctx, x, k as int)) == set![k]) == kept(ctx, x, k),
{
    let n = ctx.n_objects() as int;
    let hk = neighbor_hull(ctx, x, k);
    let w = working_set(ctx, x, k as int);
    lemma_hull_facts(ctx, x, k, k);
    if kept(ctx, x, k) {
        assert forall|m: usize| hk.intersect(w).contains(m) implies m == k by {
            lemma_hull_facts(ctx, x, k, m);
            if m != k {
                assert(m <= k);
                assert(kept(ctx, x, m));
                assert(neighbor_hull(ctx, x, m) == hk);
                assert(hk.contains(k) && !x.contains(k));
                assert(k <= m);
            }
        }
        assert(hk.intersect(w) =~= set![k]);
    } else {
        let m = if !is_top_generator(ctx, x, k) {
            choose|h: usize| #[trigger] hk.contains(h) && !x.contains(h) && !(h <= k)
        } else {
            let h0 = choose|h: usize| #[trigger] candidates(ctx, x).contains(h)
                && neighbor_hull(ctx, x, h).subset_of(hk) && neighbor_hull(ctx, x, h) != hk;
            lemma_minimal_below(ctx, x, h0);
            let g = choose|g: usize| candidates(ctx, x).contains(g) && is_minimal_hull(ctx, x, g)
                && neighbor_hull(ctx, x, g).subset_of(neighbor_hull(ctx, x, h0));
            let u = neighbor_hull(ctx, x, g);
            lemma_hull_facts(ctx, x, g, g);
            let fresh = u.difference(x);
            assert(fresh.contains(g));
            lemma_max_exists(fresh, n as nat);
            let top = choose|t: usize| fresh.contains(t) && forall|h: usize| #[trigger] fresh.contains(h) ==> h <= t;
            lemma_hull_facts(ctx, x, g, top);
            assert(candidates(ctx, x).contains(top));
            assert(neighbor_hull(ctx, x, top).subset_of(u));
            assert(neighbor_hull(ctx, x, top) == u);
            assert(is_minimal_hull(ctx, x, top));
            assert(is_top_generator(ctx, x, top)) by {
                assert forall|h: usize| #[trigger] neighbor_hull(ctx, x, top).contains(h) && !x.contains(h) implies h <= top by {
                    assert(fresh.contains(h));
                }
            }
            if top == k {
                assert(hk == u);
                assert(false);
            }
            top
        };
        assert(hk.contains(m));
        assert(w.contains(m));
        assert(m != k);
        assert(hk.intersect(w).contains(m));
        assert(!set![k].contains(m));
    }
}


/// Objects outside `G` in `X` do not change the generators.
proof fn lemma_restrict<T>(ctx: &FormalContext<T>, x: Set<usize>)
    ensures
        forall|h: usize| #[trigger] neighbor_hull(ctx, x, h) == neighbor_hull(ctx, x.intersect(below(ctx.n_objects() as int)), h),
        candidates(ctx, x) == candidates(ctx, x.intersect(below(ctx.n_objects() as int))),
        upper_neighbor_generators(ctx, x) == upper_neighbor_generators(ctx, x.intersect(below(ctx.n_objects() as int))),
{
    let n = ctx.n_objects() as int;
    let x1 = x.intersect(below(n));
    assert forall|h: usize| #[trigger] neighbor_hull(ctx, x, h) == neighbor_hull(ctx, x1, h) by {
        assert forall|m: usize| ctx.intent_of(x.insert(h)).contains(m) <==> ctx.intent_of(x1.insert(h)).contains(m) by {
            if ctx.intent_of(x.insert(h)).contains(m) {
                assert forall|g: usize| #[trigger] x1.insert(h).contains(g) && g < ctx.n_objects()
                    implies ctx.incident(g, m) by {
                    assert(x.insert(h).contains(g));
                }
            }
            if ctx.intent_of(x1.insert(h)).contains(m) {
                assert forall|g: usize| #[trigger] x.insert(h).contains(g) && g < ctx.n_objects()
                    implies ctx.incident(g, m) by {
                    assert(x1.insert(h).contains(g));
                }
            }
        }
        assert(ctx.intent_of(x.insert(h)) =~= ctx.intent_of(x1.insert(h)));
    }
    assert(candidates(ctx, x) =~= candidates(ctx, x1));
    assert forall|g: usize| #[trigger] upper_neighbor_generators(ctx, x).contains(g)
        <==> upper_neighbor_generators(ctx, x1).contains(g) by {
        if candidates(ctx, x).contains(g) {
            lemma_hull_facts(ctx, x1, g, g);
            assert(is_top_generator(ctx, x, g) == is_top_generator(ctx, x1, g)) by {
                assert(neighbor_hull(ctx, x, g) == neighbor_hull(ctx, x1, g));
                assert forall|h: usize| #[trigger] neighbor_hull(ctx, x, g).contains(h)
                    implies (!x.contains(h) <==> !x1.contains(h)) by {}
            }
            assert(is_minimal_hull(ctx, x, g) == is_minimal_hull(ctx, x1, g)) by {
                assert forall|h: usize| #[trigger] candidates(ctx, x).contains(h)
                    implies neighbor_hull(ctx, x, h) == neighbor_hull(ctx, x1, h) by {}
            }
        }
    }
    assert(upper_neighbor_generators(ctx, x) =~= upper_neighbor_generators(ctx, x1));
}

/// Each upper neighbour has exactly one generator: for every minimal hull
/// `(X ∪ {g})''` some generator gives the same hull, two generators with the
/// same hull are the same object, and every generator's hull is minimal.
pub proof fn lemma_one_generator_per_upper_neighbor<T>(ctx: &FormalContext<T>, x: Set<usize>)
    requires
        ctx.wf(),
        x.subset_of(below(ctx.n_objects() as int)),
        ctx.n_objects() <= usize::MAX,
    ensures
        forall|g: usize| candidates(ctx, x).contains(g) && #[trigger] is_minimal_hull(ctx, x, g)
            ==> exists|k: usize| upper_neighbor_generators(ctx, x).contains(k)
                && neighbor_hull(ctx, x, k) == neighbor_hull(ctx, x, g),
        forall|g1: usize, g2: usize| #[trigger] upper_neighbor_generators(ctx, x).contains(g1)
            && #[trigger] upper_neighbor_generators(ctx, x).contains(g2)
            && neighbor_hull(ctx, x, g1) == neighbor_hull(ctx, x, g2) ==> g1 == g2,
        forall|g: usize| #[trigger] upper_neighbor_generators(ctx, x).contains(g) ==> is_minimal_hull(ctx, x, g),
{
    let n = ctx.n_objects() as int;
    assert forall|g: usize| candidates(ctx, x).contains(g) && #[trigger] is_minimal_hull(ctx, x, g)
        implies exists|k: usize| upper_neighbor_generators(ctx, x).contains(k)
            && neighbor_hull(ctx, x, k) == neighbor_hull(ctx, x, g) by {
        let u = neighbor_hull(ctx, x, g);
        lemma_hull_facts(ctx, x, g, g);
        let fresh = u.difference(x);
        assert(fresh.contains(g));
        lemma_max_exists(fresh, n as nat);
        let top = choose|t: usize| fresh.contains(t) && forall|h: usize| #[trigger] fresh.contains(h) ==> h <= t;
        lemma_hull_facts(ctx, x, g, top);
        assert(candidates(ctx, x).contains(top));
        assert(neighbor_hull(ctx, x, top) == u);
        assert(is_minimal_hull(ctx, x, top));
        assert(is_top_generator(ctx, x, top)) by {
            assert forall|h: usize| #[trigger] neighbor_hull(ctx, x, top).contains(h) && !x.contains(h) implies h <= top by {
                assert(fresh.contains(h));
            }
        }
        assert(upper_neighbor_generators(ctx, x).contains(top));
    }
    assert forall|g1: usize, g2: usize| #[trigger] upper_neighbor_generators(ctx, x).contains(g1)
        && #[trigger] upper_neighbor_generators(ctx, x).contains(g2)
        && neighbor_hull(ctx, x, g1) == neighbor_hull(ctx, x, g2) implies g1 == g2 by {
        lemma_hull_facts(ctx, x, g1, g1);
        lemma_hull_facts(ctx, x, g2, g2);
        assert(neighbor_hull(ctx, x, g2).contains(g1) && !x.contains(g1));
        assert(neighbor_hull(ctx, x, g1).contains(g2) && !x.contains(g2));
    }
}

/// The canonical generators of the upper neighbours of the concept with
/// extent `input`: for each upper neighbour `(input ∪ {g})''` (a minimal
/// extent generated by one more object), its largest object outside `input`.
/// Objects are examined in ascending order; `g` is dropped when its hull
/// still holds another candidate.
pub fn index_upper_neighbor<T>(input: &BitSet, context: &FormalContext<T>) -> (r: BitSet)
    requires
        context.wf(),
    ensures
        members(r) == upper_neighbor_generators(context, members(*input)),
{
    let ghost x = members(*input);
    let n = context.objects.len();
    let ghost x1 = x.intersect(below(n as int));
    proof {
        lemma_restrict(context, x);
    }
    // objects not in the current extent
    let all = range_set(n);
    let diff_set = difference(&all, input);
    let mut output = bs_clone(&diff_set);
    let order = bs_to_vec(&diff_set);
    proof {
        assert(members(diff_set) == candidates(context, x1));
        assert(members(output) =~= working_set(context, x1, if order@.len() > 0 { order@[0] as int } else { n as int })) by {
            assert forall|m: usize| members(output).contains(m) implies
                (m >= (if order@.len() > 0 { order@[0] as int } else { n as int })) by {
                assert(order@.contains(m));
                let s = choose|s: int| 0 <= s < order@.len() && order@[s] == m;
                if s > 0 {
                    assert(order@[0] < order@[s]);
                }
            }
        }
    }
    let mut i: usize = 0;
    while i < order.len()
        invariant
            context.wf(),
            n == context.n_objects(),
            x == members(*input),
            x1 == x.intersect(below(n as int)),
            forall|h: usize| #[trigger] neighbor_hull(context, x, h) == neighbor_hull(context, x1, h),
            forall|s: int, t: int| 0 <= s < t < order@.len() ==> order@[s] < order@[t],
            forall|m: usize| order@.contains(m) <==> candidates(context, x1).contains(m),
            i <= order@.len(),
            members(output) == working_set(context, x1, if i < order@.len() { order@[i as int] as int } else { n as int }),
        decreases order@.len() - i,
    {
        let m = order[i];
        proof {
            assert(order@.contains(m));
            lemma_decision(context, x1, m);
        }
        let set_m = singleton(m);
        let hull_input_m = context.index_object_hull(&union(input, &set_m));
        let hull_input_m_and_output = intersection(&hull_input_m, &output);
        proof {
            assert(x.union(set![m]) =~= x.insert(m));
            assert(members(hull_input_m) == neighbor_hull(context, x, m));
            assert(members(hull_input_m) == neighbor_hull(context, x1, m));
        }
        // m is dropped when its hull holds another candidate
        if !bs_eq(&hull_input_m_and_output, &set_m) {
            bs_difference_with(&mut output, &set_m);
        }
        i = i + 1;
        proof {
            let t = if i < order@.len() { order@[i as int] as int } else { n as int };
            assert forall|g: usize| candidates(context, x1).contains(g) implies (g > m <==> g >= t) by {
                assert(order@.contains(g));
                let s = choose|s: int| 0 <= s < order@.len() && order@[s] == g;
                if g > m {
                    if s < i {
                        if s < i - 1 {
                            assert(order@[s] < order@[i - 1]);
                        }
                    }
                    if i < order@.len() && s > i {
                        assert(order@[i as int] < order@[s]);
                    }
                } else if i < order@.len() {
                    assert(order@[i - 1] < order@[i as int]);
                }
            }
            assert(members(output) =~= working_set(context, x1, t));
        }
    }
    proof {
        assert(members(output) =~= upper_neighbor_generators(context, x1));
    }
    output
}

} // verus!
