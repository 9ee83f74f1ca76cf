//! Next Closure concept enumeration: the intents of a context in lectic order.

use vstd::prelude::*;
use bit_set::BitSet;
use crate::bitset::{members, below, bs_clone, bs_contains, bs_insert, bs_remove, bs_new, bs_first_of_difference};
use crate::context::FormalContext;
use crate::lectic::{lectic_lt, lectic_lt_at, lemma_subset_lectic, lemma_lectic_asymmetric,
    lemma_lectic_transitive, lemma_rank_lectic, lemma_rank_bound, rank, pow2};

verus! {

/// Closing `(A ∩ {0..j-1}) ∪ {j}` adds no index below `j`: Next Closure
/// accepts `j` as the position of the next intent after `A`.
pub open spec fn accepts_at<T>(context: &FormalContext<T>, a: Set<usize>, j: usize) -> bool {
    let b = a.intersect(below(j as int)).insert(j);
    context.attribute_hull(b).intersect(below(j as int)).subset_of(a)
}

/// `b` is the lectically least intent after `a`.
pub open spec fn is_next_intent<T>(context: &FormalContext<T>, a: Set<usize>, b: Set<usize>) -> bool {
    &&& context.is_intent(b)
    &&& lectic_lt(a, b)
    &&& forall|c: Set<usize>| #[trigger] context.is_intent(c) && lectic_lt(a, c) ==> c == b || lectic_lt(b, c)
}

/// If some intent `C` lies after `A` with first difference at `j`, then Next
/// Closure accepts `j`, and the closure made there is contained in `C`.
proof fn lemma_accepts_below_intent<T>(context: &FormalContext<T>, a: Set<usize>, c: Set<usize>, j: usize)
    requires
        context.is_intent(c),
        lectic_lt_at(a, c, j),
    ensures
        accepts_at(context, a, j),
        context.attribute_hull(a.intersect(below(j as int)).insert(j)).subset_of(c),
{
    let n = context.n_attributes() as int;
    let x = a.intersect(below(j as int)).insert(j);
    assert(c.subset_of(below(n)));
    assert(x.subset_of(c));
    context.lemma_attribute_hull_is_closure(x, c);
}

/// The lectically next concept after the set `a`, or `None` when no intent
/// comes after `a`.
fn next_concept<T>(context: &FormalContext<T>, a: &BitSet) -> (r: Option<(BitSet, BitSet)>)
    requires
        context.wf(),
        members(*a).subset_of(below(context.n_attributes() as int)),
    ensures
        match r {
            Some((g, b)) => is_next_intent(context, members(*a), members(b))
                && members(g) == context.extent_of(members(b)),
            None => forall|c: Set<usize>| #[trigger] context.is_intent(c) ==> !lectic_lt(members(*a), c),
        },
{
    let ghost sa = members(*a);
    let n = context.attributes.len();
    let mut a_new = bs_clone(a);
    let mut i = n;
    while i > 0
        invariant
            context.wf(),
            n == context.n_attributes(),
            sa == members(*a),
            sa.subset_of(below(n as int)),
            i <= n,
            members(a_new) == sa.intersect(below(i as int)),
            forall|j: usize| i <= j < n && !sa.contains(j) ==> !accepts_at(context, sa, j),
        decreases i,
    {
        i = i - 1;
        if bs_contains(a, i) {
            bs_remove(&mut a_new, i);
            assert(members(a_new) =~= sa.intersect(below(i as int)));
        } else {
            assert(members(a_new) =~= sa.intersect(below(i as int)));
            let mut b = bs_clone(&a_new);
            bs_insert(&mut b, i);
            let gs = context.index_extent(&b);
            let b_closure = context.index_intent(&gs);
            let ghost x = members(b);
            proof {
                assert(x.subset_of(below(n as int)));
                context.lemma_attribute_hull_is_closure(x, x);
                context.lemma_extent_closed(x);
            }
            let first = bs_first_of_difference(&b_closure, &a_new);
            let accepted = match first {
                Some(min_diff) => min_diff >= i,
                None => false,
            };
            proof {
                assert(members(b_closure).contains(i));
                assert(accepted == accepts_at(context, sa, i)) by {
                    if accepted {
                        assert forall|k: usize| members(b_closure).intersect(below(i as int)).contains(k) implies sa.contains(k) by {
                            if !members(a_new).contains(k) {
                                assert(first->0 <= k);
                            }
                        }
                    }
                }
            }
            if accepted {
                proof {
                    let sb = members(b_closure);
                    assert(lectic_lt_at(sa, sb, i)) by {
                        assert forall|k: usize| k < i implies (#[trigger] sa.contains(k) <==> sb.contains(k)) by {
                            if sa.contains(k) {
                                assert(x.contains(k));
                            } else {
                                assert(!sb.intersect(below(i as int)).contains(k));
                            }
                        }
                    }
                    assert forall|c: Set<usize>| #[trigger] context.is_intent(c) && lectic_lt(sa, c) implies c == sb || lectic_lt(sb, c) by {
                        let j = choose|j: usize| lectic_lt_at(sa, c, j);
                        lemma_accepts_below_intent(context, sa, c, j);
                        assert(c.subset_of(below(n as int)));
                        if j < i {
                            assert(lectic_lt_at(sb, c, j)) by {
                                assert forall|k: usize| k < j implies (#[trigger] sb.contains(k) <==> c.contains(k)) by {
                                    assert(sb.contains(k) == sa.contains(k));
                                }
                                assert(sb.contains(j) == sa.contains(j));
                            }
                        } else if j == i {
                            if sb != c {
                                lemma_subset_lectic(sb, c, n as nat);
                            }
                        }
                    }
                }
                return Some((gs, b_closure));
            }
        }
    }
    proof {
        assert forall|c: Set<usize>| #[trigger] context.is_intent(c) implies !lectic_lt(sa, c) by {
            if lectic_lt(sa, c) {
                let j = choose|j: usize| lectic_lt_at(sa, c, j);
                lemma_accepts_below_intent(context, sa, c, j);
                assert(c.subset_of(below(n as int)));
            }
        }
    }
    None
}

/// The intent held in a listed concept.
pub open spec fn intent_at(r: Seq<(BitSet, BitSet)>, i: int) -> Set<usize> {
    members(r[i].1)
}

/// `r` lists the formal concepts of the context in lectic order: each
/// entry is a concept `(A', A)` with `A` an intent, the intents come in
/// strictly ascending lectic order, and every intent of the context appears.
pub open spec fn is_lectic_listing<T>(context: &FormalContext<T>, r: Seq<(BitSet, BitSet)>) -> bool {
    &&& forall|i: int| 0 <= i < r.len() ==> context.is_intent(#[trigger] intent_at(r, i))
        && members(r[i].0) == context.extent_of(intent_at(r, i))
    &&& forall|i: int, j: int| 0 <= i < j < r.len() ==> lectic_lt(intent_at(r, i), intent_at(r, j))
    &&& forall|c: Set<usize>| #[trigger] context.is_intent(c) ==> exists|i: int| 0 <= i < r.len() && intent_at(r, i) == c
}

/// All formal concepts of the context, listed by Next Closure: the intents
/// come in strictly ascending lectic order, every intent of the context
/// appears, and each extent is the derivation of its intent.
pub fn index_next_closure_concepts<T>(context: &FormalContext<T>) -> (r: Vec<(BitSet, BitSet)>)
    requires
        context.wf(),
    ensures
        is_lectic_listing(context, r@),
{
    let n = context.attributes.len();
    let empty = bs_new();
    let gs = context.index_extent(&empty);
    let ms = context.index_intent(&gs);
    proof {
        let e = Set::<usize>::empty();
        assert(e.subset_of(below(n as int)));
        context.lemma_hull_gives_concept(e);
        assert forall|c: Set<usize>| #[trigger] context.is_intent(c) && c != members(ms) implies lectic_lt(members(ms), c) by {
            assert(c.subset_of(below(n as int)));
            context.lemma_attribute_hull_is_closure(e, c);
            lemma_subset_lectic(members(ms), c, n as nat);
        }
    }
    let mut result: Vec<(BitSet, BitSet)> = Vec::new();
    let mut next: Option<(BitSet, BitSet)> = Some((gs, ms));
    loop
        invariant_except_break
            context.wf(),
            n == context.n_attributes(),
            forall|i: int| 0 <= i < result@.len() ==> context.is_intent(#[trigger] intent_at(result@, i))
                && members(result@[i].0) == context.extent_of(intent_at(result@, i)),
            forall|i: int, j: int| 0 <= i < j < result@.len() ==> lectic_lt(intent_at(result@, i), intent_at(result@, j)),
            match next {
                Some((g, m)) => {
                    &&& context.is_intent(members(m))
                    &&& members(g) == context.extent_of(members(m))
                    &&& forall|i: int| 0 <= i < result@.len() ==> lectic_lt(intent_at(result@, i), members(m))
                    &&& forall|c: Set<usize>| #[trigger] context.is_intent(c) && lectic_lt(c, members(m))
                        ==> exists|i: int| 0 <= i < result@.len() && intent_at(result@, i) == c
                    &&& forall|c: Set<usize>| #[trigger] context.is_intent(c) && c != members(m) && !lectic_lt(c, members(m))
                        ==> lectic_lt(members(m), c)
                },
                None => forall|c: Set<usize>| #[trigger] context.is_intent(c)
                    ==> exists|i: int| 0 <= i < result@.len() && intent_at(result@, i) == c,
            },
        ensures
            forall|i: int| 0 <= i < result@.len() ==> context.is_intent(#[trigger] intent_at(result@, i))
                && members(result@[i].0) == context.extent_of(intent_at(result@, i)),
            forall|i: int, j: int| 0 <= i < j < result@.len() ==> lectic_lt(intent_at(result@, i), intent_at(result@, j)),
            forall|c: Set<usize>| #[trigger] context.is_intent(c)
                ==> exists|i: int| 0 <= i < result@.len() && intent_at(result@, i) == c,
        decreases
            match next {
                Some((g, m)) => pow2(n as nat) - rank(members(m), n as nat),
                None => 0,
            },
    {
        match next {
            None => {
                break;
            },
            Some((g, m)) => {
                let ghost sm = members(m);
                let ghost old_result = result@;
                let following = next_concept(context, &m);
                result.push((g, m));
                proof {
                    assert(intent_at(result@, old_result.len() as int) == sm);
                    assert forall|i: int| 0 <= i < old_result.len() implies result@[i] == old_result[i]
                        && intent_at(result@, i) == intent_at(old_result, i) by {}
                    assert(sm.subset_of(below(n as int)));
                    lemma_rank_bound(sm, n as nat);
                    if following is Some {
                        {
                            let s2 = members((following->0).1);
                            assert(s2.subset_of(below(n as int)));
                            let k = choose|k: usize| lectic_lt_at(sm, s2, k);
                            assert(k < n);
                            lemma_rank_lectic(sm, s2, k, n as nat);
                            lemma_rank_bound(s2, n as nat);
                            assert forall|i: int| 0 <= i < result@.len() implies lectic_lt(intent_at(result@, i), s2) by {
                                if i < old_result.len() {
                                    assert(lectic_lt(intent_at(old_result, i), sm));
                                    lemma_lectic_transitive(intent_at(result@, i), sm, s2);
                                }
                            }
                            assert forall|c: Set<usize>| #[trigger] context.is_intent(c) && lectic_lt(c, s2)
                                implies exists|i: int| 0 <= i < result@.len() && intent_at(result@, i) == c by {
                                if c == sm {
                                    assert(intent_at(result@, old_result.len() as int) == c);
                                } else if lectic_lt(c, sm) {
                                    let i = choose|i: int| 0 <= i < old_result.len() && intent_at(old_result, i) == c;
                                    assert(intent_at(result@, i) == c);
                                } else {
                                    assert(lectic_lt(sm, c));
                                    if c != s2 {
                                        lemma_lectic_asymmetric(c, s2);
                                    }
                                    lemma_lectic_asymmetric(c, s2);
                                }
                            }
                            assert forall|c: Set<usize>| #[trigger] context.is_intent(c) && c != s2 && !lectic_lt(c, s2)
                                implies lectic_lt(s2, c) by {
                                if c == sm {
                                    lemma_lectic_asymmetric(sm, s2);
                                } else if lectic_lt(c, sm) {
                                    lemma_lectic_transitive(c, sm, s2);
                                } else {
                                    assert(lectic_lt(sm, c));
                                }
                            }
                        }
                    } else {
                        {
                            assert forall|c: Set<usize>| #[trigger] context.is_intent(c)
                                implies exists|i: int| 0 <= i < result@.len() && intent_at(result@, i) == c by {
                                if c == sm {
                                    assert(intent_at(result@, old_result.len() as int) == c);
                                } else if lectic_lt(c, sm) {
                                    let i = choose|i: int| 0 <= i < old_result.len() && intent_at(old_result, i) == c;
                                    assert(intent_at(result@, i) == c);
                                }
                            }
                        }
                    }
                }
                next = following;
            },
        }
    }
    result
}

/// Handle for the Next Closure concept enumeration algorithm.
pub struct NextClosure;

impl NextClosure {
    /// All formal concepts of the context, in lectic order of their intents.
    pub fn enumerate_concepts<T>(&self, context: &FormalContext<T>) -> (r: Vec<(BitSet, BitSet)>)
        requires
            context.wf(),
        ensures
            is_lectic_listing(context, r@),
    {
        index_next_closure_concepts(context)
    }
}

} // verus!
