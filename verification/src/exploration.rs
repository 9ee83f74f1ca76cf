//! Attribute exploration: the decisions of the interactive exploration of a
//! context's implications. An expert answers each question; the exploration
//! itself is a state machine whose steps are verified here, while the
//! dialogue with the expert is driven from outside.
//!
//! The implications found so far (`basis`) are read as a closure operator in
//! the way of the canonical basis: an implication `P -> C` applies to a set
//! `Y` when `P` is a proper subset of `Y`.

use vstd::prelude::*;
use bit_set::BitSet;
use crate::bitset::{members, below, bs_clone, bs_contains, bs_eq, bs_insert, bs_is_subset,
    bs_remove, bs_union_with, bs_first_of_difference, lemma_subset_below_len};
use crate::context::FormalContext;
use crate::bitset::{difference, bs_new, bs_to_vec};
use crate::lectic::{lectic_lt, lectic_lt_at, lemma_subset_lectic, lemma_lectic_total, lemma_lectic_asymmetric,
    lemma_lectic_transitive, lemma_lectic_irreflexive, lemma_rank_lectic, lemma_rank_bound, rank, pow2};

verus! {

/// The premise of the `i`-th implication.
pub open spec fn premise(basis: Seq<(BitSet, BitSet)>, i: int) -> Set<usize> {
    members(basis[i].0)
}

/// The conclusion of the `i`-th implication.
pub open spec fn conclusion(basis: Seq<(BitSet, BitSet)>, i: int) -> Set<usize> {
    members(basis[i].1)
}

/// Every premise and conclusion lies within `{0, ..., n-1}`.
pub open spec fn basis_within(basis: Seq<(BitSet, BitSet)>, n: int) -> bool {
    forall|i: int| #![trigger premise(basis, i)] 0 <= i < basis.len() ==> premise(basis, i).subset_of(below(n))
        && conclusion(basis, i).subset_of(below(n))
}

/// `y` respects the implications: each one whose premise is a proper subset
/// of `y` has its conclusion in `y`.
pub open spec fn respects(basis: Seq<(BitSet, BitSet)>, y: Set<usize>) -> bool {
    forall|i: int| 0 <= i < basis.len() && #[trigger] premise(basis, i).subset_of(y) && premise(basis, i) != y
        ==> conclusion(basis, i).subset_of(y)
}

/// `y` is the least set that contains `x` and respects the implications.
pub open spec fn is_implication_hull(basis: Seq<(BitSet, BitSet)>, x: Set<usize>, y: Set<usize>) -> bool {
    &&& x.subset_of(y)
    &&& respects(basis, y)
    &&& forall|z: Set<usize>| #[trigger] respects(basis, z) && x.subset_of(z) ==> y.subset_of(z)
}

/// The least set containing `x` that respects the implications, found by
/// applying them until none adds anything.
pub fn implication_hull(basis: &Vec<(BitSet, BitSet)>, x: &BitSet, n: usize) -> (r: BitSet)
    requires
        basis_within(basis@, n as int),
        members(*x).subset_of(below(n as int)),
    ensures
        is_implication_hull(basis@, members(*x), members(r)),
        members(r).subset_of(below(n as int)),
{
    let ghost sx = members(*x);
    let mut y = bs_clone(x);
    loop
        invariant
            basis_within(basis@, n as int),
            sx == members(*x),
            sx.subset_of(members(y)),
            members(y).subset_of(below(n as int)),
            forall|z: Set<usize>| #[trigger] respects(basis@, z) && sx.subset_of(z) ==> members(y).subset_of(z),
        ensures
            is_implication_hull(basis@, sx, members(y)),
            members(y).subset_of(below(n as int)),
        decreases n - members(y).len(),
    {
        proof {
            lemma_subset_below_len(members(y), n as nat);
        }
        let ghost y0 = members(y);
        let mut changed = false;
        let mut i: usize = 0;
        while i < basis.len()
            invariant
                basis_within(basis@, n as int),
                sx == members(*x),
                sx.subset_of(members(y)),
                y0.subset_of(members(y)),
                members(y).subset_of(below(n as int)),
                y0.finite(),
                y0.len() <= n,
                forall|z: Set<usize>| #[trigger] respects(basis@, z) && sx.subset_of(z) ==> members(y).subset_of(z),
                i <= basis.len(),
                !changed ==> members(y) == y0,
                changed ==> members(y).len() > y0.len(),
                !changed ==> forall|j: int| 0 <= j < i && #[trigger] premise(basis@, j).subset_of(members(y))
                    && premise(basis@, j) != members(y) ==> conclusion(basis@, j).subset_of(members(y)),
            decreases basis.len() - i,
        {
            let p = &basis[i].0;
            let c = &basis[i].1;
            if bs_is_subset(p, &y) && !bs_eq(p, &y) && !bs_is_subset(c, &y) {
                let ghost before = members(y);
                bs_union_with(&mut y, c);
                proof {
                    assert(premise(basis@, i as int) == members(*p));
                    assert(members(*c).subset_of(below(n as int)));
                    assert(conclusion(basis@, i as int) == members(*c));
                    assert forall|z: Set<usize>| #[trigger] respects(basis@, z) && sx.subset_of(z)
                        implies members(y).subset_of(z) by {
                        assert(before.subset_of(z));
                        assert(premise(basis@, i as int).subset_of(z));
                        if premise(basis@, i as int) == z {
                            assert(before =~= members(*p));
                        }
                    }
                    lemma_subset_below_len(members(y), n as nat);
                    let w = choose|w: usize| members(*c).contains(w) && !before.contains(w);
                    assert(before.subset_of(members(y).remove(w)));
                    vstd::set_lib::lemma_len_subset(before, members(y).remove(w));
                    lemma_subset_below_len(before, n as nat);
                }
                changed = true;
            } else {
                proof {
                    assert(premise(basis@, i as int) == members(*p));
                    assert(conclusion(basis@, i as int) == members(*c));
                }
            }
            i = i + 1;
        }
        if !changed {
            break;
        }
        proof {
            lemma_subset_below_len(members(y), n as nat);
        }
    }
    y
}

/// `y` is a subset of `{0, ..., n-1}` that respects the implications.
pub open spec fn is_preclosed(basis: Seq<(BitSet, BitSet)>, n: int, y: Set<usize>) -> bool {
    &&& y.subset_of(below(n))
    &&& respects(basis, y)
}

/// `b` is the lectically least set after `a` that respects the implications.
pub open spec fn is_next_preclosed(basis: Seq<(BitSet, BitSet)>, n: int, a: Set<usize>, b: Set<usize>) -> bool {
    &&& is_preclosed(basis, n, b)
    &&& lectic_lt(a, b)
    &&& forall|c: Set<usize>| #[trigger] is_preclosed(basis, n, c) && lectic_lt(a, c) ==> c == b || lectic_lt(b, c)
}

/// Closing `(A ∩ {0..j-1}) ∪ {j}` under the implications adds no index
/// below `j`.
pub open spec fn pre_accepts_at(basis: Seq<(BitSet, BitSet)>, a: Set<usize>, j: usize) -> bool {
    forall|y: Set<usize>| #[trigger] is_implication_hull(basis, a.intersect(below(j as int)).insert(j), y)
        ==> y.intersect(below(j as int)).subset_of(a)
}

/// A respecting set `C` after `A`, first differing at `j`, contains the
/// closure made at `j`; so the search accepts `j`.
proof fn lemma_pre_accepts_below(basis: Seq<(BitSet, BitSet)>, a: Set<usize>, c: Set<usize>, j: usize)
    requires
        respects(basis, c),
        lectic_lt_at(a, c, j),
    ensures
        pre_accepts_at(basis, a, j),
        forall|y: Set<usize>| #[trigger] is_implication_hull(basis, a.intersect(below(j as int)).insert(j), y)
            ==> y.subset_of(c),
{
    let x = a.intersect(below(j as int)).insert(j);
    assert(x.subset_of(c));
}

/// The lectically next set after `a` that respects the implications of
/// `basis`, over the attributes of the context; `None` when there is none.
pub fn index_next_preclosure<T>(context: &FormalContext<T>, basis: &Vec<(BitSet, BitSet)>, a: &BitSet)
    -> (r: Option<BitSet>)
    requires
        basis_within(basis@, context.n_attributes() as int),
        members(*a).subset_of(below(context.n_attributes() as int)),
    ensures
        match r {
            Some(b) => is_next_preclosed(basis@, context.n_attributes() as int, members(*a), members(b)),
            None => forall|c: Set<usize>| #[trigger] is_preclosed(basis@, context.n_attributes() as int, c)
                ==> !lectic_lt(members(*a), c),
        },
{
    let ghost sa = members(*a);
    let n = context.attributes.len();
    let mut a_new = bs_clone(a);
    let mut i = n;
    while i > 0
        invariant
            n == context.n_attributes(),
            basis_within(basis@, n as int),
            sa == members(*a),
            sa.subset_of(below(n as int)),
            i <= n,
            members(a_new) == sa.intersect(below(i as int)),
            forall|j: usize| i <= j < n && !sa.contains(j) ==> !pre_accepts_at(basis@, sa, j),
        decreases i,
    {
        i = i - 1;
        if bs_contains(a, i) {
            bs_remove(&mut a_new, i);
            assert(members(a_new) =~= sa.intersect(below(i as int)));
        } else {
            assert(members(a_new) =~= sa.intersect(below(i as int)));
            let mut b = bs_clone(&a_new);
            bs_insert(&mut b, i);
            let ghost x = members(b);
            assert(x == sa.intersect(below(i as int)).insert(i));
            let b_closure = implication_hull(basis, &b, n);
            let first = bs_first_of_difference(&b_closure, &a_new);
            let accepted = match first {
                Some(min_diff) => min_diff >= i,
                None => false,
            };
            proof {
                let sb = members(b_closure);
                assert(sb.contains(i));
                if accepted {
                    assert forall|y: Set<usize>| #[trigger] is_implication_hull(basis@, x, y)
                        implies y.intersect(below(i as int)).subset_of(sa) by {
                        assert(y.subset_of(sb) && sb.subset_of(y));
                        assert(y =~= sb);
                        assert forall|k: usize| sb.intersect(below(i as int)).contains(k) implies sa.contains(k) by {
                            if !members(a_new).contains(k) {
                                assert(first->0 <= k);
                            }
                        }
                    }
                    assert(pre_accepts_at(basis@, sa, i));
                } else {
                    if pre_accepts_at(basis@, sa, i) {
                        assert(is_implication_hull(basis@, x, sb));
                        assert(sb.intersect(below(i as int)).subset_of(sa));
                        assert(!sb.subset_of(members(a_new))) by {
                            assert(!members(a_new).contains(i));
                        }
                        let k = first->0;
                        assert(sb.contains(k) && !members(a_new).contains(k) && k < i);
                        assert(sa.contains(k));
                    }
                }
            }
            if accepted {
                proof {
                    let sb = members(b_closure);
                    assert(lectic_lt_at(sa, sb, i)) by {
                        assert forall|k: usize| k < i implies (#[trigger] sa.contains(k) <==> sb.contains(k)) by {
                            if sa.contains(k) {
                                assert(x.contains(k));
                            } else {
                                assert(!sb.intersect(below(i as int)).contains(k));
                            }
                        }
                    }
                    assert forall|c: Set<usize>| #[trigger] is_preclosed(basis@, n as int, c) && lectic_lt(sa, c)
                        implies c == sb || lectic_lt(sb, c) by {
                        let j = choose|j: usize| lectic_lt_at(sa, c, j);
                        lemma_pre_accepts_below(basis@, sa, c, j);
                        assert(j < n);
                        if j < i {
                            assert(lectic_lt_at(sb, c, j)) by {
                                assert forall|k: usize| k < j implies (#[trigger] sb.contains(k) <==> c.contains(k)) by {
                                    assert(sb.contains(k) == sa.contains(k));
                                }
                                assert(sb.contains(j) == sa.contains(j));
                            }
                        } else if j == i {
                            assert(is_implication_hull(basis@, x, sb));
                            if sb != c {
                                lemma_subset_lectic(sb, c, n as nat);
                            }
                        }
                    }
                }
                return Some(b_closure);
            }
        }
    }
    proof {
        assert forall|c: Set<usize>| #[trigger] is_preclosed(basis@, n as int, c) implies !lectic_lt(sa, c) by {
            if lectic_lt(sa, c) {
                let j = choose|j: usize| lectic_lt_at(sa, c, j);
                lemma_pre_accepts_below(basis@, sa, c, j);
                assert(j < n);
            }
        }
    }
    None
}

/// `d` has been dealt with: it is an intent of the context, or the premise
/// of an implication in the basis.
pub open spec fn settled<T>(context: &FormalContext<T>, basis: Seq<(BitSet, BitSet)>, d: Set<usize>) -> bool {
    context.is_intent(d) || exists|i: int| 0 <= i < basis.len() && premise(basis, i) == d
}

/// `d` equals `c` or comes lectically after it.
pub open spec fn at_or_after(c: Set<usize>, d: Set<usize>) -> bool {
    d == c || lectic_lt(c, d)
}

/// The implication `p -> c` holds in the context: every object with all of
/// `p` has all of `c`.
pub open spec fn implication_holds<T>(context: &FormalContext<T>, p: Set<usize>, c: Set<usize>) -> bool {
    c.subset_of(context.attribute_hull(p))
}

/// Each premise lies strictly inside its conclusion.
pub open spec fn strictly_growing(basis: Seq<(BitSet, BitSet)>) -> bool {
    forall|i: int| #![trigger premise(basis, i)] 0 <= i < basis.len()
        ==> premise(basis, i).subset_of(conclusion(basis, i)) && premise(basis, i) != conclusion(basis, i)
}

/// `y` is closed under the implications: each premise it contains brings
/// its conclusion.
pub open spec fn closed_under(basis: Seq<(BitSet, BitSet)>, y: Set<usize>) -> bool {
    forall|i: int| 0 <= i < basis.len() && #[trigger] premise(basis, i).subset_of(y) ==> conclusion(basis, i).subset_of(y)
}

/// `p -> q` follows from the implications: every set of attributes (below
/// `n`) that contains `p` and is closed under them contains `q`.
pub open spec fn follows(basis: Seq<(BitSet, BitSet)>, n: int, p: Set<usize>, q: Set<usize>) -> bool {
    forall|y: Set<usize>| #[trigger] closed_under(basis, y) && y.subset_of(below(n)) && p.subset_of(y) ==> q.subset_of(y)
}

/// The state of an attribute exploration: the implications accepted so far,
/// and the set the exploration stands at (`None` once it has passed the
/// last one).
pub struct Exploration {
    pub basis: Vec<(BitSet, BitSet)>,
    pub candidate: Option<BitSet>,
}

impl Exploration {
    /// The exploration's invariant over the context it explores: the
    /// implications lie within the attributes, the candidate respects them,
    /// and every respecting set lectically before the candidate (every one,
    /// once the exploration is over) is an intent or an accepted premise.
    pub open spec fn wf<T>(&self, context: &FormalContext<T>) -> bool {
        let n = context.n_attributes() as int;
        &&& context.wf()
        &&& basis_within(self.basis@, n)
        &&& strictly_growing(self.basis@)
        &&& match self.candidate {
            Some(c) => {
                &&& is_preclosed(self.basis@, n, members(c))
                &&& forall|d: Set<usize>| #[trigger] is_preclosed(self.basis@, n, d) && lectic_lt(d, members(c))
                    ==> settled(context, self.basis@, d)
            },
            None => forall|d: Set<usize>| #[trigger] is_preclosed(self.basis@, n, d)
                ==> settled(context, self.basis@, d),
        }
    }

    /// A fresh exploration: no implications yet, standing at the empty set.
    pub fn new<T>(context: &FormalContext<T>) -> (r: Exploration)
        requires
            context.wf(),
        ensures
            r.wf(context),
            r.basis@ == Seq::<(BitSet, BitSet)>::empty(),
            r.candidate matches Some(c) && members(c) == Set::<usize>::empty(),
    {
        let r = Exploration { basis: Vec::new(), candidate: Some(bs_new()) };
        proof {
            let e = Set::<usize>::empty();
            assert forall|d: Set<usize>| #[trigger] is_preclosed(r.basis@, context.n_attributes() as int, d)
                && lectic_lt(d, e) implies settled(context, r.basis@, d) by {
                let i = choose|i: usize| lectic_lt_at(d, e, i);
            }
        }
        r
    }

    /// Moves past every candidate that is already an intent and returns the
    /// next question, `(premise, conclusion)`: is `premise -> conclusion`
    /// valid? The premise is the new candidate, the lectically first
    /// respecting set from the old one on that is not an intent; the
    /// conclusion is what its hull adds. `None` when no such set is left,
    /// and then the exploration is over.
    pub fn next_question<T>(&mut self, context: &FormalContext<T>) -> (r: Option<(BitSet, BitSet)>)
        requires
            old(self).wf(context),
        ensures
            final(self).wf(context),
            final(self).basis@ == old(self).basis@,
            r is None <==> final(self).candidate is None,
            r matches Some((p, q)) ==> {
                &&& final(self).candidate matches Some(c) && members(c) == members(p)
                &&& !context.is_intent(members(p))
                &&& members(q) == context.attribute_hull(members(p)).difference(members(p))
            },
            old(self).candidate matches Some(c0) ==> (r matches Some((p, q)) ==> {
                &&& at_or_after(members(c0), members(p))
                &&& forall|d: Set<usize>| #[trigger] is_preclosed(old(self).basis@, context.n_attributes() as int, d)
                    && at_or_after(members(c0), d) && lectic_lt(d, members(p)) ==> context.is_intent(d)
            }),
            old(self).candidate matches Some(c0) ==> (r is None ==>
                forall|d: Set<usize>| #[trigger] is_preclosed(old(self).basis@, context.n_attributes() as int, d)
                    && at_or_after(members(c0), d) ==> context.is_intent(d)),
            r is None ==> forall|d: Set<usize>| #[trigger] is_preclosed(final(self).basis@, context.n_attributes() as int, d)
                ==> settled(context, final(self).basis@, d),
    {
        let count = context.attributes.len();
        let ghost n = count as int;
        let ghost start = self.candidate;
        let ghost basis0 = self.basis@;
        loop
            invariant
                self.wf(context),
                n == context.n_attributes(),
                n <= usize::MAX,
                self.basis@ == basis0,
                start == old(self).candidate,
                basis0 == old(self).basis@,
                start is None ==> self.candidate is None,
                start matches Some(c0) ==> (self.candidate matches Some(c) ==> at_or_after(members(c0), members(c))),
                start matches Some(c0) ==> (self.candidate matches Some(c) ==>
                    forall|d: Set<usize>| #[trigger] is_preclosed(basis0, n, d) && at_or_after(members(c0), d)
                        && lectic_lt(d, members(c)) ==> context.is_intent(d)),
                start matches Some(c0) ==> (self.candidate is None ==>
                    forall|d: Set<usize>| #[trigger] is_preclosed(basis0, n, d) && at_or_after(members(c0), d)
                        ==> context.is_intent(d)),
            decreases
                match self.candidate {
                    Some(c) => pow2(n as nat) - rank(members(c), n as nat),
                    None => 0,
                },
        {
            let current = self.candidate.take();
            match current {
                None => {
                    return None;
                },
                Some(c) => {
                    let ghost sc = members(c);
                    let h = context.index_attribute_hull(&c);
                    if !bs_eq(&h, &c) {
                        let q = difference(&h, &c);
                        let p = bs_clone(&c);
                        self.candidate = Some(c);
                        return Some((p, q));
                    }
                    let following = index_next_preclosure(context, &self.basis, &c);
                    let ghost next = following;
                    self.candidate = following;
                    proof {
                        lemma_rank_bound(sc, n as nat);
                        assert(context.is_intent(sc));
                        match next {
                            Some(b) => {
                                let sb = members(b);
                                let k = choose|k: usize| lectic_lt_at(sc, sb, k);
                                assert(sb.contains(k));
                                lemma_rank_lectic(sc, sb, k, n as nat);
                                lemma_rank_bound(sb, n as nat);
                                assert forall|d: Set<usize>| #[trigger] is_preclosed(basis0, n, d) && lectic_lt(d, sb)
                                    implies settled(context, basis0, d) && d != sb && (d == sc || lectic_lt(d, sc)) by {
                                    if d == sb {
                                        lemma_lectic_irreflexive(d);
                                    }
                                    if d != sc && !lectic_lt(d, sc) {
                                        lemma_lectic_total(d, sc, n as nat);
                                        lemma_lectic_asymmetric(d, sb);
                                    }
                                }
                                if let Some(c0) = start {
                                    if sc != members(c0) {
                                        lemma_lectic_transitive(members(c0), sc, sb);
                                    }
                                }
                            },
                            None => {
                                assert forall|d: Set<usize>| #[trigger] is_preclosed(basis0, n, d)
                                    implies settled(context, basis0, d) && (d == sc || lectic_lt(d, sc)) by {
                                    if d != sc {
                                        lemma_lectic_total(d, sc, n as nat);
                                    }
                                }
                            },
                        }
                        if let Some(c0) = start {
                            assert forall|d: Set<usize>| #[trigger] is_preclosed(basis0, n, d) && at_or_after(members(c0), d)
                                && lectic_lt(d, sc) implies context.is_intent(d) by {}
                        }
                    }
                },
            }
        }
    }

    /// The expert accepts the pending question: `premise -> premise''`
    /// joins the basis, and the exploration moves to the lectically next set
    /// that respects the enlarged basis (`None` when there is none).
    pub fn accept<T>(&mut self, context: &FormalContext<T>)
        requires
            old(self).wf(context),
            old(self).candidate matches Some(c) && !context.is_intent(members(c)),
        ensures
            final(self).wf(context),
            final(self).basis@.len() == old(self).basis@.len() + 1,
            forall|i: int| 0 <= i < old(self).basis@.len() ==> #[trigger] final(self).basis@[i] == old(self).basis@[i],
            old(self).candidate matches Some(c) ==> {
                &&& premise(final(self).basis@, old(self).basis@.len() as int) == members(c)
                &&& conclusion(final(self).basis@, old(self).basis@.len() as int) == context.attribute_hull(members(c))
                &&& match final(self).candidate {
                    Some(b) => is_next_preclosed(final(self).basis@, context.n_attributes() as int, members(c), members(b)),
                    None => forall|d: Set<usize>| #[trigger] is_preclosed(final(self).basis@, context.n_attributes() as int, d)
                        ==> !lectic_lt(members(c), d),
                }
            },
    {
        let count = context.attributes.len();
        let ghost n = count as int;
        let ghost basis0 = self.basis@;
        let c = self.candidate.take().unwrap();
        let ghost sc = members(c);
        let h = context.index_attribute_hull(&c);
        let p = bs_clone(&c);
        self.basis.push((p, h));
        proof {
            context.lemma_attribute_hull_is_closure(sc, sc);
            let k = basis0.len() as int;
            assert(premise(self.basis@, k) == sc);
            assert(conclusion(self.basis@, k) == context.attribute_hull(sc));
            assert forall|i: int| 0 <= i < basis0.len() implies #[trigger] self.basis@[i] == basis0[i]
                && premise(self.basis@, i) == premise(basis0, i) && conclusion(self.basis@, i) == conclusion(basis0, i) by {}
            assert(strictly_growing(self.basis@)) by {
                assert forall|i: int| #![trigger premise(self.basis@, i)] 0 <= i < self.basis@.len()
                    implies premise(self.basis@, i).subset_of(conclusion(self.basis@, i))
                        && premise(self.basis@, i) != conclusion(self.basis@, i) by {
                    if i < k {
                        assert(premise(basis0, i).subset_of(conclusion(basis0, i)));
                    }
                }
            }
            assert(basis_within(self.basis@, n)) by {
                assert forall|i: int| #![trigger premise(self.basis@, i)] 0 <= i < self.basis@.len()
                    implies premise(self.basis@, i).subset_of(below(n)) && conclusion(self.basis@, i).subset_of(below(n)) by {
                    if i < k {
                        assert(premise(basis0, i).subset_of(below(n)));
                    }
                }
            }
        }
        let following = index_next_preclosure(context, &self.basis, &c);
        let ghost next = following;
        self.candidate = following;
        proof {
            let k = basis0.len() as int;
            let nb = self.basis@;
            // what respects the enlarged basis respects the old one, and what
            // was settled stays settled
            assert forall|d: Set<usize>| #[trigger] is_preclosed(nb, n, d) implies is_preclosed(basis0, n, d)
                && (settled(context, basis0, d) ==> settled(context, nb, d)) by {
                assert forall|i: int| 0 <= i < basis0.len() && #[trigger] premise(basis0, i).subset_of(d)
                    && premise(basis0, i) != d implies conclusion(basis0, i).subset_of(d) by {
                    assert(premise(nb, i) == premise(basis0, i));
                }
                if settled(context, basis0, d) && !context.is_intent(d) {
                    let i = choose|i: int| 0 <= i < basis0.len() && premise(basis0, i) == d;
                    assert(premise(nb, i) == d);
                }
            }
            assert(settled(context, nb, sc)) by {
                assert(premise(nb, k) == sc);
            }
            match next {
                Some(b) => {
                    let sb = members(b);
                    assert forall|d: Set<usize>| #[trigger] is_preclosed(nb, n, d) && lectic_lt(d, sb)
                        implies settled(context, nb, d) by {
                        assert(is_preclosed(basis0, n, d));
                        if d != sc && !lectic_lt(d, sc) {
                            lemma_lectic_total(d, sc, n as nat);
                            if d == sb {
                                lemma_lectic_irreflexive(d);
                            }
                            lemma_lectic_asymmetric(d, sb);
                        }
                    }
                },
                None => {
                    assert forall|d: Set<usize>| #[trigger] is_preclosed(nb, n, d) implies settled(context, nb, d) by {
                        assert(is_preclosed(basis0, n, d));
                        if d != sc && !lectic_lt(d, sc) {
                            lemma_lectic_total(d, sc, n as nat);
                        }
                    }
                },
            }
        }
    }

    /// The expert rejects the pending question and names a counterexample:
    /// the object joins the context with the given attributes (those the
    /// context does not hold are ignored). The exploration stays where it
    /// is, so the question is asked again of the larger context.
    pub fn add_counterexample<T>(&self, context: &mut FormalContext<T>, object: T, intent: &BitSet)
        requires
            self.wf(&*old(context)),
        ensures
            self.wf(&*final(context)),
            final(context).attributes@ == old(context).attributes@,
            final(context).objects@ == old(context).objects@.push(object),
            forall|g: usize, m: usize| #[trigger] final(context).incident(g, m) <==> (
                old(context).incident(g, m) || (g == old(context).n_objects() && m < old(context).n_attributes()
                    && members(*intent).contains(m))),
            forall|i: int| 0 <= i < self.basis@.len()
                && #[trigger] implication_holds(&*old(context), premise(self.basis@, i), conclusion(self.basis@, i))
                && (premise(self.basis@, i).subset_of(members(*intent)) ==> conclusion(self.basis@, i).subset_of(members(*intent)))
                ==> implication_holds(&*final(context), premise(self.basis@, i), conclusion(self.basis@, i)),
    {
        let ghost before = *context;
        context.add_object(object, intent);
        proof {
            let n = context.n_attributes() as int;
            assert forall|g: usize, m: usize| g < before.n_objects() implies
                (#[trigger] context.incident(g, m) <==> before.incident(g, m)) by {}
            assert forall|d: Set<usize>| #[trigger] is_preclosed(self.basis@, n, d) && settled(&before, self.basis@, d)
                implies settled(&*context, self.basis@, d) by {
                if before.is_intent(d) {
                    before.lemma_new_objects_keep_intents(&*context, d);
                }
            }
            let g0 = before.n_objects() as usize;
            assert forall|i: int| 0 <= i < self.basis@.len()
                && #[trigger] implication_holds(&before, premise(self.basis@, i), conclusion(self.basis@, i))
                && (premise(self.basis@, i).subset_of(members(*intent)) ==> conclusion(self.basis@, i).subset_of(members(*intent)))
                implies implication_holds(&*context, premise(self.basis@, i), conclusion(self.basis@, i)) by {
                let pp = premise(self.basis@, i);
                let cc = conclusion(self.basis@, i);
                assert(pp.subset_of(below(n)) && cc.subset_of(below(n)));
                assert forall|m: usize| cc.contains(m) implies context.attribute_hull(pp).contains(m) by {
                    assert(before.attribute_hull(pp).contains(m));
                    assert forall|g: usize| #[trigger] context.extent_of(pp).contains(g) && g < context.n_objects()
                        implies context.incident(g, m) by {
                        if g < before.n_objects() {
                            assert forall|k: usize| #[trigger] pp.contains(k) implies before.incident(g, k) by {
                                assert(context.incident(g, k));
                            }
                            assert(before.extent_of(pp).contains(g));
                        } else {
                            assert(g == g0);
                            assert forall|k: usize| #[trigger] pp.contains(k) implies members(*intent).contains(k) by {
                                assert(context.incident(g, k));
                            }
                            assert(members(*intent).contains(m));
                        }
                    }
                }
            }
        }
    }

    /// Once the exploration is over, the basis is complete: every implication
    /// that holds in the context follows from the accepted implications.
    pub proof fn lemma_basis_complete<T>(&self, context: &FormalContext<T>, p: Set<usize>, q: Set<usize>)
        requires
            self.wf(context),
            self.candidate is None,
            p.subset_of(below(context.n_attributes() as int)),
            implication_holds(context, p, q),
        ensures
            follows(self.basis@, context.n_attributes() as int, p, q),
    {
        let n = context.n_attributes() as int;
        let b = self.basis@;
        assert forall|y: Set<usize>| #[trigger] closed_under(b, y) && y.subset_of(below(n)) && p.subset_of(y)
            implies q.subset_of(y) by {
            assert(respects(b, y));
            assert(is_preclosed(b, n, y));
            assert(settled(context, b, y));
            if !context.is_intent(y) {
                let i = choose|i: int| 0 <= i < b.len() && premise(b, i) == y;
                assert(premise(b, i).subset_of(y));
                assert(premise(b, i).subset_of(conclusion(b, i)) && premise(b, i) != conclusion(b, i));
                assert(conclusion(b, i) =~= y);
            }
            context.lemma_attribute_hull_is_closure(p, y);
        }
    }
}

/// `v` lists the values of `s` in strictly ascending order.
pub open spec fn lists_ascending(s: Set<usize>, v: Seq<usize>) -> bool {
    &&& forall|i: int, j: int| 0 <= i < j < v.len() ==> v[i] < v[j]
    &&& forall|x: usize| v.contains(x) <==> s.contains(x)
}

/// The names of the attributes in `set`, by ascending index.
pub fn attribute_names(context: &FormalContext<String>, set: &BitSet) -> (r: Vec<String>)
    requires
        members(*set).subset_of(below(context.n_attributes() as int)),
    ensures
        exists|v: Seq<usize>| lists_ascending(members(*set), v) && r@.len() == v.len()
            && forall|i: int| 0 <= i < v.len() ==> #[trigger] r@[i] == context.attributes@[v[i] as int],
{
    let v = bs_to_vec(set);
    let mut r: Vec<String> = Vec::new();
    let mut i: usize = 0;
    while i < v.len()
        invariant
            members(*set).subset_of(below(context.n_attributes() as int)),
            forall|x: usize| v@.contains(x) <==> members(*set).contains(x),
            i <= v.len(),
            r@.len() == i,
            forall|k: int| 0 <= k < i ==> #[trigger] r@[k] == context.attributes@[v@[k] as int],
        decreases v.len() - i,
    {
        let index = v[i];
        assert(v@.contains(index));
        let name = context.attributes[index].clone();
        r.push(name);
        i = i + 1;
    }
    assert(lists_ascending(members(*set), v@));
    r
}

/// `i` is the first attribute of the context named `name`.
pub open spec fn first_named(attributes: Seq<String>, name: Seq<char>, i: int) -> bool {
    &&& 0 <= i < attributes.len()
    &&& attributes[i]@ == name
    &&& forall|j: int| 0 <= j < i ==> #[trigger] attributes[j]@ != name
}

/// Some attribute of the context is named `name`.
pub open spec fn is_attribute_name(attributes: Seq<String>, name: Seq<char>) -> bool {
    exists|i: int| 0 <= i < attributes.len() && #[trigger] attributes[i]@ == name
}

/// The first attribute named `name`, if any.
fn find_attribute(context: &FormalContext<String>, name: &String) -> (r: Option<usize>)
    ensures
        match r {
            Some(i) => first_named(context.attributes@, name@, i as int),
            None => !is_attribute_name(context.attributes@, name@),
        },
{
    let mut i: usize = 0;
    while i < context.attributes.len()
        invariant
            i <= context.attributes@.len(),
            forall|j: int| 0 <= j < i ==> #[trigger] context.attributes@[j]@ != name@,
        decreases context.attributes@.len() - i,
    {
        if context.attributes[i] == *name {
            return Some(i);
        }
        i = i + 1;
    }
    None
}

/// The attributes that a list of names denotes, each name taken as the
/// first attribute of that name: `Ok` with their indices when every name is
/// known, else `Err` with the position in `names` of the first unknown name.
pub fn attributes_named(context: &FormalContext<String>, names: &Vec<String>) -> (r: Result<BitSet, usize>)
    ensures
        match r {
            Ok(s) => {
                &&& forall|k: int| 0 <= k < names@.len() ==> #[trigger] is_attribute_name(context.attributes@, names@[k]@)
                &&& forall|i: usize| members(s).contains(i) <==> exists|k: int| 0 <= k < names@.len()
                    && #[trigger] first_named(context.attributes@, names@[k]@, i as int)
            },
            Err(k) => {
                &&& k < names@.len()
                &&& !is_attribute_name(context.attributes@, names@[k as int]@)
                &&& forall|j: int| 0 <= j < k ==> #[trigger] is_attribute_name(context.attributes@, names@[j]@)
            },
        },
{
    let count = context.attributes.len();
    let mut s = bs_new();
    let mut k: usize = 0;
    while k < names.len()
        invariant
            count == context.attributes@.len(),
            k <= names@.len(),
            forall|j: int| 0 <= j < k ==> #[trigger] is_attribute_name(context.attributes@, names@[j]@),
            forall|i: usize| members(s).contains(i) <==> exists|j: int| 0 <= j < k
                && #[trigger] first_named(context.attributes@, names@[j]@, i as int),
        decreases names@.len() - k,
    {
        match find_attribute(context, &names[k]) {
            None => {
                return Err(k);
            },
            Some(i) => {
                let ghost before = members(s);
                bs_insert(&mut s, i);
                proof {
                    assert(context.attributes@[i as int]@ == names@[k as int]@);
                    assert forall|x: usize| members(s).contains(x) <==> exists|j: int| 0 <= j < k + 1
                        && #[trigger] first_named(context.attributes@, names@[j]@, x as int) by {
                        if x == i {
                            assert(first_named(context.attributes@, names@[k as int]@, x as int));
                        }
                        if exists|j: int| 0 <= j < k + 1 && #[trigger] first_named(context.attributes@, names@[j]@, x as int) {
                            let j = choose|j: int| 0 <= j < k + 1 && #[trigger] first_named(context.attributes@, names@[j]@, x as int);
                            if j == k {
                                assert(x == i) by {
                                    if x < i {
                                        assert(context.attributes@[x as int]@ != names@[k as int]@);
                                    } else if x > i {
                                        assert(context.attributes@[i as int]@ != names@[j]@);
                                    }
                                }
                            }
                        }
                    }
                }
            },
        }
        k = k + 1;
    }
    Ok(s)
}

} // verus!
