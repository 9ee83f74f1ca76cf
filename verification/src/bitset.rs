//! The `bit_set` crate's `BitSet`, as seen by the verified code.
//!
//! A `BitSet` is modelled by the set of `usize` values it holds
//! (`members`). Each method of `BitSet` that the library calls has a small
//! trusted wrapper below whose contract states, over `members`, what the
//! crate's source does. Verified helpers built from those wrappers follow.

use vstd::prelude::*;
use bit_set::BitSet;

verus! {

#[verifier::external_type_specification]
#[verifier::external_body]
#[verifier::reject_recursive_types(B)]
pub struct ExBitSet<B>(bit_set::BitSet<B>);

/// The set of values held by a `BitSet`.
pub uninterp spec fn members(s: BitSet) -> Set<usize>;

/// The integers below `n`, as a set of `usize`.
pub open spec fn below(n: int) -> Set<usize> {
    Set::new(|i: usize| i < n)
}

/// `BitSet::new`: the result holds nothing.
#[verifier::external_body]
pub(crate) fn bs_new() -> (r: BitSet)
    ensures
        members(r) == Set::<usize>::empty(),
{
    BitSet::new()
}

/// `BitSet::contains`: true exactly when `v` is held.
#[verifier::external_body]
pub(crate) fn bs_contains(s: &BitSet, v: usize) -> (r: bool)
    ensures
        r == members(*s).contains(v),
{
    s.contains(v)
}

/// `BitSet::insert`: adds `v`; the result tells whether it was absent.
/// The crate grows its bit vector to `v + 1` bits, which overflows for
/// `usize::MAX`, hence the precondition.
#[verifier::external_body]
pub(crate) fn bs_insert(s: &mut BitSet, v: usize) -> (r: bool)
    requires
        v < usize::MAX,
    ensures
        members(*final(s)) == members(*old(s)).insert(v),
        r == !members(*old(s)).contains(v),
{
    s.insert(v)
}

/// `BitSet::remove`: takes `v` out; the result tells whether it was held.
#[verifier::external_body]
pub(crate) fn bs_remove(s: &mut BitSet, v: usize) -> (r: bool)
    ensures
        members(*final(s)) == members(*old(s)).remove(v),
        r == members(*old(s)).contains(v),
{
    s.remove(v)
}

/// `Clone::clone` for `BitSet`: clones the bit vector, so the copy holds the
/// same values.
#[verifier::external_body]
pub(crate) fn bs_clone(s: &BitSet) -> (r: BitSet)
    ensures
        members(r) == members(*s),
{
    s.clone()
}

/// `BitSet::union_with`: in-place union.
#[verifier::external_body]
pub(crate) fn bs_union_with(s: &mut BitSet, other: &BitSet)
    ensures
        members(*final(s)) == members(*old(s)).union(members(*other)),
{
    s.union_with(other)
}

/// `BitSet::intersect_with`: in-place intersection.
#[verifier::external_body]
pub(crate) fn bs_intersect_with(s: &mut BitSet, other: &BitSet)
    ensures
        members(*final(s)) == members(*old(s)).intersect(members(*other)),
{
    s.intersect_with(other)
}

/// `BitSet::difference_with`: in-place difference.
#[verifier::external_body]
pub(crate) fn bs_difference_with(s: &mut BitSet, other: &BitSet)
    ensures
        members(*final(s)) == members(*old(s)).difference(members(*other)),
{
    s.difference_with(other)
}

/// `BitSet::is_subset`: true exactly when every value of `s` is in `other`.
#[verifier::external_body]
pub(crate) fn bs_is_subset(s: &BitSet, other: &BitSet) -> (r: bool)
    ensures
        r == members(*s).subset_of(members(*other)),
{
    s.is_subset(other)
}

/// `PartialEq::eq` for `BitSet`: the crate compares the two ascending
/// iterations, so the result tells whether both hold the same values.
#[verifier::external_body]
pub(crate) fn bs_eq(s: &BitSet, other: &BitSet) -> (r: bool)
    ensures
        r == (members(*s) == members(*other)),
{
    s == other
}

/// `BitSet::len`: the number of values held.
#[verifier::external_body]
pub(crate) fn bs_len(s: &BitSet) -> (r: usize)
    ensures
        r as nat == members(*s).len(),
{
    s.len()
}

/// `BitSet::iter`, collected: the crate walks the blocks from the first and
/// each block from its lowest bit, so the values come in strictly ascending
/// order, each held value once.
#[verifier::external_body]
pub(crate) fn bs_to_vec(s: &BitSet) -> (r: Vec<usize>)
    ensures
        forall|i: int, j: int| 0 <= i < j < r@.len() ==> r@[i] < r@[j],
        forall|x: usize| r@.contains(x) <==> members(*s).contains(x),
{
    s.iter().collect()
}

/// `BitSet::difference` followed by one `next`: the iteration is ascending,
/// so the result is the least value of `s` that `other` lacks, or `None`
/// when there is none.
#[verifier::external_body]
pub(crate) fn bs_first_of_difference(s: &BitSet, other: &BitSet) -> (r: Option<usize>)
    ensures
        r is None <==> members(*s).subset_of(members(*other)),
        r matches Some(x) ==> {
            &&& members(*s).contains(x)
            &&& !members(*other).contains(x)
            &&& forall|y: usize| members(*s).contains(y) && !members(*other).contains(y) ==> x <= y
        },
{
    s.difference(other).next()
}


/// `{0, ..., n-1}` is finite and has `n` elements.
pub proof fn lemma_below_len(n: nat)
    requires
        n <= usize::MAX + 1,
    ensures
        below(n as int).finite(),
        below(n as int).len() == n,
    decreases n,
{
    if n == 0 {
        assert(below(0) =~= Set::<usize>::empty());
    } else {
        lemma_below_len((n - 1) as nat);
        assert(below(n as int) =~= below(n - 1).insert((n - 1) as usize));
    }
}

/// A set of integers below `n` is finite and has at most `n` elements.
pub proof fn lemma_subset_below_len(s: Set<usize>, n: nat)
    requires
        n <= usize::MAX + 1,
        s.subset_of(below(n as int)),
    ensures
        s.finite(),
        s.len() <= n,
{
    lemma_below_len(n);
    vstd::set_lib::lemma_len_subset(s, below(n as int));
}

// ---------------------------------------------------------------------------
// Verified helpers.

/// The set `{0, ..., n - 1}`.
pub fn range_set(n: usize) -> (r: BitSet)
    ensures
        members(r) == below(n as int),
{
    let mut s = bs_new();
    let mut i: usize = 0;
    while i < n
        invariant
            i <= n,
            members(s) == below(i as int),
        decreases n - i,
    {
        bs_insert(&mut s, i);
        i = i + 1;
        assert(members(s) =~= below(i as int));
    }
    s
}

/// `a ∩ b` as a new set.
pub fn intersection(a: &BitSet, b: &BitSet) -> (r: BitSet)
    ensures
        members(r) == members(*a).intersect(members(*b)),
{
    let mut r = bs_clone(a);
    bs_intersect_with(&mut r, b);
    r
}

/// `a ∪ b` as a new set.
pub fn union(a: &BitSet, b: &BitSet) -> (r: BitSet)
    ensures
        members(r) == members(*a).union(members(*b)),
{
    let mut r = bs_clone(a);
    bs_union_with(&mut r, b);
    r
}

/// `a \ b` as a new set.
pub fn difference(a: &BitSet, b: &BitSet) -> (r: BitSet)
    ensures
        members(r) == members(*a).difference(members(*b)),
{
    let mut r = bs_clone(a);
    bs_difference_with(&mut r, b);
    r
}

/// The one-element set `{v}`.
pub fn singleton(v: usize) -> (r: BitSet)
    requires
        v < usize::MAX,
    ensures
        members(r) == set![v],
{
    let mut r = bs_new();
    bs_insert(&mut r, v);
    assert(members(r) =~= set![v]);
    r
}

} // verus!
