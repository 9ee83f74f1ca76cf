//! Formal contexts: a set of objects, a set of attributes and the incidence
//! relation between them, with the two derivation operators and their hulls.

use vstd::prelude::*;
use bit_set::BitSet;
use crate::bitset::{members, below, bs_new, bs_clone, bs_contains, bs_insert, bs_is_subset, bs_intersect_with, range_set, intersection};

verus! {

/// A formal context `(G, M, I)`. Objects and attributes are referred to by
/// their index; `incidence[g]` holds the attributes of object `g`.
pub struct FormalContext<T> {
    pub objects: Vec<T>,
    pub attributes: Vec<T>,
    pub incidence: Vec<BitSet>,
}

impl<T> FormalContext<T> {
    /// Number of objects `|G|`.
    pub open spec fn n_objects(&self) -> nat {
        self.objects@.len()
    }

    /// Number of attributes `|M|`.
    pub open spec fn n_attributes(&self) -> nat {
        self.attributes@.len()
    }

    /// The attributes recorded for object `g`.
    pub open spec fn row(&self, g: int) -> Set<usize> {
        members(self.incidence@[g])
    }

    /// Well-formedness: one incidence row per object, and every row holds
    /// attribute indices only.
    pub open spec fn wf(&self) -> bool {
        &&& self.incidence@.len() == self.objects@.len()
        &&& forall|g: int| 0 <= g < self.incidence@.len() ==> self.row(g).subset_of(below(self.attributes@.len() as int))
    }

    /// `g I m`: object `g` has attribute `m`.
    pub open spec fn incident(&self, g: usize, m: usize) -> bool {
        &&& g < self.n_objects()
        &&& m < self.n_attributes()
        &&& self.row(g as int).contains(m)
    }

    /// The derivation `A'` of an attribute set: the objects having every
    /// attribute of `A`.
    pub open spec fn extent_of(&self, a: Set<usize>) -> Set<usize> {
        Set::new(|g: usize| g < self.n_objects() && forall|m: usize| #[trigger] a.contains(m) ==> self.incident(g, m))
    }

    /// The derivation `B'` of an object set: the attributes shared by every
    /// object of `B`.
    pub open spec fn intent_of(&self, b: Set<usize>) -> Set<usize> {
        Set::new(|m: usize| m < self.n_attributes() && forall|g: usize| #[trigger] b.contains(g) && g < self.n_objects() ==> self.incident(g, m))
    }

    /// The attribute hull `A''`.
    pub open spec fn attribute_hull(&self, a: Set<usize>) -> Set<usize> {
        self.intent_of(self.extent_of(a))
    }

    /// The object hull `B''`.
    pub open spec fn object_hull(&self, b: Set<usize>) -> Set<usize> {
        self.extent_of(self.intent_of(b))
    }

    /// `A` is a concept intent: it equals its own hull (so `A ⊆ M`).
    pub open spec fn is_intent(&self, a: Set<usize>) -> bool {
        self.attribute_hull(a) == a
    }

    /// `(B, A)` is a formal concept.
    pub open spec fn is_concept(&self, extent: Set<usize>, intent: Set<usize>) -> bool {
        &&& self.extent_of(intent) == extent
        &&& self.intent_of(extent) == intent
    }

    /// An empty context.
    pub fn new() -> (r: Self)
        ensures
            r.wf(),
            r.objects@ == Seq::<T>::empty(),
            r.attributes@ == Seq::<T>::empty(),
    {
        FormalContext { objects: Vec::new(), attributes: Vec::new(), incidence: Vec::new() }
    }

    /// Adds an attribute with the given extent; objects of `extent` that the
    /// context does not hold are ignored.
    pub fn add_attribute(&mut self, attribute: T, extent: &BitSet)
        requires
            old(self).wf(),
            old(self).attributes@.len() < usize::MAX,
        ensures
            final(self).wf(),
            final(self).objects@ == old(self).objects@,
            final(self).attributes@ == old(self).attributes@.push(attribute),
            forall|g: usize, m: usize| #[trigger] final(self).incident(g, m) <==> (
                old(self).incident(g, m) || (m == old(self).n_attributes() && g < old(self).n_objects()
                    && members(*extent).contains(g))),
    {
        let m = self.attributes.len();
        let n = self.incidence.len();
        let mut rows: Vec<BitSet> = Vec::new();
        let mut g: usize = 0;
        while g < n
            invariant
                n == self.incidence@.len(),
                *self == *old(self),
                m == self.attributes@.len(),
                m < usize::MAX,
                g <= n,
                rows@.len() == g,
                forall|h: int| 0 <= h < g ==> members(#[trigger] rows@[h]) == if members(*extent).contains(h as usize) {
                    self.row(h).insert(m) } else { self.row(h) },
            decreases n - g,
        {
            let mut row = bs_clone(&self.incidence[g]);
            if bs_contains(extent, g) {
                bs_insert(&mut row, m);
            }
            rows.push(row);
            g = g + 1;
        }
        self.incidence = rows;
        self.attributes.push(attribute);
        proof {
            assert forall|h: int| 0 <= h < self.incidence@.len() implies self.row(h).subset_of(below(self.attributes@.len() as int)) by {
                assert(old(self).row(h).subset_of(below(m as int)));
            }
            assert forall|g: usize, mm: usize| #[trigger] self.incident(g, mm) <==> (
                old(self).incident(g, mm) || (mm == old(self).n_attributes() && g < old(self).n_objects()
                    && members(*extent).contains(g))) by {
                if g < n {
                    assert(old(self).row(g as int).subset_of(below(m as int)));
                }
            }
        }
    }

    /// Adds an object with the given intent; attributes of `intent` that the
    /// context does not hold are ignored.
    pub fn add_object(&mut self, object: T, intent: &BitSet)
        requires
            old(self).wf(),
        ensures
            final(self).wf(),
            final(self).attributes@ == old(self).attributes@,
            final(self).objects@ == old(self).objects@.push(object),
            forall|g: usize, m: usize| #[trigger] final(self).incident(g, m) <==> (
                old(self).incident(g, m) || (g == old(self).n_objects() && m < old(self).n_attributes()
                    && members(*intent).contains(m))),
    {
        let all = range_set(self.attributes.len());
        let row = intersection(intent, &all);
        self.incidence.push(row);
        self.objects.push(object);
        proof {
            let n = old(self).n_objects() as int;
            assert(self.row(n) == members(*intent).intersect(below(self.n_attributes() as int)));
            assert forall|h: int| 0 <= h < self.incidence@.len() implies self.row(h).subset_of(below(self.attributes@.len() as int)) by {
                if h < n {
                    assert(self.row(h) == old(self).row(h));
                }
            }
            assert forall|g: usize, mm: usize| #[trigger] self.incident(g, mm) <==> (
                old(self).incident(g, mm) || (g == old(self).n_objects() && mm < old(self).n_attributes()
                    && members(*intent).contains(mm))) by {
                if g < n {
                    assert(self.row(g as int) == old(self).row(g as int));
                }
            }
        }
    }

    /// The extent `A'` of an attribute set.
    pub fn index_extent(&self, attributes: &BitSet) -> (r: BitSet)
        requires
            self.wf(),
        ensures
            members(r) == self.extent_of(members(*attributes)),
    {
        let mut r = bs_new();
        let n = self.incidence.len();
        let mut g: usize = 0;
        while g < n
            invariant
                self.wf(),
                n == self.incidence@.len(),
                g <= n,
                members(r) == self.extent_of(members(*attributes)).intersect(below(g as int)),
            decreases n - g,
        {
            let holds = bs_is_subset(attributes, &self.incidence[g]);
            proof {
                assert(holds == (forall|m: usize| #[trigger] members(*attributes).contains(m) ==> self.incident(g, m))) by {
                    if holds {
                        assert forall|m: usize| #[trigger] members(*attributes).contains(m) implies self.incident(g, m) by {
                            assert(self.row(g as int).contains(m));
                            assert(self.row(g as int).subset_of(below(self.attributes@.len() as int)));
                        }
                    }
                }
            }
            if holds {
                bs_insert(&mut r, g);
            }
            g = g + 1;
            assert(members(r) =~= self.extent_of(members(*attributes)).intersect(below(g as int)));
        }
        assert(members(r) =~= self.extent_of(members(*attributes)));
        r
    }

    /// The intent `B'` of an object set.
    pub fn index_intent(&self, objects: &BitSet) -> (r: BitSet)
        requires
            self.wf(),
        ensures
            members(r) == self.intent_of(members(*objects)),
    {
        let mut r = range_set(self.attributes.len());
        let n = self.incidence.len();
        let mut g: usize = 0;
        while g < n
            invariant
                self.wf(),
                n == self.incidence@.len(),
                g <= n,
                members(r) == Set::new(|m: usize| m < self.n_attributes() && forall|h: usize|
                    #[trigger] members(*objects).contains(h) && h < g ==> self.incident(h, m)),
            decreases n - g,
        {
            if bs_contains(objects, g) {
                bs_intersect_with(&mut r, &self.incidence[g]);
            }
            g = g + 1;
            assert(members(r) =~= Set::new(|m: usize| m < self.n_attributes() && forall|h: usize|
                    #[trigger] members(*objects).contains(h) && h < g ==> self.incident(h, m)));
        }
        assert(members(r) =~= self.intent_of(members(*objects)));
        r
    }

    /// The attribute hull `A''`.
    pub fn index_attribute_hull(&self, attributes: &BitSet) -> (r: BitSet)
        requires
            self.wf(),
        ensures
            members(r) == self.attribute_hull(members(*attributes)),
    {
        let objects = self.index_extent(attributes);
        self.index_intent(&objects)
    }

    /// The object hull `B''`.
    pub fn index_object_hull(&self, objects: &BitSet) -> (r: BitSet)
        requires
            self.wf(),
        ensures
            members(r) == self.object_hull(members(*objects)),
    {
        let attributes = self.index_intent(objects);
        self.index_extent(&attributes)
    }

    // -----------------------------------------------------------------------
    // The laws of the two derivations.

    /// The derivations form a Galois connection: for `A ⊆ M` and `B ⊆ G`,
    /// `B ⊆ A'` exactly when `A ⊆ B'`.
    pub proof fn lemma_galois_connection(&self, a: Set<usize>, b: Set<usize>)
        requires
            a.subset_of(below(self.n_attributes() as int)),
            b.subset_of(below(self.n_objects() as int)),
        ensures
            b.subset_of(self.extent_of(a)) <==> a.subset_of(self.intent_of(b)),
    {
        if b.subset_of(self.extent_of(a)) {
            assert forall|m: usize| a.contains(m) implies self.intent_of(b).contains(m) by {
                assert forall|g: usize| #[trigger] b.contains(g) && g < self.n_objects() implies self.incident(g, m) by {
                    assert(self.extent_of(a).contains(g));
                }
            }
        }
        if a.subset_of(self.intent_of(b)) {
            assert forall|g: usize| b.contains(g) implies self.extent_of(a).contains(g) by {
                assert forall|m: usize| #[trigger] a.contains(m) implies self.incident(g, m) by {
                    assert(self.intent_of(b).contains(m));
                }
            }
        }
    }

    /// The extent derivation reverses inclusion.
    pub proof fn lemma_extent_antitone(&self, a1: Set<usize>, a2: Set<usize>)
        requires
            a1.subset_of(a2),
        ensures
            self.extent_of(a2).subset_of(self.extent_of(a1)),
    {
    }

    /// The intent derivation reverses inclusion.
    pub proof fn lemma_intent_antitone(&self, b1: Set<usize>, b2: Set<usize>)
        requires
            b1.subset_of(b2),
        ensures
            self.intent_of(b2).subset_of(self.intent_of(b1)),
    {
    }

    /// The attribute hull is a closure operator on the subsets of `M`: it
    /// stays within `M`, is extensive, monotone and idempotent.
    pub proof fn lemma_attribute_hull_is_closure(&self, a: Set<usize>, a2: Set<usize>)
        requires
            a.subset_of(below(self.n_attributes() as int)),
            a.subset_of(a2),
        ensures
            self.attribute_hull(a).subset_of(below(self.n_attributes() as int)),
            a.subset_of(self.attribute_hull(a)),
            self.attribute_hull(a).subset_of(self.attribute_hull(a2)),
            self.attribute_hull(self.attribute_hull(a)) == self.attribute_hull(a),
    {
        self.lemma_hull_extensive(a);
        self.lemma_extent_antitone(a, a2);
        self.lemma_intent_antitone(self.extent_of(a2), self.extent_of(a));
        self.lemma_extent_closed(a);
    }

    /// The object hull is a closure operator on the subsets of `G`: it stays
    /// within `G`, is extensive, monotone and idempotent.
    pub proof fn lemma_object_hull_is_closure(&self, b: Set<usize>, b2: Set<usize>)
        requires
            b.subset_of(below(self.n_objects() as int)),
            b.subset_of(b2),
        ensures
            self.object_hull(b).subset_of(below(self.n_objects() as int)),
            b.subset_of(self.object_hull(b)),
            self.object_hull(b).subset_of(self.object_hull(b2)),
            self.object_hull(self.object_hull(b)) == self.object_hull(b),
    {
        assert forall|g: usize| b.contains(g) implies self.object_hull(b).contains(g) by {
            assert forall|m: usize| #[trigger] self.intent_of(b).contains(m) implies self.incident(g, m) by {}
        }
        self.lemma_intent_antitone(b, b2);
        self.lemma_extent_antitone(self.intent_of(b2), self.intent_of(b));
        self.lemma_intent_closed(b);
    }

    /// `A ⊆ A''` for `A ⊆ M`.
    proof fn lemma_hull_extensive(&self, a: Set<usize>)
        requires
            a.subset_of(below(self.n_attributes() as int)),
        ensures
            a.subset_of(self.attribute_hull(a)),
    {
        assert forall|m: usize| a.contains(m) implies self.attribute_hull(a).contains(m) by {
            assert forall|g: usize| #[trigger] self.extent_of(a).contains(g) && g < self.n_objects() implies self.incident(g, m) by {}
        }
    }

    /// Every extent is closed: `A''' = A'` for `A ⊆ M`.
    pub proof fn lemma_extent_closed(&self, a: Set<usize>)
        requires
            a.subset_of(below(self.n_attributes() as int)),
        ensures
            self.extent_of(self.intent_of(self.extent_of(a))) == self.extent_of(a),
    {
        self.lemma_hull_extensive(a);
        self.lemma_extent_antitone(a, self.attribute_hull(a));
        assert forall|g: usize| self.extent_of(a).contains(g) implies self.extent_of(self.attribute_hull(a)).contains(g) by {
            assert forall|m: usize| #[trigger] self.attribute_hull(a).contains(m) implies self.incident(g, m) by {}
        }
        assert(self.extent_of(self.intent_of(self.extent_of(a))) =~= self.extent_of(a));
    }

    /// Every intent is closed: `B''' = B'` for `B ⊆ G`.
    pub proof fn lemma_intent_closed(&self, b: Set<usize>)
        requires
            b.subset_of(below(self.n_objects() as int)),
        ensures
            self.intent_of(self.extent_of(self.intent_of(b))) == self.intent_of(b),
    {
        assert forall|g: usize| b.contains(g) implies self.object_hull(b).contains(g) by {
            assert forall|m: usize| #[trigger] self.intent_of(b).contains(m) implies self.incident(g, m) by {}
        }
        self.lemma_intent_antitone(b, self.object_hull(b));
        assert forall|m: usize| self.intent_of(b).contains(m) implies self.intent_of(self.object_hull(b)).contains(m) by {
            assert forall|g: usize| #[trigger] self.object_hull(b).contains(g) && g < self.n_objects() implies self.incident(g, m) by {}
        }
        assert(self.intent_of(self.extent_of(self.intent_of(b))) =~= self.intent_of(b));
    }

    /// For `A ⊆ M`, `(A', A'')` is a formal concept and `A''` is an intent.
    pub proof fn lemma_hull_gives_concept(&self, a: Set<usize>)
        requires
            a.subset_of(below(self.n_attributes() as int)),
        ensures
            self.is_concept(self.extent_of(a), self.attribute_hull(a)),
            self.is_intent(self.attribute_hull(a)),
    {
        self.lemma_extent_closed(a);
        self.lemma_attribute_hull_is_closure(a, a);
    }

    /// Closing a hull together with more attributes gives the hull of the
    /// union: `(X'' ∪ Z)'' = (X ∪ Z)''` for `X, Z ⊆ M`.
    pub proof fn lemma_hull_absorbs(&self, x: Set<usize>, z: Set<usize>)
        requires
            x.subset_of(below(self.n_attributes() as int)),
            z.subset_of(below(self.n_attributes() as int)),
        ensures
            self.attribute_hull(self.attribute_hull(x).union(z)) == self.attribute_hull(x.union(z)),
    {
        let m = below(self.n_attributes() as int);
        let hx = self.attribute_hull(x);
        self.lemma_attribute_hull_is_closure(x, x.union(z));
        self.lemma_attribute_hull_is_closure(x.union(z), hx.union(z));
        self.lemma_attribute_hull_is_closure(hx.union(z), self.attribute_hull(x.union(z)));
        assert(self.attribute_hull(self.attribute_hull(x).union(z)) =~= self.attribute_hull(x.union(z)));
    }

    /// Adding objects keeps every intent an intent: if `larger` has the same
    /// attributes, and the objects of `self` keep their rows in it, each
    /// intent of `self` is an intent of `larger`.
    pub proof fn lemma_new_objects_keep_intents(&self, larger: &FormalContext<T>, a: Set<usize>)
        requires
            larger.n_attributes() == self.n_attributes(),
            larger.n_objects() >= self.n_objects(),
            forall|g: usize, m: usize| g < self.n_objects() ==> (#[trigger] larger.incident(g, m) <==> self.incident(g, m)),
            self.is_intent(a),
            a.subset_of(below(self.n_attributes() as int)),
        ensures
            larger.is_intent(a),
    {
        larger.lemma_attribute_hull_is_closure(a, a);
        assert forall|m: usize| larger.attribute_hull(a).contains(m) implies a.contains(m) by {
            assert forall|g: usize| #[trigger] self.extent_of(a).contains(g) && g < self.n_objects()
                implies self.incident(g, m) by {
                assert(larger.extent_of(a).contains(g)) by {
                    assert forall|k: usize| #[trigger] a.contains(k) implies larger.incident(g, k) by {
                        assert(self.incident(g, k));
                    }
                }
                assert(larger.incident(g, m));
            }
            assert(self.intent_of(self.extent_of(a)).contains(m));
        }
        assert(larger.attribute_hull(a) =~= a);
    }
}

} // verus!
