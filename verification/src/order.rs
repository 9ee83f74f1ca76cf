//! Strict orders on `{0, ..., n-1}` kept as transitive-closure tables: row
//! `u` of a table holds the nodes `v` with `u < v`.

use vstd::prelude::*;
use bit_set::BitSet;
use crate::bitset::{members, below, bs_new, bs_clone, bs_contains, bs_insert, bs_union_with};

verus! {

/// The rows of a table, as sets.
pub open spec fn rows(tc: Seq<BitSet>) -> Seq<Set<usize>> {
    Seq::new(tc.len(), |i: int| members(tc[i]))
}

/// `a < b` in the table `r`.
pub open spec fn rel(r: Seq<Set<usize>>, a: usize, b: usize) -> bool {
    a < r.len() && r[a as int].contains(b)
}

/// The table has `n` rows, each holding nodes below `n`.
pub open spec fn within(r: Seq<Set<usize>>, n: nat) -> bool {
    &&& r.len() == n
    &&& forall|i: int| 0 <= i < n ==> (#[trigger] r[i]).subset_of(below(n as int))
}

/// The relation is transitive.
pub open spec fn transitive(r: Seq<Set<usize>>) -> bool {
    forall|a: usize, b: usize, c: usize| #[trigger] rel(r, a, b) && #[trigger] rel(r, b, c) ==> rel(r, a, c)
}

/// The relation is irreflexive.
pub open spec fn irreflexive(r: Seq<Set<usize>>) -> bool {
    forall|a: usize| !#[trigger] rel(r, a, a)
}

/// A strict partial order on `{0, ..., n-1}`.
pub open spec fn strict_order(r: Seq<Set<usize>>, n: nat) -> bool {
    within(r, n) && transitive(r) && irreflexive(r)
}

/// Any two distinct nodes are comparable.
pub open spec fn total(r: Seq<Set<usize>>, n: nat) -> bool {
    forall|a: usize, b: usize| a < n && b < n && a != b ==> rel(r, a, b) || rel(r, b, a)
}

/// Every pair ordered by `base` is ordered the same way by `r`.
pub open spec fn extends(r: Seq<Set<usize>>, base: Seq<Set<usize>>) -> bool {
    forall|a: usize, b: usize| #[trigger] rel(base, a, b) ==> rel(r, a, b)
}

/// A linear extension of `base`: a strict total order containing it.
pub open spec fn linear_extension(r: Seq<Set<usize>>, base: Seq<Set<usize>>, n: nat) -> bool {
    strict_order(r, n) && total(r, n) && extends(r, base)
}

/// `a ≤ u` in the reflexive closure of the table.
pub open spec fn at_most(r: Seq<Set<usize>>, a: usize, u: usize) -> bool {
    a == u || rel(r, a, u)
}

/// The table after ordering `u < v`: every node at most `u` comes to lie
/// below `v` and below everything above `v`.
pub open spec fn with_edge(r: Seq<Set<usize>>, u: usize, v: usize) -> Seq<Set<usize>> {
    Seq::new(r.len(), |w: int| if w == u || r[w].contains(u) { r[w].union(r[v as int]).insert(v) } else { r[w] })
}

/// The relation of a table, as a set of pairs, lies in `big`.
pub open spec fn rel_within(r: Seq<Set<usize>>, big: Set<(usize, usize)>) -> bool {
    forall|a: usize, b: usize| #[trigger] rel(r, a, b) ==> big.contains((a, b))
}

/// A transitive relation given as a set of pairs.
pub open spec fn pairs_transitive(big: Set<(usize, usize)>) -> bool {
    forall|a: usize, b: usize, c: usize| #[trigger] big.contains((a, b)) && #[trigger] big.contains((b, c)) ==> big.contains((a, c))
}

/// The relation of `with_edge(r, u, v)`: the old pairs, and the pairs
/// `(a, b)` with `a ≤ u` and `v ≤ b`.
pub proof fn lemma_with_edge_rel(r: Seq<Set<usize>>, u: usize, v: usize, a: usize, b: usize)
    requires
        u < r.len(),
        v < r.len(),
        transitive(r),
    ensures
        rel(with_edge(r, u, v), a, b) <==> rel(r, a, b) || (at_most(r, a, u) && at_most(r, v, b)),
{
    if a < r.len() && (a == u || r[a as int].contains(u)) {
        if rel(r, a, b) || (at_most(r, a, u) && at_most(r, v, b)) {
        }
    }
}

/// Ordering `u < v` keeps a table transitive, and within any transitive
/// relation that holds the table and the pair `(u, v)`.
pub proof fn lemma_with_edge_transitive(r: Seq<Set<usize>>, u: usize, v: usize, n: nat)
    requires
        u < n,
        v < n,
        within(r, n),
        transitive(r),
    ensures
        within(with_edge(r, u, v), n),
        transitive(with_edge(r, u, v)),
        forall|big: Set<(usize, usize)>| pairs_transitive(big) && rel_within(r, big) && big.contains((u, v))
            ==> #[trigger] rel_within(with_edge(r, u, v), big),
{
    let r2 = with_edge(r, u, v);
    assert forall|i: int| 0 <= i < n implies (#[trigger] r2[i]).subset_of(below(n as int)) by {
        assert(r[i].subset_of(below(n as int)));
        assert(r[v as int].subset_of(below(n as int)));
    }
    assert forall|a: usize, b: usize, c: usize| #[trigger] rel(r2, a, b) && #[trigger] rel(r2, b, c) implies rel(r2, a, c) by {
        lemma_with_edge_rel(r, u, v, a, b);
        lemma_with_edge_rel(r, u, v, b, c);
        lemma_with_edge_rel(r, u, v, a, c);
        if rel(r, a, b) && at_most(r, b, u) {
            assert(at_most(r, a, u));
        }
        if at_most(r, v, b) && rel(r, b, c) {
            assert(at_most(r, v, c));
        }
    }
    assert forall|big: Set<(usize, usize)>| pairs_transitive(big) && rel_within(r, big) && big.contains((u, v))
        implies #[trigger] rel_within(r2, big) by {
        assert forall|a: usize, b: usize| #[trigger] rel(r2, a, b) implies big.contains((a, b)) by {
            lemma_with_edge_rel(r, u, v, a, b);
            if !rel(r, a, b) {
                if a != u {
                    assert(big.contains((a, u)));
                    assert(big.contains((a, v)));
                }
                if b != v {
                    assert(big.contains((v, b)));
                }
            }
        }
    }
}

/// Ordering an incomparable pair `u < v` of a strict partial order gives a
/// strict partial order that extends it.
pub proof fn lemma_with_edge_strict(r: Seq<Set<usize>>, u: usize, v: usize, n: nat)
    requires
        u < n,
        v < n,
        u != v,
        strict_order(r, n),
        !rel(r, v, u),
    ensures
        strict_order(with_edge(r, u, v), n),
        extends(with_edge(r, u, v), r),
        rel(with_edge(r, u, v), u, v),
{
    let r2 = with_edge(r, u, v);
    lemma_with_edge_transitive(r, u, v, n);
    assert forall|a: usize| !#[trigger] rel(r2, a, a) by {
        lemma_with_edge_rel(r, u, v, a, a);
        if at_most(r, a, u) && at_most(r, v, a) {
            if a == u {
                assert(rel(r, v, u));
            } else if a == v {
                assert(rel(r, v, u));
            } else {
                assert(rel(r, v, u));
            }
        }
    }
    assert forall|a: usize, b: usize| #[trigger] rel(r, a, b) implies rel(r2, a, b) by {
        lemma_with_edge_rel(r, u, v, a, b);
    }
    lemma_with_edge_rel(r, u, v, u, v);
}

/// A copy of a table.
pub fn clone_table(tc: &Vec<BitSet>) -> (r: Vec<BitSet>)
    ensures
        rows(r@) == rows(tc@),
{
    let mut r: Vec<BitSet> = Vec::new();
    let mut i: usize = 0;
    while i < tc.len()
        invariant
            i <= tc@.len(),
            r@.len() == i,
            forall|k: int| 0 <= k < i ==> members(#[trigger] r@[k]) == members(tc@[k]),
        decreases tc@.len() - i,
    {
        r.push(bs_clone(&tc[i]));
        i = i + 1;
    }
    assert(rows(r@) =~= rows(tc@));
    r
}

/// Adds `u < v` to the table (on a copy): `None` for a cycle, that is for
/// `u == v` or when `v < u` holds; unchanged when `u < v` already holds;
/// and otherwise the table of `with_edge`.
pub fn add_edge_logic(tc: &Vec<BitSet>, u: usize, v: usize) -> (r: Option<Vec<BitSet>>)
    requires
        u < tc@.len(),
        v < tc@.len(),
    ensures
        u == v ==> r is None,
        u != v && rel(rows(tc@), u, v) ==> (r matches Some(t) && rows(t@) == rows(tc@)),
        u != v && !rel(rows(tc@), u, v) && rel(rows(tc@), v, u) ==> r is None,
        u != v && !rel(rows(tc@), u, v) && !rel(rows(tc@), v, u) ==> (r matches Some(t) && rows(t@) == with_edge(rows(tc@), u, v)),
{
    if u == v {
        return None; // a node below itself
    }
    if bs_contains(&tc[u], v) {
        return Some(clone_table(tc)); // already ordered
    }
    if bs_contains(&tc[v], u) {
        return None; // cycle
    }
    let ghost old_rows = rows(tc@);
    let mut new_tc = clone_table(tc);
    assert(rows(new_tc@).len() == rows(tc@).len());
    let n = new_tc.len();
    let mut mask = bs_clone(&new_tc[v]);
    bs_insert(&mut mask, v);
    let mut w: usize = 0;
    while w < n
        invariant
            n == new_tc@.len(),
            n == old_rows.len(),
            u < n,
            v < n,
            w <= n,
            members(mask) == old_rows[v as int].insert(v),
            forall|k: int| 0 <= k < w ==> members(#[trigger] new_tc@[k]) == if old_rows[k].contains(u) {
                old_rows[k].union(old_rows[v as int]).insert(v) } else { old_rows[k] },
            forall|k: int| w <= k < n ==> members(#[trigger] new_tc@[k]) == old_rows[k],
        decreases n - w,
    {
        if bs_contains(&new_tc[w], u) {
            bs_union_with(&mut new_tc[w], &mask);
            proof {
                assert(members(new_tc@[w as int]) =~= old_rows[w as int].union(old_rows[v as int]).insert(v));
            }
        }
        w = w + 1;
    }
    bs_union_with(&mut new_tc[u], &mask);
    proof {
        assert(rows(new_tc@) =~= with_edge(old_rows, u, v)) by {
            assert forall|k: int| 0 <= k < n implies #[trigger] rows(new_tc@)[k] == with_edge(old_rows, u, v)[k] by {
                if k == u {
                    assert(members(new_tc@[k]) =~= with_edge(old_rows, u, v)[k]);
                }
            }
        }
    }
    Some(new_tc)
}

/// Some transitive relation holding the pairs `edges` is irreflexive: the
/// edges admit a strict partial order.
pub open spec fn acyclic(edges: Seq<(usize, usize)>) -> bool {
    exists|big: Set<(usize, usize)>| pairs_transitive(big)
        && (forall|e: int| 0 <= e < edges.len() ==> big.contains(#[trigger] edges[e]))
        && (forall|a: usize| !#[trigger] big.contains((a, a)))
}

/// The table is the transitive closure of `edges`: transitive, holding every
/// edge, and within every transitive relation that holds every edge.
pub open spec fn is_transitive_closure(r: Seq<Set<usize>>, edges: Seq<(usize, usize)>) -> bool {
    &&& transitive(r)
    &&& forall|e: int| 0 <= e < edges.len() ==> rel(r, (#[trigger] edges[e]).0, edges[e].1)
    &&& forall|big: Set<(usize, usize)>| pairs_transitive(big)
        && (forall|e: int| 0 <= e < edges.len() ==> big.contains(#[trigger] edges[e]))
        ==> #[trigger] rel_within(r, big)
}

/// Builds the transitive closure of the covering edges on `node_count`
/// nodes, or `None` when the edges close a cycle (a self-loop included):
/// exactly when they admit no strict partial order.
pub fn initialize_transitive_closure(node_count: usize, edges: &[(usize, usize)]) -> (r: Option<Vec<BitSet>>)
    requires
        forall|e: int| 0 <= e < edges@.len() ==> (#[trigger] edges@[e]).0 < node_count && edges@[e].1 < node_count,
    ensures
        r is None <==> !acyclic(edges@),
        r matches Some(tc) ==> within(rows(tc@), node_count as nat) && is_transitive_closure(rows(tc@), edges@),
{
    let mut tc: Vec<BitSet> = Vec::new();
    let mut i: usize = 0;
    while i < node_count
        invariant
            i <= node_count,
            tc@.len() == i,
            forall|k: int| 0 <= k < i ==> members(#[trigger] tc@[k]) == Set::<usize>::empty(),
        decreases node_count - i,
    {
        tc.push(bs_new());
        i = i + 1;
    }
    let ghost n = node_count as nat;
    proof {
        assert forall|i: int| 0 <= i < n implies (#[trigger] rows(tc@)[i]).subset_of(below(n as int)) by {}
    }
    let mut k: usize = 0;
    while k < edges.len()
        invariant
            n == node_count,
            forall|e: int| 0 <= e < edges@.len() ==> (#[trigger] edges@[e]).0 < node_count && edges@[e].1 < node_count,
            k <= edges@.len(),
            within(rows(tc@), n),
            transitive(rows(tc@)),
            irreflexive(rows(tc@)),
            forall|e: int| 0 <= e < k ==> rel(rows(tc@), (#[trigger] edges@[e]).0, edges@[e].1),
            forall|big: Set<(usize, usize)>| pairs_transitive(big)
                && (forall|e: int| 0 <= e < edges@.len() ==> big.contains(#[trigger] edges@[e]))
                ==> #[trigger] rel_within(rows(tc@), big),
        decreases edges@.len() - k,
    {
        let (u, v) = edges[k];
        let ghost r0 = rows(tc@);
        proof {
            assert(edges@[k as int] == (u, v));
        }
        match add_edge_logic(&tc, u, v) {
            Some(next) => {
                proof {
                    if !rel(r0, u, v) {
                        lemma_with_edge_transitive(r0, u, v, n);
                        lemma_with_edge_strict(r0, u, v, n);
                        lemma_with_edge_rel(r0, u, v, u, v);
                        assert forall|e: int| 0 <= e < k + 1 implies rel(rows(next@), (#[trigger] edges@[e]).0, edges@[e].1) by {
                            if e < k {
                                lemma_with_edge_rel(r0, u, v, edges@[e].0, edges@[e].1);
                            }
                        }
                        assert forall|big: Set<(usize, usize)>| pairs_transitive(big)
                            && (forall|e: int| 0 <= e < edges@.len() ==> big.contains(#[trigger] edges@[e]))
                            implies #[trigger] rel_within(rows(next@), big) by {
                            assert(big.contains(edges@[k as int]));
                            assert(rel_within(r0, big));
                        }
                    }
                }
                tc = next;
            },
            None => {
                proof {
                    assert forall|big: Set<(usize, usize)>| pairs_transitive(big)
                        && (forall|e: int| 0 <= e < edges@.len() ==> big.contains(#[trigger] edges@[e]))
                        implies exists|a: usize| #[trigger] big.contains((a, a)) by {
                        assert(big.contains(edges@[k as int]));
                        if u != v {
                            assert(rel_within(r0, big));
                            assert(big.contains((v, u)));
                        }
                        assert(big.contains((u, u)));
                    }
                }
                return None;
            },
        }
        k = k + 1;
    }
    proof {
        let r = rows(tc@);
        let big = Set::new(|p: (usize, usize)| rel(r, p.0, p.1));
        assert(pairs_transitive(big)) by {
            assert forall|x: usize, y: usize, z: usize| #[trigger] big.contains((x, y)) && #[trigger] big.contains((y, z))
                implies big.contains((x, z)) by {
                assert(rel(r, x, y) && rel(r, y, z));
            }
        }
        assert forall|e: int| 0 <= e < edges@.len() implies big.contains(#[trigger] edges@[e]) by {
            assert(rel(r, edges@[e].0, edges@[e].1));
        }
        assert forall|a: usize| !#[trigger] big.contains((a, a)) by {
            assert(!rel(r, a, a));
        }
        assert(acyclic(edges@));
    }
    Some(tc)
}

} // verus!
