//! Completions of the DimDraw search states: the pairs of linear extensions
//! that a state `(t1, t2)` can still grow into, and the facts that bound
//! their cost. They carry the proof that a search that reports no time-out
//! is optimal.

use vstd::prelude::*;
use crate::bitset::{below, lemma_subset_below_len};
use crate::order::{rel, within, extends, linear_extension, strict_order, transitive, with_edge,
    pairs_transitive, rel_within, lemma_with_edge_transitive, is_transitive_closure};
use crate::dimdraw::{cost, row_cost};
use crate::state_key::lists_ascending;

verus! {

/// A completion of the search state `(t1, t2)`: two linear extensions of
/// `orig` that contain `t1` and `t2`.
pub open spec fn completion(orig: Seq<Set<usize>>, n: nat, t1: Seq<Set<usize>>, t2: Seq<Set<usize>>,
    l1: Seq<Set<usize>>, l2: Seq<Set<usize>>) -> bool {
    &&& linear_extension(l1, orig, n)
    &&& linear_extension(l2, orig, n)
    &&& extends(l1, t1)
    &&& extends(l2, t2)
}

/// Every completion of the state `(t1, t2)` costs at least `bound`.
pub open spec fn completions_at_least(orig: Seq<Set<usize>>, no: Seq<Set<usize>>, n: nat,
    t1: Seq<Set<usize>>, t2: Seq<Set<usize>>, bound: int) -> bool {
    forall|l1: Seq<Set<usize>>, l2: Seq<Set<usize>>| #[trigger] completion(orig, n, t1, t2, l1, l2)
        ==> cost(l1, l2, no, n) >= bound
}

/// Two tables on `n` nodes with the same relation are equal.
pub proof fn lemma_extends_antisymmetric(a: Seq<Set<usize>>, b: Seq<Set<usize>>, n: nat)
    requires
        within(a, n),
        within(b, n),
        extends(a, b),
        extends(b, a),
        n <= usize::MAX,
    ensures
        a == b,
{
    assert forall|i: int| 0 <= i < n implies a[i] == b[i] by {
        assert forall|x: usize| a[i].contains(x) <==> b[i].contains(x) by {
            if a[i].contains(x) {
                assert(rel(a, i as usize, x));
            }
            if b[i].contains(x) {
                assert(rel(b, i as usize, x));
            }
        }
        assert(a[i] =~= b[i]);
    }
    assert(a =~= b);
}

/// `extends` is transitive.
pub proof fn lemma_extends_transitive(a: Seq<Set<usize>>, b: Seq<Set<usize>>, c: Seq<Set<usize>>)
    requires
        extends(a, b),
        extends(b, c),
    ensures
        extends(a, c),
{
    assert forall|x: usize, y: usize| #[trigger] rel(c, x, y) implies rel(a, x, y) by {
        assert(rel(b, x, y));
    }
}

/// The cost grows with the tables.
pub proof fn lemma_cost_monotone(t1: Seq<Set<usize>>, t2: Seq<Set<usize>>, l1: Seq<Set<usize>>,
    l2: Seq<Set<usize>>, no: Seq<Set<usize>>, n: nat, k: nat)
    requires
        within(t1, n),
        within(t2, n),
        within(l1, n),
        within(l2, n),
        extends(l1, t1),
        extends(l2, t2),
        k <= n,
        n <= usize::MAX,
    ensures
        cost(t1, t2, no, k) <= cost(l1, l2, no, k),
    decreases k,
{
    if k > 0 {
        lemma_cost_monotone(t1, t2, l1, l2, no, n, (k - 1) as nat);
        let i = k - 1;
        let small = t1[i].intersect(t2[i]).intersect(no[i]);
        let large = l1[i].intersect(l2[i]).intersect(no[i]);
        assert(small.subset_of(large)) by {
            assert forall|x: usize| small.contains(x) implies large.contains(x) by {
                assert(rel(t1, i as usize, x));
                assert(rel(t2, i as usize, x));
            }
        }
        assert(large.subset_of(below(n as int))) by {
            assert(l1[i].subset_of(below(n as int)));
        }
        lemma_subset_below_len(large, n);
        vstd::set_lib::lemma_len_subset(small, large);
        assert(row_cost(t1, t2, no, i) <= row_cost(l1, l2, no, i));
    }
}

/// The cost does not depend on the order of the two tables.
pub proof fn lemma_cost_symmetric(r1: Seq<Set<usize>>, r2: Seq<Set<usize>>, no: Seq<Set<usize>>, k: nat)
    ensures
        cost(r1, r2, no, k) == cost(r2, r1, no, k),
    decreases k,
{
    if k > 0 {
        lemma_cost_symmetric(r1, r2, no, (k - 1) as nat);
        let i = k - 1;
        assert(r1[i].intersect(r2[i]).intersect(no[i]) =~= r2[i].intersect(r1[i]).intersect(no[i]));
    }
}

/// A bound on the completions of `(t1, t2)` holds for those of `(t2, t1)`.
pub proof fn lemma_completions_symmetric(orig: Seq<Set<usize>>, no: Seq<Set<usize>>, n: nat,
    t1: Seq<Set<usize>>, t2: Seq<Set<usize>>, bound: int)
    requires
        completions_at_least(orig, no, n, t1, t2, bound),
    ensures
        completions_at_least(orig, no, n, t2, t1, bound),
{
    assert forall|l1: Seq<Set<usize>>, l2: Seq<Set<usize>>| #[trigger] completion(orig, n, t2, t1, l1, l2)
        implies cost(l1, l2, no, n) >= bound by {
        assert(completion(orig, n, t1, t2, l2, l1));
        lemma_cost_symmetric(l1, l2, no, n);
    }
}

/// Every completion costs at least as much as the state itself.
pub proof fn lemma_completions_above_state(orig: Seq<Set<usize>>, no: Seq<Set<usize>>, n: nat,
    t1: Seq<Set<usize>>, t2: Seq<Set<usize>>)
    requires
        within(t1, n),
        within(t2, n),
        n <= usize::MAX,
    ensures
        completions_at_least(orig, no, n, t1, t2, cost(t1, t2, no, n) as int),
{
    assert forall|l1: Seq<Set<usize>>, l2: Seq<Set<usize>>| #[trigger] completion(orig, n, t1, t2, l1, l2)
        implies cost(l1, l2, no, n) >= cost(t1, t2, no, n) by {
        lemma_cost_monotone(t1, t2, l1, l2, no, n, n);
    }
}

/// A completion exists only for a strict partial order.
pub proof fn lemma_completion_needs_strict(orig: Seq<Set<usize>>, n: nat, t1: Seq<Set<usize>>,
    t2: Seq<Set<usize>>, l1: Seq<Set<usize>>, l2: Seq<Set<usize>>)
    requires
        within(orig, n),
        transitive(orig),
        completion(orig, n, t1, t2, l1, l2),
    ensures
        strict_order(orig, n),
{
    assert forall|a: usize| !#[trigger] rel(orig, a, a) by {
        if rel(orig, a, a) {
            assert(rel(l1, a, a));
        }
    }
}

/// A strict order that contains the table and orders `u < v` contains the
/// table after the step that orders `u < v`; that step cannot have found
/// the pair ordered the other way.
pub proof fn lemma_step_keeps_completion(t: Seq<Set<usize>>, l: Seq<Set<usize>>, u: usize, v: usize,
    next: Seq<Set<usize>>, n: nat)
    requires
        within(t, n),
        transitive(t),
        strict_order(l, n),
        extends(l, t),
        rel(l, u, v),
        u < n,
        v < n,
        rel(t, u, v) ==> next == t,
        !rel(t, u, v) && !rel(t, v, u) ==> next == with_edge(t, u, v),
    ensures
        !(!rel(t, u, v) && rel(t, v, u)),
        (!rel(t, u, v) && rel(t, v, u)) || extends(l, next),
{
    if rel(t, v, u) {
        assert(rel(l, v, u));
        assert(rel(l, u, u));
    }
    if !rel(t, u, v) && !rel(t, v, u) {
        let big = Set::new(|p: (usize, usize)| rel(l, p.0, p.1));
        assert(pairs_transitive(big)) by {
            assert forall|a: usize, b: usize, c: usize| #[trigger] big.contains((a, b)) && #[trigger] big.contains((b, c))
                implies big.contains((a, c)) by {
                assert(rel(l, a, b) && rel(l, b, c));
            }
        }
        assert(rel_within(t, big)) by {
            assert forall|a: usize, b: usize| #[trigger] rel(t, a, b) implies big.contains((a, b)) by {
                assert(rel(l, a, b));
            }
        }
        assert(big.contains((u, v)));
        lemma_with_edge_transitive(t, u, v, n);
        assert(rel_within(with_edge(t, u, v), big));
        assert forall|a: usize, b: usize| #[trigger] rel(next, a, b) implies rel(l, a, b) by {
            assert(big.contains((a, b)));
        }
    }
}

/// A set of edges has one transitive closure on `n` nodes.
pub proof fn lemma_transitive_closure_unique(c: Seq<Set<usize>>, d: Seq<Set<usize>>, edges: Seq<(usize, usize)>, n: nat)
    requires
        within(c, n),
        within(d, n),
        is_transitive_closure(c, edges),
        is_transitive_closure(d, edges),
        n <= usize::MAX,
    ensures
        c == d,
{
    let bc = Set::new(|p: (usize, usize)| rel(c, p.0, p.1));
    let bd = Set::new(|p: (usize, usize)| rel(d, p.0, p.1));
    assert(pairs_transitive(bc)) by {
        assert forall|a: usize, b: usize, x: usize| #[trigger] bc.contains((a, b)) && #[trigger] bc.contains((b, x))
            implies bc.contains((a, x)) by {
            assert(rel(c, a, b) && rel(c, b, x));
        }
    }
    assert(pairs_transitive(bd)) by {
        assert forall|a: usize, b: usize, x: usize| #[trigger] bd.contains((a, b)) && #[trigger] bd.contains((b, x))
            implies bd.contains((a, x)) by {
            assert(rel(d, a, b) && rel(d, b, x));
        }
    }
    assert forall|e: int| 0 <= e < edges.len() implies bc.contains(#[trigger] edges[e]) && bd.contains(edges[e]) by {
        assert(rel(c, edges[e].0, edges[e].1));
        assert(rel(d, edges[e].0, edges[e].1));
    }
    assert(rel_within(c, bd));
    assert(rel_within(d, bc));
    assert(extends(d, c)) by {
        assert forall|a: usize, b: usize| #[trigger] rel(c, a, b) implies rel(d, a, b) by {
            assert(bd.contains((a, b)));
        }
    }
    assert(extends(c, d)) by {
        assert forall|a: usize, b: usize| #[trigger] rel(d, a, b) implies rel(c, a, b) by {
            assert(bc.contains((a, b)));
        }
    }
    lemma_extends_antisymmetric(c, d, n);
}

/// A search state: the two tables, as row sets.
pub type State = (Seq<Set<usize>>, Seq<Set<usize>>);

/// The two tables that a state key stands for: each listed row as a set.
pub open spec fn key_sets(kv: (Seq<Seq<usize>>, Seq<Seq<usize>>)) -> State {
    (Seq::new(kv.0.len(), |i: int| kv.0[i].to_set()), Seq::new(kv.1.len(), |i: int| kv.1[i].to_set()))
}

/// `kv` is the key of the state `(t1, t2)`, in one order or the other.
pub open spec fn key_of(kv: (Seq<Seq<usize>>, Seq<Seq<usize>>), t1: Seq<Set<usize>>, t2: Seq<Set<usize>>) -> bool {
    key_sets(kv) == (t1, t2) || key_sets(kv) == (t2, t1)
}

/// Lists of the rows, each in ascending order, stand for the rows.
pub proof fn lemma_listed_rows(lists: Seq<Seq<usize>>, r: Seq<Set<usize>>)
    requires
        lists.len() == r.len(),
        forall|i: int| 0 <= i < lists.len() ==> lists_ascending(#[trigger] lists[i], r[i]),
    ensures
        Seq::new(lists.len(), |i: int| lists[i].to_set()) == r,
{
    assert forall|i: int| 0 <= i < lists.len() implies #[trigger] lists[i].to_set() == r[i] by {
        assert(lists_ascending(lists[i], r[i]));
        assert(lists[i].to_set() =~= r[i]);
    }
    assert(Seq::new(lists.len(), |i: int| lists[i].to_set()) =~= r);
}

/// The state `(t1, t2)` lies strictly above `a`: its tables contain those
/// of `a`, and it is another state.
pub open spec fn state_below(a: State, t1: Seq<Set<usize>>, t2: Seq<Set<usize>>) -> bool {
    &&& extends(t1, a.0)
    &&& extends(t2, a.1)
    &&& (t1, t2) != a
}

/// The state `(t1, t2)` lies strictly above every state of the stack, all
/// of them tables on `n` nodes.
pub open spec fn above_stack(stack: Seq<State>, t1: Seq<Set<usize>>, t2: Seq<Set<usize>>, n: nat) -> bool {
    forall|i: int| #![trigger stack[i]] 0 <= i < stack.len() ==> within(stack[i].0, n) && within(stack[i].1, n)
        && state_below(stack[i], t1, t2)
}

/// Each key recorded in the memo belongs to a state of the stack, or every
/// completion of its state costs at least `best`.
pub open spec fn memo_ok(m: Map<(Seq<Seq<usize>>, Seq<Seq<usize>>), u64>, orig: Seq<Set<usize>>,
    no: Seq<Set<usize>>, n: nat, best: int, stack: Seq<State>) -> bool {
    forall|kv: (Seq<Seq<usize>>, Seq<Seq<usize>>)| #[trigger] m.contains_key(kv) ==>
        (exists|i: int| 0 <= i < stack.len() && key_of(kv, stack[i].0, stack[i].1))
        || completions_at_least(orig, no, n, key_sets(kv).0, key_sets(kv).1, best)
}

/// A lower bound stays valid when the best cost goes down.
pub proof fn lemma_memo_ok_lower(m: Map<(Seq<Seq<usize>>, Seq<Seq<usize>>), u64>, orig: Seq<Set<usize>>,
    no: Seq<Set<usize>>, n: nat, best: int, lower: int, stack: Seq<State>)
    requires
        memo_ok(m, orig, no, n, best, stack),
        lower <= best,
    ensures
        memo_ok(m, orig, no, n, lower, stack),
{
    assert forall|kv: (Seq<Seq<usize>>, Seq<Seq<usize>>)| #[trigger] m.contains_key(kv) implies
        (exists|i: int| 0 <= i < stack.len() && key_of(kv, stack[i].0, stack[i].1))
        || completions_at_least(orig, no, n, key_sets(kv).0, key_sets(kv).1, lower) by {
        if !(exists|i: int| 0 <= i < stack.len() && key_of(kv, stack[i].0, stack[i].1)) {
            let t = key_sets(kv);
            assert forall|l1: Seq<Set<usize>>, l2: Seq<Set<usize>>| #[trigger] completion(orig, n, t.0, t.1, l1, l2)
                implies cost(l1, l2, no, n) >= lower by {}
        }
    }
}

/// A key found in the memo for a state above the whole stack: every
/// completion of that state costs at least `best`.
pub proof fn lemma_memo_hit(m: Map<(Seq<Seq<usize>>, Seq<Seq<usize>>), u64>, orig: Seq<Set<usize>>,
    no: Seq<Set<usize>>, n: nat, best: int, stack: Seq<State>, kv: (Seq<Seq<usize>>, Seq<Seq<usize>>),
    t1: Seq<Set<usize>>, t2: Seq<Set<usize>>)
    requires
        memo_ok(m, orig, no, n, best, stack),
        above_stack(stack, t1, t2, n),
        m.contains_key(kv),
        key_of(kv, t1, t2),
        within(t1, n),
        within(t2, n),
        n <= usize::MAX,
    ensures
        completions_at_least(orig, no, n, t1, t2, best),
{
    if exists|i: int| 0 <= i < stack.len() && key_of(kv, stack[i].0, stack[i].1) {
        let i = choose|i: int| 0 <= i < stack.len() && key_of(kv, stack[i].0, stack[i].1);
        let a = stack[i];
        assert(state_below(a, t1, t2));
        if (t1, t2) != a {
            assert(t1 == a.1 && t2 == a.0);
            lemma_extends_antisymmetric(a.0, a.1, n);
        }
    } else if key_sets(kv) == (t1, t2) {
    } else {
        lemma_completions_symmetric(orig, no, n, t2, t1, best);
    }
}

/// Recording the key of the state `(t1, t2)` while it is pushed on the stack.
pub proof fn lemma_memo_push(m: Map<(Seq<Seq<usize>>, Seq<Seq<usize>>), u64>, orig: Seq<Set<usize>>,
    no: Seq<Set<usize>>, n: nat, best: int, stack: Seq<State>, kv: (Seq<Seq<usize>>, Seq<Seq<usize>>),
    c: u64, t1: Seq<Set<usize>>, t2: Seq<Set<usize>>)
    requires
        memo_ok(m, orig, no, n, best, stack),
        key_of(kv, t1, t2),
    ensures
        memo_ok(m.insert(kv, c), orig, no, n, best, stack.push((t1, t2))),
{
    let s2 = stack.push((t1, t2));
    assert forall|k: (Seq<Seq<usize>>, Seq<Seq<usize>>)| #[trigger] m.insert(kv, c).contains_key(k) implies
        (exists|i: int| 0 <= i < s2.len() && key_of(k, s2[i].0, s2[i].1))
        || completions_at_least(orig, no, n, key_sets(k).0, key_sets(k).1, best) by {
        if k == kv {
            assert(key_of(k, s2[stack.len() as int].0, s2[stack.len() as int].1));
        } else if exists|i: int| 0 <= i < stack.len() && key_of(k, stack[i].0, stack[i].1) {
            let i = choose|i: int| 0 <= i < stack.len() && key_of(k, stack[i].0, stack[i].1);
            assert(s2[i] == stack[i]);
        }
    }
}

/// Once every completion of the top state costs at least `best`, the top
/// can leave the stack.
pub proof fn lemma_memo_pop(m: Map<(Seq<Seq<usize>>, Seq<Seq<usize>>), u64>, orig: Seq<Set<usize>>,
    no: Seq<Set<usize>>, n: nat, best: int, stack: Seq<State>, t1: Seq<Set<usize>>, t2: Seq<Set<usize>>)
    requires
        memo_ok(m, orig, no, n, best, stack.push((t1, t2))),
        completions_at_least(orig, no, n, t1, t2, best),
    ensures
        memo_ok(m, orig, no, n, best, stack),
{
    let s2 = stack.push((t1, t2));
    assert forall|k: (Seq<Seq<usize>>, Seq<Seq<usize>>)| #[trigger] m.contains_key(k) implies
        (exists|i: int| 0 <= i < stack.len() && key_of(k, stack[i].0, stack[i].1))
        || completions_at_least(orig, no, n, key_sets(k).0, key_sets(k).1, best) by {
        if exists|i: int| 0 <= i < s2.len() && key_of(k, s2[i].0, s2[i].1) {
            let i = choose|i: int| 0 <= i < s2.len() && key_of(k, s2[i].0, s2[i].1);
            if i == stack.len() {
                if key_sets(k) != (t1, t2) {
                    lemma_completions_symmetric(orig, no, n, t1, t2, best);
                }
            } else {
                assert(s2[i] == stack[i]);
            }
        }
    }
}

/// A state above `(t1, t2)` lies above the stack with `(t1, t2)` pushed.
pub proof fn lemma_push_stack(stack: Seq<State>, t1: Seq<Set<usize>>, t2: Seq<Set<usize>>,
    c1: Seq<Set<usize>>, c2: Seq<Set<usize>>, n: nat)
    requires
        above_stack(stack, t1, t2, n),
        within(t1, n),
        within(t2, n),
        within(c1, n),
        within(c2, n),
        extends(c1, t1),
        extends(c2, t2),
        (c1, c2) != (t1, t2),
        n <= usize::MAX,
    ensures
        above_stack(stack.push((t1, t2)), c1, c2, n),
{
    let s2 = stack.push((t1, t2));
    assert forall|i: int| #![trigger s2[i]] 0 <= i < s2.len() implies within(s2[i].0, n) && within(s2[i].1, n)
        && state_below(s2[i], c1, c2) by {
        if i < stack.len() {
            let a = stack[i];
            assert(s2[i] == a);
            assert(state_below(a, t1, t2));
            lemma_extends_transitive(c1, t1, a.0);
            lemma_extends_transitive(c2, t2, a.1);
            if (c1, c2) == a {
                lemma_extends_antisymmetric(c1, t1, n);
                lemma_extends_antisymmetric(c2, t2, n);
            }
        } else {
            assert(s2[i] == (t1, t2));
        }
    }
    assert(above_stack(s2, c1, c2, n));
}

} // verus!
