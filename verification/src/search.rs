//! The DimDraw search: branch and bound over the incomparable pairs, each
//! pair ordered either way in each of two linear extensions, bounded by a
//! time budget.

use vstd::prelude::*;
use bit_set::BitSet;
use std::time::{Duration, Instant};
use crate::bitset::{members, below, bs_len, bs_contains};
use crate::order::{rows, rel, within, strict_order, extends, linear_extension, with_edge,
    transitive, lemma_with_edge_strict, add_edge_logic, clone_table, initialize_transitive_closure,
    is_transitive_closure, acyclic, rel_within, pairs_transitive};
use crate::dimdraw::{pair_before, incomparable, precompute_not_orig, extract_incomparable_pairs, cost, global_cost,
    heuristic_initial_candidate, heuristic_order, lemma_heuristic_is_linear_extension, lemma_cost_bound};
use crate::state_key::{StateKey, canonical_state_key, memo_get, memo_insert, memo_map, key_view, deep,
    ordered_pair, lists_ascending};
use crate::fcbo::lemma_ascending_unique;
use crate::completion::{State, completion, completions_at_least, key_of, above_stack, memo_ok, lemma_listed_rows,
    lemma_completions_above_state, lemma_memo_ok_lower, lemma_memo_hit, lemma_memo_push, lemma_memo_pop,
    lemma_push_stack, lemma_completion_needs_strict, lemma_step_keeps_completion, lemma_transitive_closure_unique,
    lemma_extends_transitive};

verus! {

#[verifier::external_type_specification]
#[verifier::external_body]
pub struct ExInstant(std::time::Instant);

/// `Instant::now`: the current time. It depends on the clock, so nothing
/// is promised of it.
#[verifier::external_body]
fn instant_now() -> Instant {
    Instant::now()
}

/// `Instant::elapsed`: the time passed since `start`. It depends on the
/// clock, so nothing is promised of it.
#[verifier::external_body]
fn instant_elapsed(start: &Instant) -> Duration {
    start.elapsed()
}

/// `Duration::as_millis`: the whole milliseconds of a duration. The
/// duration is opaque here, so nothing is promised of the result.
#[verifier::external_body]
fn duration_as_millis(d: &Duration) -> u128 {
    d.as_millis()
}

/// A budget of `timeout_ms` milliseconds is spent after `elapsed_ms` whole
/// milliseconds: it is positive and they have reached it.
pub open spec fn spent(timeout_ms: u64, elapsed_ms: u128) -> bool {
    timeout_ms > 0 && elapsed_ms >= timeout_ms as int
}

/// The time-out rule: a positive budget is spent once the elapsed whole
/// milliseconds reach it; a budget of 0 is never spent. (For a whole number
/// of milliseconds `t`, an elapsed time reaches `t` ms exactly when its
/// whole milliseconds reach `t`.)
pub fn budget_spent(timeout_ms: u64, elapsed_ms: u128) -> (r: bool)
    ensures
        r == (timeout_ms > 0 && elapsed_ms >= timeout_ms as u128),
        r == spent(timeout_ms, elapsed_ms),
{
    timeout_ms > 0 && elapsed_ms >= timeout_ms as u128
}

/// A poset given by its nodes and the covering pairs `(lower, upper)`.
pub struct Poset<T> {
    pub nodes: Vec<T>,
    pub covering_edges: Vec<(usize, usize)>,
}

/// A lattice, held as its poset.
pub struct Lattice<T> {
    pub poset: Poset<T>,
}

/// Fast branch-and-bound lattice drawing algorithm.
///
/// The search is time-bounded by `timeout_ms`.
///
/// - `timeout_ms > 0`: stop exploring new branches when the budget is reached.
/// - `timeout_ms == 0`: unbounded search.
///
/// Timeout does not count as failure: the best valid solution found so far is returned.
pub struct DimDraw {
    /// Search budget in milliseconds. `0` means unbounded search.
    pub timeout_ms: u64,
}

/// What a search gives back: a grid point per node, and statistics.
pub struct SearchOutcome {
    /// `(p1 - p2, -(p1 + p2))` for the node's positions `p1`, `p2` in the two orders.
    pub coordinates: Vec<(i128, i128)>,
    pub best_cost: usize,
    pub baseline_cost: usize,
    pub explored_nodes: usize,
    pub timed_out: bool,
    /// The elapsed whole milliseconds read from the clock during the search,
    /// in the order they were read.
    pub elapsed_readings: Ghost<Seq<u128>>,
}

struct SolverRuntime {
    best_cost: u64,
    best_tc1: Vec<BitSet>,
    best_tc2: Vec<BitSet>,
    memo: Vec<(StateKey, u64)>,
    nodes_explored: usize,
    start_time: Instant,
    timeout_ms: u64,
    timed_out: bool,
    readings: Ghost<Seq<u128>>,
}

impl SolverRuntime {
    fn new(best_cost: u64, best_tc1: Vec<BitSet>, best_tc2: Vec<BitSet>, timeout_ms: u64) -> (r: Self)
        ensures
            r.best_cost == best_cost,
            r.best_tc1 == best_tc1,
            r.best_tc2 == best_tc2,
            r.timeout_ms == timeout_ms,
            r.nodes_explored == 0,
            !r.timed_out,
            r.memo@.len() == 0,
            r.readings@.len() == 0,
    {
        SolverRuntime {
            best_cost,
            best_tc1,
            best_tc2,
            memo: Vec::new(),
            nodes_explored: 0,
            start_time: instant_now(),
            timeout_ms,
            timed_out: false,
            readings: Ghost(Seq::empty()),
        }
    }

    /// Whether the budget is spent, by `budget_spent` on the milliseconds
    /// elapsed since the start, which are logged in `readings`; never with
    /// an unbounded budget, for which the clock is not read.
    fn has_timed_out(&mut self) -> (r: bool)
        ensures
            r ==> old(self).timeout_ms > 0,
            final(self).best_cost == old(self).best_cost,
            final(self).best_tc1 == old(self).best_tc1,
            final(self).best_tc2 == old(self).best_tc2,
            final(self).memo == old(self).memo,
            final(self).nodes_explored == old(self).nodes_explored,
            final(self).timeout_ms == old(self).timeout_ms,
            final(self).timed_out == old(self).timed_out,
            old(self).timeout_ms == 0 ==> !r && final(self).readings@ == old(self).readings@,
            old(self).timeout_ms > 0 ==> final(self).readings@.len() == old(self).readings@.len() + 1
                && final(self).readings@.drop_last() == old(self).readings@
                && r == spent(old(self).timeout_ms, final(self).readings@.last()),
    {
        if self.timeout_ms == 0 {
            return false;
        }
        let elapsed = instant_elapsed(&self.start_time);
        let ms = duration_as_millis(&elapsed);
        self.readings = Ghost(self.readings@.push(ms));
        proof {
            assert(self.readings@.drop_last() =~= old(self).readings@);
        }
        budget_spent(self.timeout_ms, ms)
    }
}

/// How the clock log runs from `before` to `after`: readings are only
/// added, none with an unbounded budget; the search times out exactly when
/// a reading added reaches the budget, and stays timed out.
spec fn log_ok(before: SolverRuntime, after: SolverRuntime) -> bool {
    &&& after.timeout_ms == before.timeout_ms
    &&& after.readings@.len() >= before.readings@.len()
    &&& forall|i: int| 0 <= i < before.readings@.len() ==> after.readings@[i] == #[trigger] before.readings@[i]
    &&& after.timeout_ms == 0 ==> after.readings@ == before.readings@
    &&& before.timed_out ==> after.timed_out
    &&& after.timed_out ==> before.timed_out || exists|i: int| before.readings@.len() <= i < after.readings@.len()
        && spent(after.timeout_ms, #[trigger] after.readings@[i])
    &&& forall|i: int| before.readings@.len() <= i < after.readings@.len()
        && spent(after.timeout_ms, #[trigger] after.readings@[i]) ==> after.timed_out
}

proof fn lemma_log_trans(a: SolverRuntime, b: SolverRuntime, c: SolverRuntime)
    requires
        log_ok(a, b),
        log_ok(b, c),
    ensures
        log_ok(a, c),
{
    if c.timed_out && !a.timed_out {
        if b.timed_out {
            let i = choose|i: int| a.readings@.len() <= i < b.readings@.len()
                && spent(b.timeout_ms, #[trigger] b.readings@[i]);
            assert(c.readings@[i] == b.readings@[i]);
        }
    }
    assert forall|i: int| a.readings@.len() <= i < c.readings@.len()
        && spent(c.timeout_ms, #[trigger] c.readings@[i]) implies c.timed_out by {
        if i < b.readings@.len() {
            assert(c.readings@[i] == b.readings@[i]);
        }
    }
    if c.timeout_ms == 0 {
        assert(c.readings@ == a.readings@);
    }
}

/// The pair is ordered one way or the other.
pub open spec fn resolved(r: Seq<Set<usize>>, p: (usize, usize)) -> bool {
    rel(r, p.0, p.1) || rel(r, p.1, p.0)
}

/// `pairs` holds exactly the incomparable pairs `(u, v)`, `u < v`, of `orig`.
pub open spec fn pairs_of(orig: Seq<Set<usize>>, n: nat, pairs: Seq<(usize, usize)>) -> bool {
    &&& forall|i: int| 0 <= i < pairs.len() ==> (#[trigger] pairs[i]).0 < pairs[i].1 < n
        && incomparable(orig, pairs[i].0, pairs[i].1)
    &&& forall|u: usize, v: usize| u < v < n && incomparable(orig, u, v) ==> pairs.contains((u, v))
}

/// The best pair of orders kept by the search: its cost is recorded, and
/// for a strict partial order both are linear extensions.
spec fn runtime_ok(rt: SolverRuntime, orig: Seq<Set<usize>>, no: Seq<Set<usize>>, n: nat) -> bool {
    &&& within(rows(rt.best_tc1@), n)
    &&& within(rows(rt.best_tc2@), n)
    &&& rt.best_cost == cost(rows(rt.best_tc1@), rows(rt.best_tc2@), no, n)
    &&& strict_order(orig, n) ==> linear_extension(rows(rt.best_tc1@), orig, n)
        && linear_extension(rows(rt.best_tc2@), orig, n)
}

/// A table of the search: within `n` nodes, and for a strict partial order
/// a strict partial order extending it.
spec fn table_ok(r: Seq<Set<usize>>, orig: Seq<Set<usize>>, n: nat) -> bool {
    &&& within(r, n)
    &&& strict_order(orig, n) ==> strict_order(r, n) && extends(r, orig)
}

/// Ordering `u < v` keeps a table within its nodes.
proof fn lemma_with_edge_within(r: Seq<Set<usize>>, u: usize, v: usize, n: nat)
    requires
        within(r, n),
        u < n,
        v < n,
    ensures
        within(with_edge(r, u, v), n),
{
    let r2 = with_edge(r, u, v);
    assert forall|i: int| 0 <= i < n implies (#[trigger] r2[i]).subset_of(below(n as int)) by {
        assert(r[i].subset_of(below(n as int)));
        assert(r[v as int].subset_of(below(n as int)));
    }
}

/// The result of ordering one pair in a table of the search.
proof fn lemma_step_table(r: Seq<Set<usize>>, orig: Seq<Set<usize>>, n: nat, u: usize, v: usize, next: Seq<Set<usize>>)
    requires
        table_ok(r, orig, n),
        u < n,
        v < n,
        u != v,
        rel(r, u, v) ==> next == r,
        !rel(r, u, v) && !rel(r, v, u) ==> next == with_edge(r, u, v),
        !(!rel(r, u, v) && rel(r, v, u)),
    ensures
        table_ok(next, orig, n),
        rel(next, u, v),
        extends(next, r),
{
    if !rel(r, u, v) {
        lemma_with_edge_within(r, u, v, n);
        if strict_order(orig, n) {
            lemma_with_edge_strict(r, u, v, n);
            assert forall|a: usize, b: usize| #[trigger] rel(orig, a, b) implies rel(next, a, b) by {
                assert(rel(r, a, b));
            }
        } else {
            assert(rel(next, u, v)) by {
                assert(next[u as int] == r[u as int].union(r[v as int]).insert(v));
            }
            assert forall|a: usize, b: usize| #[trigger] rel(r, a, b) implies rel(next, a, b) by {
                if a == u || r[a as int].contains(u) {
                    assert(next[a as int] == r[a as int].union(r[v as int]).insert(v));
                }
            }
        }
    }
}

/// A table of the search in which every incomparable pair is resolved is a
/// linear extension.
proof fn lemma_leaf_linear(r: Seq<Set<usize>>, orig: Seq<Set<usize>>, n: nat, pairs: Seq<(usize, usize)>)
    requires
        table_ok(r, orig, n),
        pairs_of(orig, n, pairs),
        forall|p: int| 0 <= p < pairs.len() ==> resolved(r, #[trigger] pairs[p]),
    ensures
        strict_order(orig, n) ==> linear_extension(r, orig, n),
{
    if strict_order(orig, n) {
        assert forall|a: usize, b: usize| a < n && b < n && a != b implies rel(r, a, b) || rel(r, b, a) by {
            if !rel(orig, a, b) && !rel(orig, b, a) {
                let lo = if a < b { a } else { b };
                let hi = if a < b { b } else { a };
                assert(incomparable(orig, lo, hi));
                assert(pairs.contains((lo, hi)));
                let p = choose|p: int| 0 <= p < pairs.len() && pairs[p] == (lo, hi);
                assert(resolved(r, pairs[p]));
            } else if rel(orig, a, b) {
                assert(rel(r, a, b));
            } else {
                assert(rel(r, b, a));
            }
        }
    }
}

/// What the runtime keeps between the search's steps.
spec fn progress_of(rt: SolverRuntime) -> Progress {
    (rt.best_cost, rows(rt.best_tc1@), rows(rt.best_tc2@), memo_map(rt.memo@), rt.nodes_explored)
}

/// The pair `p` is ordered `(a, b)` in `l1` and `(c, d)` in `l2`, for the
/// branch choice `ch = (a, b, c, d)`.
spec fn oriented(l1: Seq<Set<usize>>, l2: Seq<Set<usize>>, ch: (usize, usize, usize, usize)) -> bool {
    rel(l1, ch.0, ch.1) && rel(l2, ch.2, ch.3)
}

/// The key of the state: its two tables, in one order or the other.
proof fn lemma_state_key(tc1: Vec<BitSet>, tc2: Vec<BitSet>, key: StateKey)
    requires
        exists|k1: Vec<Vec<usize>>, k2: Vec<Vec<usize>>| {
            &&& k1@.len() == tc1@.len()
            &&& k2@.len() == tc2@.len()
            &&& (forall|i: int| 0 <= i < k1@.len() ==> lists_ascending(#[trigger] k1@[i]@, members(tc1@[i])))
            &&& (forall|i: int| 0 <= i < k2@.len() ==> lists_ascending(#[trigger] k2@[i]@, members(tc2@[i])))
            &&& key_view(key) == ordered_pair(deep(k1@), deep(k2@))
        },
    ensures
        key_of(key_view(key), rows(tc1@), rows(tc2@)),
        key_view(key) == key_of_tables(rows(tc1@), rows(tc2@)),
{
    let (k1, k2) = choose|k1: Vec<Vec<usize>>, k2: Vec<Vec<usize>>| {
        &&& k1@.len() == tc1@.len()
        &&& k2@.len() == tc2@.len()
        &&& (forall|i: int| 0 <= i < k1@.len() ==> lists_ascending(#[trigger] k1@[i]@, members(tc1@[i])))
        &&& (forall|i: int| 0 <= i < k2@.len() ==> lists_ascending(#[trigger] k2@[i]@, members(tc2@[i])))
        &&& key_view(key) == ordered_pair(deep(k1@), deep(k2@))
    };
    assert forall|i: int| 0 <= i < deep(k1@).len() implies lists_ascending(#[trigger] deep(k1@)[i], rows(tc1@)[i]) by {
        assert(lists_ascending(k1@[i]@, members(tc1@[i])));
    }
    assert forall|i: int| 0 <= i < deep(k2@).len() implies lists_ascending(#[trigger] deep(k2@)[i], rows(tc2@)[i]) by {
        assert(lists_ascending(k2@[i]@, members(tc2@[i])));
    }
    lemma_listed_rows(deep(k1@), rows(tc1@));
    lemma_listed_rows(deep(k2@), rows(tc2@));
    lemma_lists_are_row_lists(deep(k1@), rows(tc1@));
    lemma_lists_are_row_lists(deep(k2@), rows(tc2@));
}

/// Ascending lists of the rows are the rows' `row_list`s.
proof fn lemma_lists_are_row_lists(lists: Seq<Seq<usize>>, r: Seq<Set<usize>>)
    requires
        lists.len() == r.len(),
        forall|i: int| 0 <= i < lists.len() ==> lists_ascending(#[trigger] lists[i], r[i]),
    ensures
        lists == Seq::new(r.len(), |i: int| row_list(r[i])),
{
    assert forall|i: int| 0 <= i < lists.len() implies #[trigger] lists[i] == row_list(r[i]) by {
        assert(lists_ascending(lists[i], r[i]));
        let l = row_list(r[i]);
        assert(lists_ascending(l, r[i]));
        lemma_ascending_unique(lists[i], l);
    }
    assert(lists =~= Seq::new(r.len(), |i: int| row_list(r[i])));
}

/// Every completion of the state orders the branching pair in the way of one
/// of the four choices.
proof fn lemma_four_choices(orig: Seq<Set<usize>>, n: nat, t1: Seq<Set<usize>>, t2: Seq<Set<usize>>,
    l1: Seq<Set<usize>>, l2: Seq<Set<usize>>, u: usize, v: usize, choices: Seq<(usize, usize, usize, usize)>)
    requires
        completion(orig, n, t1, t2, l1, l2),
        u < v < n,
        choices == seq![(u, v, v, u), (v, u, u, v), (u, v, u, v), (v, u, v, u)],
    ensures
        exists|k: int| 0 <= k < 4 && oriented(l1, l2, #[trigger] choices[k]),
{
    assert(rel(l1, u, v) || rel(l1, v, u));
    assert(rel(l2, u, v) || rel(l2, v, u));
    if rel(l1, u, v) && rel(l2, v, u) {
        assert(oriented(l1, l2, choices[0]));
    } else if rel(l1, v, u) && rel(l2, u, v) {
        assert(oriented(l1, l2, choices[1]));
    } else if rel(l1, u, v) {
        assert(oriented(l1, l2, choices[2]));
    } else {
        assert(oriented(l1, l2, choices[3]));
    }
}

/// Explores the orderings of `pairs[pair_idx..]` below the tables `tc1`,
/// `tc2`, keeping in `runtime` the cheapest pair of linear extensions found.
/// Unless a time-out is reported the exploration is exhaustive: afterwards
/// every completion of the state costs at least the best cost, and the memo
/// keeps its invariant over the states of `stack`, the states being explored
/// around this one. A best pair found here contains the state's tables.
fn search(
    runtime: &mut SolverRuntime,
    tc1: Vec<BitSet>,
    tc2: Vec<BitSet>,
    pair_idx: usize,
    pairs: &[(usize, usize)],
    not_orig: &Vec<BitSet>,
    Ghost(orig): Ghost<Seq<Set<usize>>>,
    Ghost(stack): Ghost<Seq<State>>,
)
    requires
        tc2@.len() == tc1@.len(),
        not_orig@.len() == tc1@.len(),
        tc1@.len() * tc1@.len() <= usize::MAX,
        within(orig, tc1@.len()),
        transitive(orig),
        table_ok(rows(tc1@), orig, tc1@.len()),
        table_ok(rows(tc2@), orig, tc1@.len()),
        pairs_of(orig, tc1@.len(), pairs@),
        pair_idx <= pairs@.len(),
        forall|p: int| 0 <= p < pair_idx ==> resolved(rows(tc1@), #[trigger] pairs@[p]) && resolved(rows(tc2@), pairs@[p]),
        runtime_ok(*old(runtime), orig, rows(not_orig@), tc1@.len()),
        above_stack(stack, rows(tc1@), rows(tc2@), tc1@.len()),
        !old(runtime).timed_out ==> memo_ok(memo_map(old(runtime).memo@), orig, rows(not_orig@), tc1@.len(),
            old(runtime).best_cost as int, stack),
    ensures
        runtime_ok(*final(runtime), orig, rows(not_orig@), tc1@.len()),
        final(runtime).best_cost <= old(runtime).best_cost,
        final(runtime).timeout_ms == old(runtime).timeout_ms,
        final(runtime).timeout_ms == 0 ==> final(runtime).timed_out == old(runtime).timed_out,
        old(runtime).timed_out ==> final(runtime).timed_out,
        final(runtime).nodes_explored >= old(runtime).nodes_explored,
        final(runtime).nodes_explored >= 1,
        old(runtime).nodes_explored < usize::MAX ==> final(runtime).nodes_explored >= old(runtime).nodes_explored + 1,
        final(runtime).best_cost == old(runtime).best_cost ==> final(runtime).best_tc1 == old(runtime).best_tc1
            && final(runtime).best_tc2 == old(runtime).best_tc2,
        final(runtime).best_cost < old(runtime).best_cost ==> extends(rows(final(runtime).best_tc1@), rows(tc1@))
            && extends(rows(final(runtime).best_tc2@), rows(tc2@)),
        !final(runtime).timed_out ==> memo_ok(memo_map(final(runtime).memo@), orig, rows(not_orig@), tc1@.len(),
            final(runtime).best_cost as int, stack),
        (final(runtime).timeout_ms == 0 || !final(runtime).timed_out) ==> progress_of(*final(runtime)) == run(pairs@, rows(not_orig@), tc1@.len(),
            progress_of(*old(runtime)), rows(tc1@), rows(tc2@), pair_idx as int),
        !final(runtime).timed_out ==> completions_at_least(orig, rows(not_orig@), tc1@.len(),
            rows(tc1@), rows(tc2@), final(runtime).best_cost as int),
        log_ok(*old(runtime), *final(runtime)),
    decreases pairs@.len() - pair_idx,
{
    let ghost n = tc1@.len();
    let ghost no = rows(not_orig@);
    let ghost t1 = rows(tc1@);
    let ghost t2 = rows(tc2@);
    proof {
        assert(n <= usize::MAX) by (nonlinear_arith)
            requires n * n <= usize::MAX;
    }
    let ghost s0 = progress_of(*runtime);
    let ghost target = run(pairs@, no, n, s0, t1, t2, pair_idx as int);
    runtime.nodes_explored = runtime.nodes_explored.saturating_add(1);
    let ghost e = one_more(s0.4);

    let ghost checked = *runtime;
    if runtime.has_timed_out() {
        runtime.timed_out = true;
        proof {
            assert(spent(runtime.timeout_ms, runtime.readings@[checked.readings@.len() as int]));
        }
        return;
    }
    proof {
        assert(log_ok(*old(runtime), *runtime));
    }

    let state_cost = global_cost(&tc1, &tc2, not_orig);
    if state_cost >= runtime.best_cost {
        proof {
            lemma_completions_above_state(orig, no, n, t1, t2);
            assert forall|l1: Seq<Set<usize>>, l2: Seq<Set<usize>>| #[trigger] completion(orig, n, t1, t2, l1, l2)
                implies cost(l1, l2, no, n) >= runtime.best_cost by {}
        }
        return;
    }

    let key = canonical_state_key(&tc1, &tc2);
    proof {
        lemma_state_key(tc1, tc2, key);
        assert(state_cost == cost(t1, t2, no, n));
    }
    if let Some(prev) = memo_get(&runtime.memo, &key) {
        if prev <= state_cost {
            proof {
                if !runtime.timed_out {
                    lemma_memo_hit(memo_map(runtime.memo@), orig, no, n, runtime.best_cost as int, stack,
                        key_view(key), t1, t2);
                }
            }
            return;
        }
    }
    let ghost kv = key_view(key);
    let ghost memo0 = memo_map(runtime.memo@);
    memo_insert(&mut runtime.memo, key, state_cost);
    let ghost inner = stack.push((t1, t2));
    let ghost j = skip(t1, t2, pairs@, pair_idx as int);
    proof {
        lemma_skip_bounds(t1, t2, pairs@, pair_idx as int);
    }
    proof {
        if !runtime.timed_out {
            lemma_memo_push(memo0, orig, no, n, runtime.best_cost as int, stack, kv, state_cost, t1, t2);
        }
    }

    // Skip pairs already resolved in both extensions.
    let mut idx = pair_idx;
    while idx < pairs.len()
        invariant
            pair_idx <= idx <= pairs@.len(),
            forall|p: int| 0 <= p < idx ==> resolved(rows(tc1@), #[trigger] pairs@[p]) && resolved(rows(tc2@), pairs@[p]),
            pairs_of(orig, n, pairs@),
            n == tc1@.len(),
            n == tc2@.len(),
            t1 == rows(tc1@),
            t2 == rows(tc2@),
            skip(t1, t2, pairs@, idx as int) == j,
        ensures
            idx == j,
            pair_idx <= idx <= pairs@.len(),
            forall|p: int| 0 <= p < idx ==> resolved(rows(tc1@), #[trigger] pairs@[p]) && resolved(rows(tc2@), pairs@[p]),
            idx < pairs@.len() ==> !(resolved(rows(tc1@), pairs@[idx as int]) && resolved(rows(tc2@), pairs@[idx as int])),
        decreases pairs@.len() - idx,
    {
        let (u, v) = pairs[idx];
        proof {
            assert(pairs@[idx as int] == (u, v));
            assert(u < v < n);
        }
        if (bs_contains(&tc1[u], v) || bs_contains(&tc1[v], u)) && (bs_contains(&tc2[u], v) || bs_contains(&tc2[v], u)) {
            proof {
                assert(resolved(t1, pairs@[idx as int]) && resolved(t2, pairs@[idx as int]));
            }
            idx += 1;
        } else {
            break;
        }
    }

    if idx == pairs.len() {
        proof {
            lemma_leaf_linear(rows(tc1@), orig, n, pairs@);
            lemma_leaf_linear(rows(tc2@), orig, n, pairs@);
            lemma_completions_above_state(orig, no, n, t1, t2);
            if !runtime.timed_out {
                lemma_memo_ok_lower(memo_map(runtime.memo@), orig, no, n, runtime.best_cost as int, state_cost as int, inner);
                lemma_memo_pop(memo_map(runtime.memo@), orig, no, n, state_cost as int, stack, t1, t2);
            }
        }
        runtime.best_cost = state_cost;
        runtime.best_tc1 = tc1;
        runtime.best_tc2 = tc2;
        return;
    }

    let (u, v) = pairs[idx];
    proof {
        assert(pairs@[idx as int] == (u, v));
        assert(u < v < n);
    }
    // Branching order: incomparable-first (u<v in L1, v<u in L2),
    // then both-same (forced agreements). This ordering matters for pruning quality.
    let choices: [(usize, usize, usize, usize); 4] = [
        (u, v, v, u),
        (v, u, u, v),
        (u, v, u, v),
        (v, u, v, u),
    ];

    let next_idx = idx + 1;
    let mut c: usize = 0;
    proof {
        assert(choices@ == choices_of(u, v));
        assert(progress_of(*runtime) == (s0.0, s0.1, s0.2, s0.3.insert(key_of_tables(t1, t2), state_cost), e));
    }
    while c < 4
        invariant
            pair_idx <= idx,
            next_idx == idx + 1,
            n == tc1@.len(),
            n == tc2@.len(),
            n == not_orig@.len(),
            n * n <= usize::MAX,
            no == rows(not_orig@),
            t1 == rows(tc1@),
            t2 == rows(tc2@),
            inner == stack.push((t1, t2)),
            j == idx,
            target == run(pairs@, no, n, s0, t1, t2, pair_idx as int),
            (runtime.timeout_ms == 0 || !runtime.timed_out) ==> run_choices(pairs@, no, n, progress_of(*runtime), t1, t2, idx as int, c as int) == target,
            within(orig, n),
            transitive(orig),
            table_ok(rows(tc1@), orig, n),
            table_ok(rows(tc2@), orig, n),
            pairs_of(orig, n, pairs@),
            idx < pairs@.len(),
            pairs@[idx as int] == (u, v),
            u < v < n,
            !(resolved(t1, (u, v)) && resolved(t2, (u, v))),
            choices@ == seq![(u, v, v, u), (v, u, u, v), (u, v, u, v), (v, u, v, u)],
            forall|p: int| 0 <= p < idx ==> resolved(rows(tc1@), #[trigger] pairs@[p]) && resolved(rows(tc2@), pairs@[p]),
            above_stack(stack, t1, t2, n),
            runtime_ok(*runtime, orig, rows(not_orig@), n),
            runtime.best_cost <= old(runtime).best_cost,
            runtime.timeout_ms == old(runtime).timeout_ms,
            runtime.timeout_ms == 0 ==> runtime.timed_out == old(runtime).timed_out,
            old(runtime).timed_out ==> runtime.timed_out,
            runtime.nodes_explored >= old(runtime).nodes_explored,
            runtime.nodes_explored >= 1,
            old(runtime).nodes_explored < usize::MAX ==> runtime.nodes_explored >= old(runtime).nodes_explored + 1,
            runtime.best_cost == old(runtime).best_cost ==> runtime.best_tc1 == old(runtime).best_tc1
                && runtime.best_tc2 == old(runtime).best_tc2,
            runtime.best_cost < old(runtime).best_cost ==> extends(rows(runtime.best_tc1@), t1)
                && extends(rows(runtime.best_tc2@), t2),
            !runtime.timed_out ==> memo_ok(memo_map(runtime.memo@), orig, no, n, runtime.best_cost as int, inner),
            !runtime.timed_out ==> forall|k: int, l1: Seq<Set<usize>>, l2: Seq<Set<usize>>|
                #![trigger completion(orig, n, t1, t2, l1, l2), oriented(l1, l2, choices@[k])]
                0 <= k < c && completion(orig, n, t1, t2, l1, l2) && oriented(l1, l2, choices@[k])
                ==> cost(l1, l2, no, n) >= runtime.best_cost,
            c <= 4,
            log_ok(*old(runtime), *runtime),
        decreases 4 - c,
    {
        let (u1, v1, u2, v2) = choices[c];
        let ghost k = c as int;
        assert(choices@[k] == (u1, v1, u2, v2));
        let ghost before = runtime.best_cost;
        let ghost p0 = progress_of(*runtime);
        c = c + 1;
        let ghost checked = *runtime;
        if runtime.has_timed_out() {
            runtime.timed_out = true;
            proof {
                assert(spent(runtime.timeout_ms, runtime.readings@[checked.readings@.len() as int]));
                lemma_log_trans(*old(runtime), checked, *runtime);
            }
            return;
        }
        proof {
            lemma_log_trans(*old(runtime), checked, *runtime);
        }

        let next_tc1 = match add_edge_logic(&tc1, u1, v1) {
            Some(t) => t,
            None => {
                proof {
                    if !runtime.timed_out {
                        assert forall|kk: int, l1: Seq<Set<usize>>, l2: Seq<Set<usize>>|
                            #![trigger completion(orig, n, t1, t2, l1, l2), oriented(l1, l2, choices@[kk])]
                            0 <= kk < c && completion(orig, n, t1, t2, l1, l2) && oriented(l1, l2, choices@[kk])
                            implies cost(l1, l2, no, n) >= runtime.best_cost by {
                            if kk == k {
                                lemma_completion_needs_strict(orig, n, t1, t2, l1, l2);
                                lemma_step_keeps_completion(t1, l1, u1, v1, t1, n);
                            }
                        }
                    }
                }
                continue;
            },
        };
        let next_tc2 = match add_edge_logic(&tc2, u2, v2) {
            Some(t) => t,
            None => {
                proof {
                    if !runtime.timed_out {
                        assert forall|kk: int, l1: Seq<Set<usize>>, l2: Seq<Set<usize>>|
                            #![trigger completion(orig, n, t1, t2, l1, l2), oriented(l1, l2, choices@[kk])]
                            0 <= kk < c && completion(orig, n, t1, t2, l1, l2) && oriented(l1, l2, choices@[kk])
                            implies cost(l1, l2, no, n) >= runtime.best_cost by {
                            if kk == k {
                                lemma_completion_needs_strict(orig, n, t1, t2, l1, l2);
                                lemma_step_keeps_completion(t2, l2, u2, v2, t2, n);
                            }
                        }
                    }
                }
                continue;
            },
        };
        let ghost s1 = rows(next_tc1@);
        let ghost s2 = rows(next_tc2@);
        proof {
            lemma_step_table(rows(tc1@), orig, n, u1, v1, s1);
            lemma_step_table(rows(tc2@), orig, n, u2, v2, s2);
            assert forall|p: int| 0 <= p < idx + 1 implies resolved(rows(next_tc1@), #[trigger] pairs@[p])
                && resolved(rows(next_tc2@), pairs@[p]) by {
                if p < idx {
                    assert(resolved(rows(tc1@), pairs@[p]) && resolved(rows(tc2@), pairs@[p]));
                }
            }
            assert((s1, s2) != (t1, t2)) by {
                if s1 == t1 && s2 == t2 {
                    assert(rel(s1, u1, v1) && rel(s2, u2, v2));
                    assert(resolved(t1, (u, v)) && resolved(t2, (u, v)));
                }
            }
            assert(n <= usize::MAX) by (nonlinear_arith)
                requires n * n <= usize::MAX;
            lemma_push_stack(stack, t1, t2, s1, s2, n);
        }
        let ghost before_call = *runtime;
        search(runtime, next_tc1, next_tc2, next_idx, pairs, not_orig, Ghost(orig), Ghost(inner));
        proof {
            lemma_log_trans(*old(runtime), before_call, *runtime);
            assert(step(t1, u1, v1) == Some(s1) && step(t2, u2, v2) == Some(s2));
            if runtime.best_cost < before_call.best_cost {
                lemma_extends_transitive(rows(runtime.best_tc1@), s1, t1);
                lemma_extends_transitive(rows(runtime.best_tc2@), s2, t2);
            }
            if !runtime.timed_out {
                assert forall|kk: int, l1: Seq<Set<usize>>, l2: Seq<Set<usize>>|
                    #![trigger completion(orig, n, t1, t2, l1, l2), oriented(l1, l2, choices@[kk])]
                    0 <= kk < c && completion(orig, n, t1, t2, l1, l2) && oriented(l1, l2, choices@[kk])
                    implies cost(l1, l2, no, n) >= runtime.best_cost by {
                    if kk == k {
                        lemma_completion_needs_strict(orig, n, t1, t2, l1, l2);
                        lemma_step_keeps_completion(t1, l1, u1, v1, s1, n);
                        lemma_step_keeps_completion(t2, l2, u2, v2, s2, n);
                        assert(completion(orig, n, s1, s2, l1, l2));
                    }
                }
            }
        }
    }
    proof {
        if !runtime.timed_out {
            assert forall|l1: Seq<Set<usize>>, l2: Seq<Set<usize>>| #[trigger] completion(orig, n, t1, t2, l1, l2)
                implies cost(l1, l2, no, n) >= runtime.best_cost by {
                lemma_four_choices(orig, n, t1, t2, l1, l2, u, v, choices@);
                let kk = choose|kk: int| 0 <= kk < 4 && oriented(l1, l2, #[trigger] choices@[kk]);
            }
            lemma_memo_pop(memo_map(runtime.memo@), orig, no, n, runtime.best_cost as int, stack, t1, t2);
        }
    }
}


/// What the search keeps between its steps: the best cost, the best pair of
/// tables, the costs recorded per state key, and the number of nodes explored.
pub type Progress = (u64, Seq<Set<usize>>, Seq<Set<usize>>, Map<(Seq<Seq<usize>>, Seq<Seq<usize>>), u64>, usize);

/// The ascending list of a set's values.
pub open spec fn row_list(s: Set<usize>) -> Seq<usize> {
    choose|l: Seq<usize>| lists_ascending(l, s)
}

/// The state key of a pair of tables: their rows as ascending lists, the
/// lexicographically smaller table first.
pub open spec fn key_of_tables(t1: Seq<Set<usize>>, t2: Seq<Set<usize>>) -> (Seq<Seq<usize>>, Seq<Seq<usize>>) {
    ordered_pair(Seq::new(t1.len(), |i: int| row_list(t1[i])), Seq::new(t2.len(), |i: int| row_list(t2[i])))
}

/// Ordering `u < v` in a table, as `add_edge_logic` does it.
pub open spec fn step(t: Seq<Set<usize>>, u: usize, v: usize) -> Option<Seq<Set<usize>>> {
    if u == v {
        None
    } else if rel(t, u, v) {
        Some(t)
    } else if rel(t, v, u) {
        None
    } else {
        Some(with_edge(t, u, v))
    }
}

/// The first pair from `i` on that is not ordered in both tables, or the
/// number of pairs when there is none.
pub open spec fn skip(t1: Seq<Set<usize>>, t2: Seq<Set<usize>>, pairs: Seq<(usize, usize)>, i: int) -> int
    decreases pairs.len() - i,
{
    if i < 0 || i >= pairs.len() {
        pairs.len() as int
    } else if resolved(t1, pairs[i]) && resolved(t2, pairs[i]) {
        skip(t1, t2, pairs, i + 1)
    } else {
        i
    }
}

/// `skip` stays between its start and the number of pairs.
pub proof fn lemma_skip_bounds(t1: Seq<Set<usize>>, t2: Seq<Set<usize>>, pairs: Seq<(usize, usize)>, i: int)
    requires
        0 <= i,
    ensures
        i <= skip(t1, t2, pairs, i) <= pairs.len() || (i > pairs.len() && skip(t1, t2, pairs, i) == pairs.len()),
    decreases pairs.len() - i,
{
    if i < pairs.len() && resolved(t1, pairs[i]) && resolved(t2, pairs[i]) {
        lemma_skip_bounds(t1, t2, pairs, i + 1);
    }
}

/// The four ways of ordering the pair `(u, v)` in the two tables, in the
/// order the search tries them.
pub open spec fn choices_of(u: usize, v: usize) -> Seq<(usize, usize, usize, usize)> {
    seq![(u, v, v, u), (v, u, u, v), (u, v, u, v), (v, u, v, u)]
}

/// The count of nodes explored after one more.
pub open spec fn one_more(e: usize) -> usize {
    if e + 1 > usize::MAX { e } else { (e + 1) as usize }
}

/// What the search with an unbounded budget leaves, started from progress
/// `s` at the state `(t1, t2)` and pair index `idx`: it counts the node,
/// stops when the state costs at least the best or its key is recorded at
/// no higher cost, records the key, and then either takes the state as the
/// new best (every pair ordered in both) or tries the four orders of the
/// next unordered pair in turn.
pub open spec fn run(pairs: Seq<(usize, usize)>, no: Seq<Set<usize>>, n: nat, s: Progress,
    t1: Seq<Set<usize>>, t2: Seq<Set<usize>>, idx: int) -> Progress
    decreases pairs.len() - idx, 5int,
{
    let e = one_more(s.4);
    let c = cost(t1, t2, no, n);
    if idx < 0 || idx > pairs.len() {
        s
    } else if c >= s.0 {
        (s.0, s.1, s.2, s.3, e)
    } else if s.3.contains_key(key_of_tables(t1, t2)) && s.3[key_of_tables(t1, t2)] <= c {
        (s.0, s.1, s.2, s.3, e)
    } else {
        let m = s.3.insert(key_of_tables(t1, t2), c as u64);
        let j = skip(t1, t2, pairs, idx);
        proof {
            lemma_skip_bounds(t1, t2, pairs, idx);
        }
        if j >= pairs.len() {
            (c as u64, t1, t2, m, e)
        } else {
            run_choices(pairs, no, n, (s.0, s.1, s.2, m, e), t1, t2, j, 0)
        }
    }
}

/// The search's tries of the orders of pair `j` from the `c`-th on.
pub open spec fn run_choices(pairs: Seq<(usize, usize)>, no: Seq<Set<usize>>, n: nat, s: Progress,
    t1: Seq<Set<usize>>, t2: Seq<Set<usize>>, j: int, c: int) -> Progress
    decreases pairs.len() - j, 4 - c,
{
    if c < 0 || c >= 4 || j < 0 || j >= pairs.len() {
        s
    } else {
        let ch = choices_of(pairs[j].0, pairs[j].1)[c];
        let s2 = match (step(t1, ch.0, ch.1), step(t2, ch.2, ch.3)) {
            (Some(a), Some(b)) => run(pairs, no, n, s, a, b, j + 1),
            _ => s,
        };
        run_choices(pairs, no, n, s2, t1, t2, j, c + 1)
    }
}

/// Two lists of pairs, each strictly sorted by `pair_before` and holding
/// the same pairs, are equal.
proof fn lemma_pairs_unique(r: Seq<Set<usize>>, s1: Seq<(usize, usize)>, s2: Seq<(usize, usize)>)
    requires
        forall|i: int, j: int| 0 <= i < j < s1.len() ==> pair_before(r, s1[i], s1[j]),
        forall|i: int, j: int| 0 <= i < j < s2.len() ==> pair_before(r, s2[i], s2[j]),
        forall|x: (usize, usize)| s1.contains(x) <==> s2.contains(x),
    ensures
        s1 == s2,
    decreases s1.len(),
{
    if s1.len() == 0 {
        if s2.len() > 0 {
            assert(s2.contains(s2[0]));
        }
        assert(s1 =~= s2);
    } else {
        assert(s1.contains(s1[0]));
        assert(s2.contains(s2[0]));
        let p = choose|p: int| 0 <= p < s2.len() && s2[p] == s1[0];
        let q = choose|q: int| 0 <= q < s1.len() && s1[q] == s2[0];
        if p > 0 && q > 0 {
            assert(pair_before(r, s2[0], s2[p]));
            assert(pair_before(r, s1[0], s1[q]));
            assert(false);
        } else if p > 0 {
            assert(s1[0] == s2[0]);
        }
        assert(s1[0] == s2[0]);
        let t1 = s1.drop_first();
        let t2 = s2.drop_first();
        assert forall|x: (usize, usize)| t1.contains(x) <==> t2.contains(x) by {
            if t1.contains(x) {
                let i = choose|i: int| 0 <= i < t1.len() && t1[i] == x;
                assert(s1[i + 1] == x);
                assert(s2.contains(x));
                let k = choose|k: int| 0 <= k < s2.len() && s2[k] == x;
                assert(pair_before(r, s1[0], s1[i + 1]));
                if k == 0 {
                    assert(false);
                }
                assert(t2[k - 1] == x);
            }
            if t2.contains(x) {
                let i = choose|i: int| 0 <= i < t2.len() && t2[i] == x;
                assert(s2[i + 1] == x);
                assert(s1.contains(x));
                let k = choose|k: int| 0 <= k < s1.len() && s1[k] == x;
                assert(pair_before(r, s2[0], s2[i + 1]));
                if k == 0 {
                    assert(false);
                }
                assert(t1[k - 1] == x);
            }
        }
        lemma_pairs_unique(r, t1, t2);
        assert(s1 =~= s2) by {
            assert forall|i: int| 0 <= i < s1.len() implies s1[i] == s2[i] by {
                if i > 0 {
                    assert(s1[i] == t1[i - 1]);
                    assert(s2[i] == t2[i - 1]);
                }
            }
        }
    }
}

/// The position of node `i` in a linear order: the number of nodes below it.
pub open spec fn position(r: Seq<Set<usize>>, n: nat, i: int) -> int {
    if r[i].len() >= n { 0 } else { n - 1 - r[i].len() }
}

/// The grid point of node `i`: `(p1 - p2, -(p1 + p2))`.
pub open spec fn point(r1: Seq<Set<usize>>, r2: Seq<Set<usize>>, n: nat, i: int) -> (int, int) {
    (position(r1, n, i) - position(r2, n, i), -(position(r1, n, i) + position(r2, n, i)))
}

/// For each node, the nodes not above it in `c`.
pub open spec fn unforced(c: Seq<Set<usize>>, n: nat) -> Seq<Set<usize>> {
    Seq::new(n, |i: int| below(n as int).difference(c[i]))
}

/// The positions of the nodes in a linear order.
fn positions_from_tc(tc: &Vec<BitSet>) -> (r: Vec<usize>)
    ensures
        r@.len() == tc@.len(),
        forall|i: int| 0 <= i < r@.len() ==> r@[i] == position(rows(tc@), tc@.len(), i),
{
    let n = tc.len();
    let mut r: Vec<usize> = Vec::new();
    let mut i: usize = 0;
    while i < n
        invariant
            n == tc@.len(),
            i <= n,
            r@.len() == i,
            forall|k: int| 0 <= k < i ==> r@[k] == position(rows(tc@), n as nat, k),
        decreases n - i,
    {
        let len = bs_len(&tc[i]);
        let p = if len >= n { 0 } else { n - 1 - len };
        proof {
            assert(rows(tc@)[i as int] == members(tc@[i as int]));
        }
        r.push(p);
        i = i + 1;
    }
    r
}

/// The grid point of each node from its positions in the two orders.
fn project_linear_extensions_to_drawing(tc1: &Vec<BitSet>, tc2: &Vec<BitSet>) -> (r: Vec<(i128, i128)>)
    requires
        tc2@.len() == tc1@.len(),
    ensures
        r@.len() == tc1@.len(),
        forall|i: int| 0 <= i < r@.len() ==> (r@[i].0 as int, r@[i].1 as int) == point(rows(tc1@), rows(tc2@), tc1@.len(), i),
{
    let n = tc1.len();
    let p1 = positions_from_tc(tc1);
    let p2 = positions_from_tc(tc2);
    let mut coordinates: Vec<(i128, i128)> = Vec::new();
    let mut i: usize = 0;
    while i < n
        invariant
            n == tc1@.len(),
            p1@.len() == n,
            p2@.len() == n,
            forall|k: int| 0 <= k < n ==> p1@[k] == position(rows(tc1@), n as nat, k),
            forall|k: int| 0 <= k < n ==> p2@[k] == position(rows(tc2@), n as nat, k),
            i <= n,
            coordinates@.len() == i,
            forall|k: int| 0 <= k < i ==> (coordinates@[k].0 as int, coordinates@[k].1 as int) == point(rows(tc1@), rows(tc2@), n as nat, k),
        decreases n - i,
    {
        let a = p1[i] as i128;
        let b = p2[i] as i128;
        coordinates.push((a - b, -(a + b)));
        i = i + 1;
    }
    coordinates
}

/// The transitive closure of acyclic edges is a strict partial order.
proof fn lemma_closure_strict(c: Seq<Set<usize>>, edges: Seq<(usize, usize)>, n: nat)
    requires
        within(c, n),
        is_transitive_closure(c, edges),
        acyclic(edges),
    ensures
        strict_order(c, n),
{
    let big = choose|big: Set<(usize, usize)>| pairs_transitive(big)
        && (forall|e: int| 0 <= e < edges.len() ==> big.contains(#[trigger] edges[e]))
        && (forall|a: usize| !#[trigger] big.contains((a, a)));
    assert(rel_within(c, big));
    assert forall|a: usize| !#[trigger] rel(c, a, a) by {
        if rel(c, a, a) {
            assert(big.contains((a, a)));
        }
    }
}

/// The transitive closure of the edges on `n` nodes (there is at most one:
/// `lemma_transitive_closure_unique`).
pub open spec fn closure_of(edges: Seq<(usize, usize)>, n: nat) -> Seq<Set<usize>> {
    choose|c: Seq<Set<usize>>| within(c, n) && is_transitive_closure(c, edges)
}

/// The list of pairs that the search works through: each incomparable pair
/// `(u, v)`, `u < v`, of the order `c`, most constrained first.
pub open spec fn is_pair_list(c: Seq<Set<usize>>, n: nat, p: Seq<(usize, usize)>) -> bool {
    &&& forall|i: int| 0 <= i < p.len() ==> (#[trigger] p[i]).0 < p[i].1 < n && incomparable(c, p[i].0, p[i].1)
    &&& forall|u: usize, v: usize| u < v < n && incomparable(c, u, v) ==> p.contains((u, v))
    &&& forall|i: int, j: int| 0 <= i < j < p.len() ==> pair_before(c, p[i], p[j])
}

/// That list (there is exactly one: `lemma_pairs_unique`).
pub open spec fn pair_list(c: Seq<Set<usize>>, n: nat) -> Seq<(usize, usize)> {
    choose|p: Seq<(usize, usize)>| is_pair_list(c, n, p)
}

/// Where a search with an unbounded budget ends on the edges: it starts at
/// the order they generate, with the heuristic's pair as the best, no state
/// recorded and no node explored.
pub open spec fn unbounded_progress(edges: Seq<(usize, usize)>, n: nat) -> Progress {
    let c = closure_of(edges, n);
    let h = heuristic_order(c, n);
    let no = unforced(c, n);
    run(pair_list(c, n), no, n, (cost(h, h, no, n) as u64, h, h, Map::empty(), 0usize), c, c, 0)
}

/// The outcome of the search with an unbounded budget: the drawing of the
/// best pair it ends with, that pair's cost, the heuristic's cost, the
/// number of nodes explored, and no time-out.
pub open spec fn unbounded_outcome(o: SearchOutcome, edges: Seq<(usize, usize)>, n: nat) -> bool {
    let c = closure_of(edges, n);
    let h = heuristic_order(c, n);
    let p = unbounded_progress(edges, n);
    &&& o.coordinates@.len() == n
    &&& forall|i: int| 0 <= i < n ==> (#[trigger] o.coordinates@[i].0 as int, o.coordinates@[i].1 as int) == point(p.1, p.2, n, i)
    &&& o.best_cost == p.0
    &&& o.baseline_cost == cost(h, h, unforced(c, n), n)
    &&& o.explored_nodes == p.4
    &&& !o.timed_out
}

/// The drawing is optimal: no pair of linear extensions of the order that
/// the edges generate has a lower cost than the drawing's best cost.
pub open spec fn optimal_drawing(o: SearchOutcome, edges: Seq<(usize, usize)>, n: nat) -> bool {
    forall|c: Seq<Set<usize>>, l1: Seq<Set<usize>>, l2: Seq<Set<usize>>|
        #![trigger is_transitive_closure(c, edges), linear_extension(l1, c, n), linear_extension(l2, c, n)]
        within(c, n) && is_transitive_closure(c, edges) && linear_extension(l1, c, n) && linear_extension(l2, c, n)
        ==> o.best_cost <= cost(l1, l2, unforced(c, n), n)
}

/// A drawing found for the edges: the grid points come from two orders of
/// the nodes whose cost is at most that of the heuristic's start; for
/// acyclic edges both orders are linear extensions of the poset.
pub open spec fn drawing_found(o: SearchOutcome, edges: Seq<(usize, usize)>, n: nat) -> bool {
    exists|c: Seq<Set<usize>>, l1: Seq<Set<usize>>, l2: Seq<Set<usize>>|
        #![trigger is_transitive_closure(c, edges), within(l1, n), within(l2, n)] {
        &&& within(c, n)
        &&& is_transitive_closure(c, edges)
        &&& within(l1, n)
        &&& within(l2, n)
        &&& o.coordinates@.len() == n
        &&& (forall|i: int| 0 <= i < n ==> (#[trigger] o.coordinates@[i].0 as int, o.coordinates@[i].1 as int) == point(l1, l2, n, i))
        &&& o.best_cost == cost(l1, l2, unforced(c, n), n)
        &&& o.baseline_cost == cost(heuristic_order(c, n), heuristic_order(c, n), unforced(c, n), n)
        &&& o.best_cost <= o.baseline_cost
        &&& (acyclic(edges) ==> linear_extension(l1, c, n) && linear_extension(l2, c, n))
    }
}

impl DimDraw {
    /// Core solver operating directly on a `Poset`: nothing for no node, a
    /// single point for one node, nothing when the covering edges close a
    /// cycle, and otherwise the best drawing found within the budget. A
    /// time-out is reported exactly when one of the elapsed times read from
    /// the clock reached a positive budget; when none did, the drawing is
    /// the one an unbounded search gives, and it is optimal.
    pub fn solve_from_poset<T>(&self, poset: &Poset<T>) -> (r: Option<SearchOutcome>)
        requires
            forall|e: int| 0 <= e < poset.covering_edges@.len() ==> (#[trigger] poset.covering_edges@[e]).0 < poset.nodes@.len()
                && poset.covering_edges@[e].1 < poset.nodes@.len(),
            poset.nodes@.len() * poset.nodes@.len() <= usize::MAX,
        ensures
            poset.nodes@.len() == 0 ==> r is None,
            poset.nodes@.len() == 1 ==> (r matches Some(o) && o.coordinates@ == seq![(0i128, 0i128)]
                && o.best_cost == 0 && o.baseline_cost == 0 && o.explored_nodes == 1 && !o.timed_out),
            poset.nodes@.len() >= 2 ==> (r is None <==> !acyclic(poset.covering_edges@)),
            poset.nodes@.len() >= 1 && acyclic(poset.covering_edges@) ==> r is Some,
            poset.nodes@.len() >= 2 ==> (r matches Some(o) ==> drawing_found(o, poset.covering_edges@, poset.nodes@.len())
                && o.explored_nodes >= 1 && (self.timeout_ms == 0 ==> !o.timed_out)),
            r matches Some(o) ==> (!o.timed_out ==> optimal_drawing(o, poset.covering_edges@, poset.nodes@.len())),
            self.timeout_ms == 0 && poset.nodes@.len() >= 2 && acyclic(poset.covering_edges@)
                ==> (r matches Some(o) && unbounded_outcome(o, poset.covering_edges@, poset.nodes@.len())),
            r matches Some(o) ==> (o.timed_out <==> exists|i: int| 0 <= i < o.elapsed_readings@.len()
                && spent(self.timeout_ms, #[trigger] o.elapsed_readings@[i])),
            r matches Some(o) ==> (self.timeout_ms == 0 ==> o.elapsed_readings@.len() == 0),
            r matches Some(o) ==> (!o.timed_out && poset.nodes@.len() >= 2 && acyclic(poset.covering_edges@)
                ==> unbounded_outcome(o, poset.covering_edges@, poset.nodes@.len())),
    {
        let node_count = poset.nodes.len();
        if node_count == 0 {
            return None;
        }
        if node_count == 1 {
            let coordinates = vec![(0i128, 0i128)];
            proof {
                assert(coordinates@ =~= seq![(0i128, 0i128)]);
            }
            return Some(SearchOutcome {
                coordinates,
                best_cost: 0,
                baseline_cost: 0,
                explored_nodes: 1,
                timed_out: false,
                elapsed_readings: Ghost(Seq::empty()),
            });
        }
        let ghost n = node_count as nat;
        let ghost edges = poset.covering_edges@;
        let tc_orig = match initialize_transitive_closure(node_count, poset.covering_edges.as_slice()) {
            Some(t) => t,
            None => return None,
        };
        let ghost c = rows(tc_orig@);
        let not_orig = precompute_not_orig(&tc_orig, node_count);
        proof {
            assert(rows(not_orig@) =~= unforced(c, n));
            assert(node_count * node_count <= 0xffff_ffff_ffff_ffffnat);
            assert(node_count <= u32::MAX) by (nonlinear_arith)
                requires
                    node_count * node_count <= 0xffff_ffff_ffff_ffffnat,
                    node_count >= 2,
            {}
        }
        let pairs = extract_incomparable_pairs(&tc_orig);
        let (base_tc1, base_tc2, baseline_cost) = heuristic_initial_candidate(&tc_orig, &not_orig);
        proof {
            if strict_order(c, n) {
                lemma_heuristic_is_linear_extension(c, n);
            }
            assert forall|i: int| 0 <= i < n implies (#[trigger] heuristic_order(c, n)[i]).subset_of(below(n as int)) by {}
        }
        let mut runtime = SolverRuntime::new(baseline_cost, base_tc1, base_tc2, self.timeout_ms);
        let start_tc = clone_table(&tc_orig);
        proof {
            assert(extends(c, c));
        }
        proof {
            assert(memo_map(runtime.memo@) =~= Map::empty());
        }
        let ghost init = progress_of(runtime);
        let pair_slice = pairs.as_slice();
        let ghost pl = pair_slice@;
        proof {
            assert(pl == pairs@);
            assert(rows(start_tc@) == c);
        }
        let ghost rt0 = runtime;
        search(&mut runtime, start_tc, tc_orig, 0, pair_slice, &not_orig, Ghost(c), Ghost(Seq::empty()));
        proof {
            assert(rt0.readings@.len() == 0 && !rt0.timed_out);
            if runtime.timed_out {
                let i = choose|i: int| 0 <= i < runtime.readings@.len()
                    && spent(runtime.timeout_ms, #[trigger] runtime.readings@[i]);
            }
            if self.timeout_ms == 0 {
                assert(runtime.readings@ == rt0.readings@);
            }
            assert(log_ok(rt0, runtime));
            assert(runtime.timeout_ms == self.timeout_ms);
            assert(runtime.timed_out <==> exists|i: int| 0 <= i < runtime.readings@.len()
                && spent(self.timeout_ms, #[trigger] runtime.readings@[i]));
        }

        let coordinates = project_linear_extensions_to_drawing(&runtime.best_tc1, &runtime.best_tc2);
        if coordinates.len() != node_count {
            return None;
        }
        proof {
            assert(n <= usize::MAX);
            lemma_cost_bound(rows(runtime.best_tc1@), rows(runtime.best_tc2@), rows(not_orig@), n, n);
            lemma_cost_bound(heuristic_order(c, n), heuristic_order(c, n), unforced(c, n), n, n);
        }
        let outcome = SearchOutcome {
            coordinates,
            best_cost: runtime.best_cost as usize,
            baseline_cost: baseline_cost as usize,
            explored_nodes: runtime.nodes_explored,
            timed_out: runtime.timed_out,
            elapsed_readings: Ghost(runtime.readings@),
        };
        proof {
            if acyclic(edges) {
                lemma_closure_strict(c, edges, n);
            }
            let l1 = rows(runtime.best_tc1@);
            let l2 = rows(runtime.best_tc2@);
            assert(forall|i: int| 0 <= i < n ==> (#[trigger] outcome.coordinates@[i].0 as int, outcome.coordinates@[i].1 as int) == point(l1, l2, n, i));
            assert(is_transitive_closure(c, edges) && within(l1, n) && within(l2, n));
            assert(drawing_found(outcome, edges, n));
            if (self.timeout_ms == 0 || !runtime.timed_out) && acyclic(edges) {
                lemma_transitive_closure_unique(c, closure_of(edges, n), edges, n);
                assert(is_pair_list(c, n, pl));
                let q = pair_list(c, n);
                assert(is_pair_list(c, n, q));
                assert forall|x: (usize, usize)| pl.contains(x) <==> q.contains(x) by {
                    if pl.contains(x) {
                        let i = choose|i: int| 0 <= i < pl.len() && pl[i] == x;
                        assert(pl[i].0 < pl[i].1 < n && incomparable(c, pl[i].0, pl[i].1));
                    }
                    if q.contains(x) {
                        let i = choose|i: int| 0 <= i < q.len() && q[i] == x;
                        assert(q[i].0 < q[i].1 < n && incomparable(c, q[i].0, q[i].1));
                    }
                }
                lemma_pairs_unique(c, pl, q);
                assert(init == (baseline_cost, heuristic_order(c, n), heuristic_order(c, n), Map::<(Seq<Seq<usize>>, Seq<Seq<usize>>), u64>::empty(), 0usize));
                assert(progress_of(runtime) == unbounded_progress(edges, n));
                assert(unbounded_outcome(outcome, edges, n));
            }
            if !runtime.timed_out {
                assert(n <= usize::MAX);
                assert forall|d: Seq<Set<usize>>, m1: Seq<Set<usize>>, m2: Seq<Set<usize>>|
                    #![trigger is_transitive_closure(d, edges), linear_extension(m1, d, n), linear_extension(m2, d, n)]
                    within(d, n) && is_transitive_closure(d, edges) && linear_extension(m1, d, n) && linear_extension(m2, d, n)
                    implies outcome.best_cost <= cost(m1, m2, unforced(d, n), n) by {
                    lemma_transitive_closure_unique(c, d, edges, n);
                    assert(completion(c, n, c, c, m1, m2));
                }
            }
        }
        proof {
            assert(outcome.elapsed_readings@ == runtime.readings@);
            assert(outcome.timed_out <==> exists|i: int| 0 <= i < outcome.elapsed_readings@.len()
                && spent(self.timeout_ms, #[trigger] outcome.elapsed_readings@[i]));
        }
        Some(outcome)
    }

    /// The solver on the poset of a lattice.
    pub fn solve_with_stats<T>(&self, lattice: &Lattice<T>) -> (r: Option<SearchOutcome>)
        requires
            forall|e: int| 0 <= e < lattice.poset.covering_edges@.len() ==> (#[trigger] lattice.poset.covering_edges@[e]).0 < lattice.poset.nodes@.len()
                && lattice.poset.covering_edges@[e].1 < lattice.poset.nodes@.len(),
            lattice.poset.nodes@.len() * lattice.poset.nodes@.len() <= usize::MAX,
        ensures
            lattice.poset.nodes@.len() == 0 ==> r is None,
            lattice.poset.nodes@.len() == 1 ==> (r matches Some(o) && o.coordinates@ == seq![(0i128, 0i128)]
                && o.best_cost == 0 && o.baseline_cost == 0 && o.explored_nodes == 1 && !o.timed_out),
            lattice.poset.nodes@.len() >= 2 ==> (r is None <==> !acyclic(lattice.poset.covering_edges@)),
            lattice.poset.nodes@.len() >= 1 && acyclic(lattice.poset.covering_edges@) ==> r is Some,
            lattice.poset.nodes@.len() >= 2 ==> (r matches Some(o) ==> drawing_found(o, lattice.poset.covering_edges@, lattice.poset.nodes@.len())
                && o.explored_nodes >= 1 && (self.timeout_ms == 0 ==> !o.timed_out)),
            r matches Some(o) ==> (!o.timed_out ==> optimal_drawing(o, lattice.poset.covering_edges@, lattice.poset.nodes@.len())),
            self.timeout_ms == 0 && lattice.poset.nodes@.len() >= 2 && acyclic(lattice.poset.covering_edges@)
                ==> (r matches Some(o) && unbounded_outcome(o, lattice.poset.covering_edges@, lattice.poset.nodes@.len())),
            r matches Some(o) ==> (o.timed_out <==> exists|i: int| 0 <= i < o.elapsed_readings@.len()
                && spent(self.timeout_ms, #[trigger] o.elapsed_readings@[i])),
            r matches Some(o) ==> (self.timeout_ms == 0 ==> o.elapsed_readings@.len() == 0),
            r matches Some(o) ==> (!o.timed_out && lattice.poset.nodes@.len() >= 2 && acyclic(lattice.poset.covering_edges@)
                ==> unbounded_outcome(o, lattice.poset.covering_edges@, lattice.poset.nodes@.len())),
    {
        self.solve_from_poset(&lattice.poset)
    }
}

} // verus!
