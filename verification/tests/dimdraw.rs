use bit_set::BitSet;
use fca::context::FormalContext;
use fca::dimdraw::{extract_incomparable_pairs, global_cost, precompute_not_orig};
use fca::next_closure::index_next_closure_concepts;
use fca::order::{add_edge_logic, initialize_transitive_closure};
use fca::search::{budget_spent, DimDraw, Lattice, Poset, SearchOutcome};
use fca::state_key::{canonical_state_key, memo_get, memo_insert};

/// The "living beings and water" context of Ganter and Wille.
fn living_beings_and_water() -> FormalContext<String> {
    let attributes = [
        "needs water to live",
        "lives in water",
        "lives on land",
        "needs chlorophyll",
        "dicotyledon",
        "monocotyledon",
        "can move",
        "has limbs",
        "breast feeds",
    ];
    let objects: [(&str, &[usize]); 8] = [
        ("fish leech", &[0, 1, 6]),
        ("bream", &[0, 1, 6, 7]),
        ("frog", &[0, 1, 2, 6, 7]),
        ("dog", &[0, 2, 6, 7, 8]),
        ("water weeds", &[0, 1, 3, 5]),
        ("reed", &[0, 1, 2, 3, 5]),
        ("bean", &[0, 2, 3, 4]),
        ("corn", &[0, 2, 3, 5]),
    ];
    let mut ctx = FormalContext::<String>::new();
    for a in attributes {
        ctx.add_attribute(a.to_string(), &BitSet::new());
    }
    for (name, row) in objects {
        ctx.add_object(name.to_string(), &row.iter().copied().collect());
    }
    ctx
}

/// The concept lattice of a context: its concepts, and the covering pairs
/// `(lower, upper)` by inclusion of extents.
fn concept_lattice(ctx: &FormalContext<String>) -> Lattice<(BitSet, BitSet)> {
    let nodes = index_next_closure_concepts(ctx);
    let below = |i: usize, j: usize| i != j && nodes[i].0.is_subset(&nodes[j].0);
    let mut covering_edges = Vec::new();
    for i in 0..nodes.len() {
        for j in 0..nodes.len() {
            if below(i, j) && !(0..nodes.len()).any(|k| below(i, k) && below(k, j)) {
                covering_edges.push((i, j));
            }
        }
    }
    Lattice { poset: Poset { nodes, covering_edges } }
}

fn living_beings_lattice() -> Lattice<(BitSet, BitSet)> {
    concept_lattice(&living_beings_and_water())
}

/// The two positions of each node, read back from its coordinates.
fn positions(outcome: &SearchOutcome) -> Vec<(i128, i128)> {
    outcome.coordinates.iter().map(|&(x, y)| ((x - y) / 2, (-y - x) / 2)).collect()
}

fn diamond() -> Poset<usize> {
    Poset { nodes: vec![0, 1, 2, 3], covering_edges: vec![(0, 1), (0, 2), (1, 3), (2, 3)] }
}

#[test]
fn test_dimdraw_timeout_returns_coordinate_per_node() {
    let lattice = living_beings_lattice();
    assert_eq!(lattice.poset.nodes.len(), 19);
    let out = DimDraw { timeout_ms: 1 }
        .solve_with_stats(&lattice)
        .expect("DimDraw should return an outcome");
    assert_eq!(out.coordinates.len(), lattice.poset.nodes.len());
}

#[test]
fn test_dimdraw_result_cost_not_worse_than_initial_baseline() {
    let lattice = living_beings_lattice();
    let out = DimDraw { timeout_ms: 1 }
        .solve_with_stats(&lattice)
        .expect("DimDraw should return an outcome");
    assert!(
        out.best_cost <= out.baseline_cost,
        "best cost {} should be <= baseline {}",
        out.best_cost,
        out.baseline_cost
    );
}

#[test]
fn test_dimdraw_larger_budget_explores_at_least_as_much() {
    let lattice = living_beings_lattice();
    let short = DimDraw { timeout_ms: 1 }
        .solve_with_stats(&lattice)
        .expect("short run should produce outcome");
    let long = DimDraw { timeout_ms: 50 }
        .solve_with_stats(&lattice)
        .expect("long run should produce outcome");
    assert!(
        long.explored_nodes >= short.explored_nodes,
        "expected longer budget to explore at least as much (short={}, long={})",
        short.explored_nodes,
        long.explored_nodes
    );
}

#[test]
fn test_dimdraw_draw_returns_some_on_valid_lattice() {
    let lattice = living_beings_lattice();
    let drawing = DimDraw { timeout_ms: 10 }.solve_with_stats(&lattice);
    assert!(drawing.is_some());
}

#[test]
fn living_beings_positions_are_two_linear_extensions() {
    let lattice = living_beings_lattice();
    let out = DimDraw { timeout_ms: 20 }.solve_with_stats(&lattice).unwrap();
    let n = lattice.poset.nodes.len() as i128;
    let pos = positions(&out);
    for k in 0..2 {
        let mut seen: Vec<i128> = pos.iter().map(|p| if k == 0 { p.0 } else { p.1 }).collect();
        seen.sort();
        assert_eq!(seen, (0..n).collect::<Vec<_>>());
    }
    for &(lower, upper) in &lattice.poset.covering_edges {
        assert!(pos[lower].0 < pos[upper].0);
        assert!(pos[lower].1 < pos[upper].1);
    }
}

#[test]
fn dimdraw_draws_the_diamond_without_forced_agreements() {
    let out = DimDraw { timeout_ms: 0 }.solve_from_poset(&diamond()).unwrap();
    assert_eq!(out.best_cost, 0);
    assert!(!out.timed_out);
    assert!(out.explored_nodes >= 1);
    let pos = positions(&out);
    assert_eq!((pos[0], pos[3]), ((0, 0), (3, 3)));
    // 1 and 2 are incomparable: they swap places between the two orders
    assert!((pos[1].0 < pos[2].0) != (pos[1].1 < pos[2].1));
}

#[test]
fn dimdraw_draws_a_chain_on_one_line() {
    let chain = Poset { nodes: vec!['a', 'b', 'c'], covering_edges: vec![(0, 1), (1, 2)] };
    let out = DimDraw { timeout_ms: 0 }.solve_from_poset(&chain).unwrap();
    assert_eq!(out.coordinates, vec![(0, 0), (0, -2), (0, -4)]);
    assert_eq!((out.best_cost, out.baseline_cost), (0, 0));
}

#[test]
fn dimdraw_edge_cases() {
    let empty: Poset<u8> = Poset { nodes: vec![], covering_edges: vec![] };
    assert!(DimDraw { timeout_ms: 0 }.solve_from_poset(&empty).is_none());
    let single = Poset { nodes: vec![7u8], covering_edges: vec![] };
    let out = DimDraw { timeout_ms: 0 }.solve_from_poset(&single).unwrap();
    assert_eq!(out.coordinates, vec![(0, 0)]);
    assert_eq!((out.best_cost, out.baseline_cost, out.explored_nodes, out.timed_out), (0, 0, 1, false));
    let cycle = Poset { nodes: vec![0u8, 1], covering_edges: vec![(0, 1), (1, 0)] };
    assert!(DimDraw { timeout_ms: 0 }.solve_from_poset(&cycle).is_none());
}

#[test]
fn transitive_closure_and_incomparable_pairs_of_the_diamond() {
    let d = diamond();
    let tc = initialize_transitive_closure(4, &d.covering_edges).unwrap();
    let rows: Vec<Vec<usize>> = tc.iter().map(|r| r.iter().collect()).collect();
    assert_eq!(rows, vec![vec![1, 2, 3], vec![3], vec![3], vec![]]);
    assert_eq!(extract_incomparable_pairs(&tc), vec![(1, 2)]);
    assert!(initialize_transitive_closure(3, &[(0, 1), (1, 2), (2, 0)]).is_none());
}

#[test]
fn incomparable_pairs_come_most_constrained_first() {
    // 0 < 1, and 2, 3 unrelated to anything: degrees 0:2, 1:2, 2:3, 3:3
    let tc = initialize_transitive_closure(4, &[(0, 1)]).unwrap();
    assert_eq!(extract_incomparable_pairs(&tc), vec![(2, 3), (0, 2), (0, 3), (1, 2), (1, 3)]);
}

#[test]
fn add_edge_keeps_refuses_or_closes() {
    let tc = initialize_transitive_closure(3, &[(0, 1)]).unwrap();
    // already ordered: unchanged
    assert_eq!(add_edge_logic(&tc, 0, 1), Some(tc.clone()));
    // against the order: a cycle
    assert_eq!(add_edge_logic(&tc, 1, 0), None);
    // 1 < 2 also puts 0 below 2
    let closed = add_edge_logic(&tc, 1, 2).unwrap();
    let rows: Vec<Vec<usize>> = closed.iter().map(|r| r.iter().collect()).collect();
    assert_eq!(rows, vec![vec![1, 2], vec![2], vec![]]);
}

#[test]
fn global_cost_counts_forced_agreements() {
    // two unrelated nodes placed in the same order twice: one forced agreement
    let tc_orig = vec![BitSet::new(), BitSet::new()];
    let not_orig = precompute_not_orig(&tc_orig, 2);
    let order = vec![[1usize].into_iter().collect::<BitSet>(), BitSet::new()];
    assert_eq!(global_cost(&order, &order, &not_orig), 1);
    let reversed = vec![BitSet::new(), [0usize].into_iter().collect::<BitSet>()];
    assert_eq!(global_cost(&order, &reversed, &not_orig), 0);
    // more edges never lower the cost, and the two tables may be swapped
    let three_not_orig = precompute_not_orig(&vec![BitSet::new(), BitSet::new(), BitSet::new()], 3);
    let small = vec![[1usize].into_iter().collect::<BitSet>(), BitSet::new(), BitSet::new()];
    let large = vec![[1usize, 2].into_iter().collect::<BitSet>(), [2usize].into_iter().collect::<BitSet>(), BitSet::new()];
    assert_eq!(global_cost(&small, &large, &three_not_orig), 1);
    assert_eq!(global_cost(&large, &small, &three_not_orig), 1);
    assert_eq!(global_cost(&large, &large, &three_not_orig), 3);
}

/// All orders of `0..n` (as node lists, lowest first) that extend the relation `below`.
fn linear_extensions(n: usize, below: &dyn Fn(usize, usize) -> bool) -> Vec<Vec<usize>> {
    fn extend(prefix: &mut Vec<usize>, n: usize, below: &dyn Fn(usize, usize) -> bool, out: &mut Vec<Vec<usize>>) {
        if prefix.len() == n {
            out.push(prefix.clone());
            return;
        }
        for x in 0..n {
            if !prefix.contains(&x) && (0..n).all(|y| !below(y, x) || prefix.contains(&y)) {
                prefix.push(x);
                extend(prefix, n, below, out);
                prefix.pop();
            }
        }
    }
    let mut out = Vec::new();
    extend(&mut Vec::new(), n, below, &mut out);
    out
}

#[test]
fn unbounded_search_is_optimal_on_the_standard_example() {
    // a_i < b_j exactly when i != j: a poset of order dimension 3
    let mut edges = Vec::new();
    for i in 0..3 {
        for j in 0..3 {
            if i != j {
                edges.push((i, 3 + j));
            }
        }
    }
    let poset = Poset { nodes: (0..6).collect::<Vec<usize>>(), covering_edges: edges.clone() };
    let below = |x: usize, y: usize| edges.contains(&(x, y));
    let orders = linear_extensions(6, &below);
    let after = |order: &Vec<usize>, x: usize, y: usize| {
        order.iter().position(|&z| z == x) < order.iter().position(|&z| z == y)
    };
    let mut best = usize::MAX;
    for l1 in &orders {
        for l2 in &orders {
            let mut c = 0;
            for x in 0..6 {
                for y in 0..6 {
                    if x != y && after(l1, x, y) && after(l2, x, y) && !below(x, y) {
                        c += 1;
                    }
                }
            }
            best = best.min(c);
        }
    }
    assert!(best > 0);
    let out = DimDraw { timeout_ms: 0 }.solve_from_poset(&poset).unwrap();
    assert_eq!(out.best_cost, best);
    assert!(out.best_cost <= out.baseline_cost);
    // a positive budget that does not run out gives the optimum as well
    let out = DimDraw { timeout_ms: 60_000 }.solve_from_poset(&poset).unwrap();
    assert!(!out.timed_out);
    assert_eq!(out.best_cost, best);
}

#[test]
fn a_self_loop_is_a_cycle() {
    let tc = initialize_transitive_closure(2, &[(0, 1)]).unwrap();
    assert_eq!(add_edge_logic(&tc, 0, 0), None);
    assert_eq!(add_edge_logic(&tc, 1, 1), None);
    assert!(initialize_transitive_closure(2, &[(0, 0)]).is_none());
    let poset = Poset { nodes: vec![0u8, 1], covering_edges: vec![(0, 1), (1, 1)] };
    assert!(DimDraw { timeout_ms: 0 }.solve_from_poset(&poset).is_none());
}

#[test]
fn state_keys_ignore_the_order_of_the_tables() {
    let a = initialize_transitive_closure(3, &[(0, 1)]).unwrap();
    let b = initialize_transitive_closure(3, &[(2, 1), (1, 0)]).unwrap();
    let k1 = canonical_state_key(&a, &b);
    let k2 = canonical_state_key(&b, &a);
    assert_eq!(k1, k2);
    // rows as ascending lists, the lexicographically smaller table first ([] < [1])
    assert_eq!(k1.0, vec![vec![], vec![0], vec![0, 1]]);
    assert_eq!(k1.1, vec![vec![1], vec![], vec![]]);
    let mut memo = Vec::new();
    assert_eq!(memo_get(&memo, &k1), None);
    memo_insert(&mut memo, k1.clone(), 5);
    memo_insert(&mut memo, canonical_state_key(&a, &a), 2);
    assert_eq!(memo_get(&memo, &k2), Some(5));
    memo_insert(&mut memo, k2.clone(), 3);
    assert_eq!(memo_get(&memo, &k1), Some(3));
}

#[test]
fn budget_is_spent_once_the_elapsed_milliseconds_reach_it() {
    assert!(!budget_spent(0, 0));
    assert!(!budget_spent(0, u128::MAX));
    assert!(!budget_spent(5, 4));
    assert!(budget_spent(5, 5));
    assert!(budget_spent(1, 1000));
}

fn same_outcome(a: &SearchOutcome, b: &SearchOutcome) -> bool {
    a.coordinates == b.coordinates
        && a.best_cost == b.best_cost
        && a.baseline_cost == b.baseline_cost
        && a.explored_nodes == b.explored_nodes
        && a.timed_out == b.timed_out
}

#[test]
fn unbounded_searches_agree_and_the_lattice_solver_forwards() {
    let lattice = living_beings_lattice();
    let solver = DimDraw { timeout_ms: 0 };
    let first = solver.solve_from_poset(&lattice.poset).unwrap();
    let second = solver.solve_from_poset(&lattice.poset).unwrap();
    let via_lattice = solver.solve_with_stats(&lattice).unwrap();
    assert!(same_outcome(&first, &second));
    assert!(same_outcome(&first, &via_lattice));
    assert!(!first.timed_out);
}
