use bit_set::BitSet;
use fca::context::FormalContext;
use fca::exploration::{attribute_names, attributes_named, implication_hull, index_next_preclosure, Exploration};

fn set(xs: &[usize]) -> BitSet {
    xs.iter().copied().collect()
}

fn context_abc() -> FormalContext<String> {
    let mut ctx = FormalContext::<String>::new();
    for name in ["a", "b", "c"] {
        ctx.add_attribute(name.to_string(), &BitSet::new());
    }
    ctx
}

/// Runs an exploration in which the expert knows the objects of `universe`:
/// an implication is accepted when every object of the universe that has the
/// premise also has the conclusion, and otherwise the first object that does
/// not is given as the counterexample. Returns the questions asked and the
/// basis found.
fn explore(ctx: &mut FormalContext<String>, universe: &[(&str, BitSet)]) -> (Vec<(BitSet, BitSet)>, Vec<(BitSet, BitSet)>) {
    let mut exploration = Exploration::new(ctx);
    let mut questions = Vec::new();
    while let Some((premise, conclusion)) = exploration.next_question(ctx) {
        questions.push((premise.clone(), conclusion.clone()));
        let refuter = universe
            .iter()
            .find(|(_, intent)| premise.is_subset(intent) && !conclusion.is_subset(intent));
        match refuter {
            None => exploration.accept(ctx),
            Some((name, intent)) => exploration.add_counterexample(ctx, name.to_string(), intent),
        }
    }
    (questions, exploration.basis)
}

#[test]
fn exploration_with_common_attribute_finds_one_implication() {
    let mut ctx = context_abc();
    let universe = [("u1", set(&[0, 1])), ("u2", set(&[1, 2])), ("u3", set(&[1]))];
    let (questions, basis) = explore(&mut ctx, &universe);
    assert_eq!(
        questions,
        vec![(set(&[]), set(&[0, 1, 2])), (set(&[]), set(&[0, 1])), (set(&[]), set(&[1]))]
    );
    assert_eq!(basis, vec![(set(&[]), set(&[1]))]);
    assert_eq!(ctx.objects, vec!["u1".to_string(), "u2".to_string()]);
}

#[test]
fn exploration_finds_the_canonical_basis() {
    // a and b always come together
    let mut ctx = context_abc();
    let universe = [("ab", set(&[0, 1])), ("c", set(&[2])), ("none", set(&[]))];
    let (questions, basis) = explore(&mut ctx, &universe);
    assert_eq!(
        questions,
        vec![
            (set(&[]), set(&[0, 1, 2])),
            (set(&[]), set(&[0, 1])),
            (set(&[1]), set(&[0])),
            (set(&[0]), set(&[1])),
        ]
    );
    assert_eq!(basis, vec![(set(&[1]), set(&[0, 1])), (set(&[0]), set(&[0, 1]))]);
    assert_eq!(ctx.objects.len(), 2);
    // the counterexamples respected the accepted implications, which still hold
    for (premise, conclusion) in &basis {
        assert!(conclusion.is_subset(&ctx.index_attribute_hull(premise)));
    }
}

#[test]
fn exploration_of_a_context_that_is_already_complete_asks_nothing() {
    let mut ctx = context_abc();
    ctx.add_object("ab".to_string(), &set(&[0, 1]));
    ctx.add_object("bc".to_string(), &set(&[1, 2]));
    ctx.add_object("a".to_string(), &set(&[0]));
    ctx.add_object("c".to_string(), &set(&[2]));
    ctx.add_object("none".to_string(), &set(&[]));
    ctx.add_object("b".to_string(), &set(&[1]));
    ctx.add_object("ac".to_string(), &set(&[0, 2]));
    let mut exploration = Exploration::new(&ctx);
    assert_eq!(exploration.next_question(&ctx), None);
    assert!(exploration.basis.is_empty());
    assert!(exploration.candidate.is_none());
}

#[test]
fn exploration_without_attributes_is_over_at_once() {
    let mut ctx = FormalContext::<String>::new();
    ctx.add_object("g".to_string(), &BitSet::new());
    let mut exploration = Exploration::new(&ctx);
    assert_eq!(exploration.next_question(&ctx), None);
    assert!(exploration.basis.is_empty());
}

#[test]
fn accepting_every_question_of_an_empty_context() {
    // no objects: the first question is ∅ -> M, and nothing is left after it
    let ctx = context_abc();
    let mut exploration = Exploration::new(&ctx);
    assert_eq!(exploration.next_question(&ctx), Some((set(&[]), set(&[0, 1, 2]))));
    exploration.accept(&ctx);
    assert_eq!(exploration.basis, vec![(set(&[]), set(&[0, 1, 2]))]);
    assert_eq!(exploration.candidate, Some(set(&[0, 1, 2])));
    assert_eq!(exploration.next_question(&ctx), None);
}

#[test]
fn a_counterexample_keeps_the_question_open() {
    let mut ctx = context_abc();
    let mut exploration = Exploration::new(&ctx);
    assert_eq!(exploration.next_question(&ctx), Some((set(&[]), set(&[0, 1, 2]))));
    // attribute 7 does not exist and is left out of the new row
    exploration.add_counterexample(&mut ctx, "g".to_string(), &set(&[0, 7]));
    assert_eq!(ctx.index_intent(&set(&[0])), set(&[0]));
    assert_eq!(exploration.candidate, Some(set(&[])));
    assert_eq!(exploration.next_question(&ctx), Some((set(&[]), set(&[0]))));
}

#[test]
fn implication_hull_applies_only_to_proper_subsets() {
    let basis = vec![(set(&[0]), set(&[0, 1])), (set(&[1]), set(&[1, 2]))];
    // {0} itself is not closed further by 0 -> 1, since the premise is not a proper subset
    assert_eq!(implication_hull(&basis, &set(&[0]), 3), set(&[0]));
    // {0, 2} strictly contains {0}, so 0 -> 1 adds 1
    assert_eq!(implication_hull(&basis, &set(&[0, 2]), 3), set(&[0, 1, 2]));
    // from {0, 1}: {1} is a proper subset, so 1 -> 2 adds 2
    assert_eq!(implication_hull(&basis, &set(&[0, 1]), 3), set(&[0, 1, 2]));
    assert_eq!(implication_hull(&Vec::new(), &set(&[2]), 3), set(&[2]));
}

#[test]
fn next_preclosure_steps_through_the_respecting_sets_in_lectic_order() {
    let ctx = context_abc();
    // ∅ -> {1}: every nonempty respecting set contains 1
    let basis = vec![(set(&[]), set(&[1]))];
    let mut seen = Vec::new();
    let mut current = set(&[]);
    while let Some(next) = index_next_preclosure(&ctx, &basis, &current) {
        seen.push(next.clone());
        current = next;
    }
    assert_eq!(seen, vec![set(&[1]), set(&[1, 2]), set(&[0, 1]), set(&[0, 1, 2])]);
    // with no implications every subset comes, in lectic order
    let mut all = Vec::new();
    let mut current = set(&[]);
    while let Some(next) = index_next_preclosure(&ctx, &Vec::new(), &current) {
        all.push(next.clone());
        current = next;
    }
    assert_eq!(
        all,
        vec![set(&[2]), set(&[1]), set(&[1, 2]), set(&[0]), set(&[0, 2]), set(&[0, 1]), set(&[0, 1, 2])]
    );
    assert_eq!(index_next_preclosure(&ctx, &basis, &set(&[0, 1, 2])), None);
}

#[test]
fn attribute_names_lists_by_index() {
    let ctx = context_abc();
    assert_eq!(attribute_names(&ctx, &set(&[2, 0])), vec!["a".to_string(), "c".to_string()]);
    assert!(attribute_names(&ctx, &set(&[])).is_empty());
}

#[test]
fn attributes_named_resolves_or_reports_the_first_unknown_name() {
    let ctx = context_abc();
    let names = vec!["c".to_string(), "a".to_string()];
    assert_eq!(attributes_named(&ctx, &names), Ok(set(&[0, 2])));
    let names = vec!["b".to_string(), "x".to_string(), "y".to_string()];
    assert_eq!(attributes_named(&ctx, &names), Err(1));
    assert_eq!(attributes_named(&ctx, &Vec::new()), Ok(set(&[])));
}

/// The least superset of `p` closed under the implications (applied to any
/// premise it contains).
fn basis_closure(basis: &[(BitSet, BitSet)], p: &BitSet) -> BitSet {
    let mut y = p.clone();
    loop {
        let before = y.clone();
        for (premise, conclusion) in basis {
            if premise.is_subset(&y) {
                y.union_with(conclusion);
            }
        }
        if y == before {
            return y;
        }
    }
}

#[test]
fn after_exploration_every_valid_implication_follows_from_the_basis() {
    let mut ctx = context_abc();
    let universe = [("ab", set(&[0, 1])), ("c", set(&[2])), ("bc", set(&[1, 2]))];
    let (_, basis) = explore(&mut ctx, &universe);
    for mask in 0u32..8 {
        let p: BitSet = (0..3).filter(|&i| mask & (1 << i) != 0).collect();
        // p -> p'' holds in the context, and so follows from the basis
        assert!(ctx.index_attribute_hull(&p).is_subset(&basis_closure(&basis, &p)));
    }
}
