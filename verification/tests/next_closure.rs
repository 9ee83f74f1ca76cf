use rand::{Rng, SeedableRng};
use bit_set::BitSet;
use fca::context::FormalContext;
use fca::next_closure::{index_next_closure_concepts, NextClosure};
use std::collections::BTreeSet;

fn brute_force_concept_intents(ctx: &FormalContext<usize>) -> BTreeSet<BitSet> {
    let mut result = BTreeSet::new();
    let n = ctx.attributes.len();
    for mask in 0u64..(1u64 << n) {
        let sub: BitSet = (0..n).filter(|&i| mask & (1u64 << i) != 0).collect();
        let hull = ctx.index_attribute_hull(&sub);
        if sub == hull {
            result.insert(hull);
        }
    }
    result
}

fn build_context(n_attrs: usize, incidences: &[(usize, usize)]) -> FormalContext<usize> {
    let n_objs = incidences.iter().map(|&(g, _)| g).max().map_or(0, |m| m + 1);
    let mut ctx = FormalContext::<usize>::new();
    for m in 0..n_attrs {
        ctx.add_attribute(m, &BitSet::new());
    }
    for g in 0..n_objs {
        let intent: BitSet = incidences.iter().filter(|&&(og, _)| og == g).map(|&(_, m)| m).collect();
        ctx.add_object(g, &intent);
    }
    ctx
}

#[test]
fn test_concepts_zero_objects() {
    // 5 attributes, 0 objects: only the top concept (∅, M)
    let mut ctx = FormalContext::<usize>::new();
    for m in 0..5 {
        ctx.add_attribute(m, &BitSet::new());
    }
    let concepts: Vec<_> = index_next_closure_concepts(&ctx);
    assert_eq!(concepts.len(), 1);
    assert!(concepts[0].0.is_empty(), "extent must be empty");
    assert_eq!(concepts[0].1, (0..5).collect::<BitSet>(), "intent must be M");
}

#[test]
fn test_concepts_zero_attributes() {
    // 5 objects, 0 attributes: only the bottom concept (G, ∅)
    let mut ctx = FormalContext::<usize>::new();
    for g in 0..5 {
        ctx.add_object(g, &BitSet::new());
    }
    let concepts: Vec<_> = index_next_closure_concepts(&ctx);
    assert_eq!(concepts.len(), 1);
    assert_eq!(concepts[0].0, (0..5).collect::<BitSet>(), "extent must be G");
    assert!(concepts[0].1.is_empty(), "intent must be empty");
}

#[test]
fn test_concepts_single_object_full() {
    // 1 object with all 5 attributes
    let mut ctx = FormalContext::<usize>::new();
    for m in 0..5 {
        ctx.add_attribute(m, &BitSet::new());
    }
    let full_intent: BitSet = (0..5).collect();
    ctx.add_object(0, &full_intent);
    let intents: BTreeSet<_> = index_next_closure_concepts(&ctx).into_iter().map(|(_, ms)| ms).collect();
    assert_eq!(intents, brute_force_concept_intents(&ctx));
}

#[test]
fn test_concepts_full_context() {
    // 5×5 full context: all incidences = 1
    let incidences: Vec<(usize, usize)> = (0..5).flat_map(|g| (0..5).map(move |m| (g, m))).collect();
    let ctx = build_context(5, &incidences);
    let intents: BTreeSet<_> = index_next_closure_concepts(&ctx).into_iter().map(|(_, ms)| ms).collect();
    assert_eq!(intents, brute_force_concept_intents(&ctx));
}

#[test]
fn test_concepts_random_20x20() {
    let mut rng = rand::rngs::StdRng::seed_from_u64(42);
    let n = 20;
    let mut ctx = FormalContext::<usize>::new();
    for m in 0..n {
        ctx.add_attribute(m, &BitSet::new());
    }
    for g in 0..n {
        let intent: BitSet = (0..n).filter(|_| rng.gen::<bool>()).collect();
        ctx.add_object(g, &intent);
    }
    let intents: BTreeSet<_> = index_next_closure_concepts(&ctx).into_iter().map(|(_, ms)| ms).collect();
    assert_eq!(intents, brute_force_concept_intents(&ctx));
}

#[test]
fn next_closure_lists_intents_in_lectic_order_once_each() {
    let ctx = build_context(4, &[(0, 0), (0, 1), (1, 1), (1, 2), (2, 2), (2, 3), (3, 0), (3, 3)]);
    let concepts = NextClosure.enumerate_concepts(&ctx);
    for w in concepts.windows(2) {
        let a: Vec<usize> = w[0].1.iter().collect();
        let b: Vec<usize> = w[1].1.iter().collect();
        // the first differing index belongs to the later intent
        let first = (0..4).find(|&i| a.contains(&i) != b.contains(&i)).expect("intents differ");
        assert!(b.contains(&first) && !a.contains(&first));
    }
    for (extent, intent) in &concepts {
        assert_eq!(&ctx.index_extent(intent), extent);
        assert_eq!(&ctx.index_intent(extent), intent);
    }
    let intents: BTreeSet<_> = concepts.iter().map(|(_, ms)| ms.clone()).collect();
    assert_eq!(intents.len(), concepts.len());
    assert_eq!(intents, brute_force_concept_intents(&ctx));
}

#[test]
fn next_closure_first_intent_is_hull_of_empty_set() {
    let ctx = build_context(3, &[(0, 0), (0, 1), (1, 0), (1, 2)]);
    let concepts = index_next_closure_concepts(&ctx);
    // attribute 0 is shared by every object
    assert_eq!(concepts[0].1, [0usize].into_iter().collect::<BitSet>());
    assert_eq!(concepts[0].0, (0..2).collect::<BitSet>());
    let expected: Vec<Vec<usize>> = vec![vec![0], vec![0, 2], vec![0, 1], vec![0, 1, 2]];
    let got: Vec<Vec<usize>> = concepts.iter().map(|(_, ms)| ms.iter().collect()).collect();
    assert_eq!(got, expected);
}
