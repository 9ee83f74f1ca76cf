use rand::{Rng, SeedableRng};
use bit_set::BitSet;
use fca::context::FormalContext;
use fca::fcbo::{index_fcbo_concepts, Fcbo};
use fca::next_closure::index_next_closure_concepts;
use std::collections::BTreeSet;

fn next_closure_intents(ctx: &FormalContext<usize>) -> BTreeSet<BitSet> {
    index_next_closure_concepts(ctx).into_iter().map(|(_, ms)| ms).collect()
}

#[test]
fn test_fcbo_zero_objects() {
    // 5 attributes, 0 objects
    let mut ctx = FormalContext::<usize>::new();
    for m in 0..5 {
        ctx.add_attribute(m, &BitSet::new());
    }
    let fcbo: BTreeSet<_> = index_fcbo_concepts(&ctx).into_iter().map(|(_, ms)| ms).collect();
    assert_eq!(fcbo, next_closure_intents(&ctx));
}

#[test]
fn test_fcbo_zero_attributes() {
    // 5 objects, 0 attributes
    let mut ctx = FormalContext::<usize>::new();
    for g in 0..5 {
        ctx.add_object(g, &BitSet::new());
    }
    let fcbo: BTreeSet<_> = index_fcbo_concepts(&ctx).into_iter().map(|(_, ms)| ms).collect();
    assert_eq!(fcbo, next_closure_intents(&ctx));
}

#[test]
fn test_fcbo_single_object_full() {
    let mut ctx = FormalContext::<usize>::new();
    for m in 0..5 {
        ctx.add_attribute(m, &BitSet::new());
    }
    ctx.add_object(0, &(0..5).collect::<BitSet>());
    let fcbo: BTreeSet<_> = index_fcbo_concepts(&ctx).into_iter().map(|(_, ms)| ms).collect();
    assert_eq!(fcbo, next_closure_intents(&ctx));
}

#[test]
fn test_fcbo_full_context() {
    let mut ctx = FormalContext::<usize>::new();
    for m in 0..5 {
        ctx.add_attribute(m, &BitSet::new());
    }
    for g in 0..5 {
        ctx.add_object(g, &(0..5).collect::<BitSet>());
    }
    let fcbo: BTreeSet<_> = index_fcbo_concepts(&ctx).into_iter().map(|(_, ms)| ms).collect();
    assert_eq!(fcbo, next_closure_intents(&ctx));
}

#[test]
fn test_fcbo_random_20x20() {
    let mut rng = rand::rngs::StdRng::seed_from_u64(42);
    let n = 20;
    let mut ctx = FormalContext::<usize>::new();
    for m in 0..n {
        ctx.add_attribute(m, &BitSet::new());
    }
    for g in 0..n {
        let intent: BitSet = (0..n).filter(|_| rng.gen::<bool>()).collect();
        ctx.add_object(g, &intent);
    }
    let fcbo: BTreeSet<_> = index_fcbo_concepts(&ctx).into_iter().map(|(_, ms)| ms).collect();
    assert_eq!(fcbo, next_closure_intents(&ctx));
}

#[test]
fn fcbo_lists_each_concept_once_starting_with_the_top() {
    let mut ctx = FormalContext::<usize>::new();
    for m in 0..4 {
        ctx.add_attribute(m, &BitSet::new());
    }
    let rows: [&[usize]; 4] = [&[0, 1], &[1, 2], &[2, 3], &[0, 3]];
    for (g, row) in rows.iter().enumerate() {
        ctx.add_object(g, &row.iter().copied().collect());
    }
    let concepts = Fcbo.enumerate_concepts(&ctx);
    assert!(concepts[0].1.is_empty());
    assert_eq!(concepts[0].0, (0..4).collect::<BitSet>());
    let intents: BTreeSet<_> = concepts.iter().map(|(_, ms)| ms.clone()).collect();
    assert_eq!(intents.len(), concepts.len());
    assert_eq!(intents, next_closure_intents(&ctx));
    // the empty intent, four single attributes, four pairs, and all of M
    assert_eq!(concepts.len(), 10);
    for (extent, intent) in &concepts {
        assert_eq!(&ctx.index_extent(intent), extent);
    }
}

/// FCbO's order below node `(a, y)`, as its contract states it: the
/// canonical children in ascending order, then what lies below each child,
/// the last child first.
fn stated_order(ctx: &FormalContext<usize>, a: &BitSet, y: usize) -> Vec<BitSet> {
    let n = ctx.attributes.len();
    let child = |j: usize| {
        let mut x = a.clone();
        x.insert(j);
        ctx.index_attribute_hull(&x)
    };
    let ks: Vec<usize> = (y..n)
        .filter(|&j| !a.contains(j) && child(j).iter().filter(|&k| k < j).all(|k| a.contains(k)))
        .collect();
    let mut out: Vec<BitSet> = ks.iter().map(|&j| child(j)).collect();
    for &j in ks.iter().rev() {
        out.extend(stated_order(ctx, &child(j), j + 1));
    }
    out
}

#[test]
fn fcbo_lists_in_its_stated_order() {
    let mut rng = rand::rngs::StdRng::seed_from_u64(7);
    for size in [3usize, 5, 8] {
        let mut ctx = FormalContext::<usize>::new();
        for m in 0..size {
            ctx.add_attribute(m, &BitSet::new());
        }
        for g in 0..size {
            let intent: BitSet = (0..size).filter(|_| rng.gen::<bool>()).collect();
            ctx.add_object(g, &intent);
        }
        let root = ctx.index_attribute_hull(&BitSet::new());
        let mut expected = vec![root.clone()];
        expected.extend(stated_order(&ctx, &root, 0));
        let got: Vec<BitSet> = index_fcbo_concepts(&ctx).into_iter().map(|(_, ms)| ms).collect();
        assert_eq!(got, expected);
    }
}
