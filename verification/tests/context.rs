use bit_set::BitSet;
use fca::context::FormalContext;
use fca::fcbo::index_fcbo_concepts;
use fca::next_closure::index_next_closure_concepts;
use fca::upper_neighbor::index_upper_neighbor;
use std::collections::BTreeSet;

fn set(xs: &[usize]) -> BitSet {
    xs.iter().copied().collect()
}

fn context(n_attributes: usize, rows: &[&[usize]]) -> FormalContext<usize> {
    let mut ctx = FormalContext::<usize>::new();
    for m in 0..n_attributes {
        ctx.add_attribute(m, &BitSet::new());
    }
    for (g, row) in rows.iter().enumerate() {
        ctx.add_object(g, &set(row));
    }
    ctx
}

#[test]
fn derivations_and_hulls_of_a_small_context() {
    let ctx = context(3, &[&[0], &[0, 1], &[1]]);
    assert_eq!(ctx.index_extent(&set(&[0])), set(&[0, 1]));
    assert_eq!(ctx.index_extent(&set(&[])), set(&[0, 1, 2]));
    assert_eq!(ctx.index_extent(&set(&[0, 1, 2])), set(&[]));
    assert_eq!(ctx.index_intent(&set(&[0, 1])), set(&[0]));
    assert_eq!(ctx.index_intent(&set(&[])), set(&[0, 1, 2]));
    assert_eq!(ctx.index_attribute_hull(&set(&[1])), set(&[1]));
    assert_eq!(ctx.index_attribute_hull(&set(&[2])), set(&[0, 1, 2]));
    assert_eq!(ctx.index_object_hull(&set(&[0])), set(&[0, 1]));
    assert_eq!(ctx.index_object_hull(&set(&[0, 2])), set(&[0, 1, 2]));
}

#[test]
fn galois_connection_on_every_pair_of_subsets() {
    // B ⊆ A' exactly when A ⊆ B'
    let ctx = context(3, &[&[0, 2], &[0, 1], &[1], &[]]);
    for a_mask in 0u32..8 {
        let a: BitSet = (0..3).filter(|&i| a_mask & (1 << i) != 0).collect();
        for b_mask in 0u32..16 {
            let b: BitSet = (0..4).filter(|&i| b_mask & (1 << i) != 0).collect();
            assert_eq!(b.is_subset(&ctx.index_extent(&a)), a.is_subset(&ctx.index_intent(&b)));
        }
        let hull = ctx.index_attribute_hull(&a);
        assert!(a.is_subset(&hull));
        assert_eq!(ctx.index_attribute_hull(&hull), hull);
    }
}

#[test]
fn add_attribute_sets_the_column_and_ignores_unknown_objects() {
    let mut ctx = context(0, &[&[], &[], &[]]);
    ctx.add_attribute(0, &set(&[0, 2, 9]));
    assert_eq!(ctx.index_extent(&set(&[0])), set(&[0, 2]));
    assert_eq!(ctx.index_intent(&set(&[1])), set(&[]));
}

#[test]
fn upper_neighbors_of_the_bottom_concept() {
    let ctx = context(2, &[&[0], &[0, 1], &[1]]);
    // bottom concept ({1}, {0, 1}); its upper neighbours are {0, 1} and {1, 2}
    assert_eq!(index_upper_neighbor(&set(&[1]), &ctx), set(&[0, 2]));
    assert_eq!(index_upper_neighbor(&set(&[0, 1]), &ctx), set(&[2]));
    assert_eq!(index_upper_neighbor(&set(&[0, 1, 2]), &ctx), set(&[]));
}

#[test]
fn upper_neighbors_keep_one_generator_each() {
    // objects 0 and 1 share a row: the neighbour {0, 1} is generated by its largest object
    let ctx = context(2, &[&[0], &[0], &[1]]);
    assert_eq!(index_upper_neighbor(&set(&[]), &ctx), set(&[1, 2]));
}

#[test]
fn fcbo_and_next_closure_list_the_same_concepts() {
    let ctx = context(4, &[&[0, 1], &[1, 2], &[2, 3], &[0, 3], &[0, 1, 2]]);
    let f = index_fcbo_concepts(&ctx);
    let nc = index_next_closure_concepts(&ctx);
    assert_eq!(f.len(), nc.len());
    let fs: BTreeSet<(BitSet, BitSet)> = f.into_iter().collect();
    let ns: BTreeSet<(BitSet, BitSet)> = nc.into_iter().collect();
    assert_eq!(fs, ns);
}

#[test]
fn adding_an_object_keeps_every_intent() {
    let mut ctx = context(3, &[&[0, 1], &[1, 2]]);
    let intents_before: Vec<BitSet> = index_next_closure_concepts(&ctx).into_iter().map(|(_, ms)| ms).collect();
    ctx.add_object(2, &set(&[0, 2]));
    for intent in &intents_before {
        assert_eq!(&ctx.index_attribute_hull(intent), intent);
    }
    // and a new intent appears: {0, 2}
    assert_eq!(ctx.index_attribute_hull(&set(&[2, 0])), set(&[0, 2]));
    assert!(!intents_before.contains(&set(&[0, 2])));
}
