use merged_trees::merge::{copy_items, copy_range, same_items, Merge};

fn terms<T: Clone>(merge: &Merge<T>) -> (Vec<T>, Vec<T>) {
    (merge.removes().clone(), merge.adds().clone())
}

#[test]
fn simplify_cancels_equal_pair() {
    let m = Merge::new(vec![1u32, 2], vec![3u32, 1, 4]);
    let s = m.simplify();
    assert_eq!(terms(&s), (vec![2], vec![3, 4]));
}

#[test]
fn simplify_takes_the_first_removed_term_that_matches() {
    // The added 7 at position 1 cancels the first removed 7; the second stays
    // until the added 7 at the end cancels it.
    let m = Merge::new(vec![7u32, 5, 7], vec![1u32, 7, 2, 7]);
    assert_eq!(terms(&m.simplify()), (vec![5], vec![1, 2]));
    let m = Merge::new(vec![4u32, 4], vec![4u32, 9, 4]);
    assert_eq!(m.simplify(), Merge::resolved(9));
}

#[test]
fn simplify_leaves_what_has_no_pair() {
    let m = Merge::new(vec![1u32], vec![2u32, 3]);
    assert_eq!(m.clone().simplify(), m);
    assert_eq!(Merge::resolved(5u32).simplify(), Merge::resolved(5));
}

#[test]
fn simplify_twice_is_simplify_once() {
    let m = Merge::new(vec![1u32, 2, 3], vec![3u32, 1, 8, 2]);
    let once = m.simplify();
    assert_eq!(once.clone().simplify(), once);
    assert_eq!(once, Merge::resolved(8));
}

#[test]
fn resolved_values_and_queries() {
    let m = Merge::resolved(42u32);
    assert!(m.is_resolved());
    assert_eq!(m.num_sides(), 1);
    assert_eq!(m.as_resolved(), Some(&42));
    assert_eq!(m.into_resolved(), Ok(42));
    let c = Merge::new(vec![1u32], vec![2u32, 3]);
    assert!(!c.is_resolved());
    assert_eq!(c.num_sides(), 2);
    assert_eq!(c.as_resolved(), None);
    assert_eq!(c.clone().into_resolved(), Err(c));
}

#[test]
fn arity_is_checked() {
    assert_eq!(
        Merge::try_new(vec![1u32], vec![2u32, 3]),
        Some(Merge::new(vec![1], vec![2, 3]))
    );
    assert_eq!(Merge::try_new(vec![], vec![7u32]), Some(Merge::resolved(7)));
    assert_eq!(Merge::try_new(vec![1u32], vec![2u32]), None);
    assert_eq!(Merge::try_new(Vec::<u32>::new(), vec![]), None);
    assert_eq!(Merge::try_new(vec![1u32, 2], vec![3u32]), None);
}

#[test]
fn absent_and_normal() {
    let absent: Merge<Option<u32>> = Merge::absent();
    assert_eq!(absent, Merge::resolved(None));
    assert!(absent.is_absent());
    assert!(!absent.is_present());
    let normal = Merge::normal(3u32);
    assert_eq!(normal, Merge::resolved(Some(3)));
    assert!(normal.is_present());
    let conflict = Merge::new(vec![None], vec![None::<u32>, None]);
    assert!(conflict.is_present());
}

#[test]
fn resolve_trivial_cases() {
    assert_eq!(Merge::resolved(1u32).resolve_trivial(), Some(1));
    // One side changed.
    assert_eq!(Merge::new(vec![1u32], vec![1u32, 2]).resolve_trivial(), Some(2));
    assert_eq!(Merge::new(vec![1u32], vec![2u32, 1]).resolve_trivial(), Some(2));
    // Both sides made the same change.
    assert_eq!(Merge::new(vec![1u32], vec![2u32, 2]).resolve_trivial(), Some(2));
    assert_eq!(
        Merge::new(vec![1u32, 1], vec![2u32, 2, 2]).resolve_trivial(),
        Some(2)
    );
    // The sides differ.
    assert_eq!(Merge::new(vec![1u32], vec![2u32, 3]).resolve_trivial(), None);
    assert_eq!(
        Merge::new(vec![1u32, 2], vec![3u32, 3, 3]).resolve_trivial(),
        None
    );
    // A longer chain that cancels down to one value.
    assert_eq!(
        Merge::new(vec![1u32, 3, 2, 4], vec![4u32, 2, 1, 5, 3]).resolve_trivial(),
        Some(5)
    );
}

#[test]
fn chain_order_both_ways() {
    let m = Merge::new(vec![10u32, 20], vec![1u32, 2, 3]);
    assert_eq!(m.to_interleaved(), vec![1, 10, 2, 20, 3]);
    assert_eq!(
        terms(&Merge::from_interleaved(&vec![1u32, 10, 2, 20, 3])),
        (vec![10, 20], vec![1, 2, 3])
    );
    // Building from a chain cancels equal pairs.
    assert_eq!(
        Merge::from_interleaved(&vec![1u32, 1, 2]),
        Merge::resolved(2)
    );
    assert_eq!(Merge::from_interleaved(&vec![7u32; 5]), Merge::resolved(7));
}

#[test]
fn pad_to_appends_pairs() {
    let mut m = Merge::new(vec![1u32], vec![2u32, 3]);
    m.pad_to(4, 0);
    assert_eq!(terms(&m), (vec![1, 0, 0], vec![2, 3, 0, 0]));
    m.pad_to(2, 9);
    assert_eq!(m.num_sides(), 4);
    let mut single = Merge::resolved(5u32);
    single.pad_to(0, 9);
    assert_eq!(single, Merge::resolved(5));
}

#[test]
fn map_keeps_the_arity() {
    let m = Merge::new(vec![1u32], vec![2u32, 3]);
    let doubled = m.map(|x| u64::from(*x) * 2);
    assert_eq!(terms(&doubled), (vec![2u64], vec![4u64, 6]));
}

#[test]
fn try_map_hands_on_the_first_failure() {
    let m = Merge::new(vec![1u32, 2], vec![3u32, 4, 5]);
    let all: Result<Merge<u32>, String> = m.try_map(|x| Ok(x + 1));
    assert_eq!(all.map(|m| terms(&m)), Ok((vec![2, 3], vec![4, 5, 6])));
    // The removed terms are looked at first.
    let failed: Result<Merge<u32>, u32> = m.try_map(|x| if x % 2 == 0 { Err(*x) } else { Ok(*x) });
    assert_eq!(failed, Err(2));
    let failed: Result<Merge<u32>, u32> = m.try_map(|x| if *x >= 4 { Err(*x) } else { Ok(*x) });
    assert_eq!(failed, Err(4));
}

#[test]
fn same_terms_compares_places() {
    let a = Merge::new(vec![1u32], vec![2u32, 3]);
    assert!(a.same_terms(&a.clone()));
    assert!(!a.same_terms(&Merge::new(vec![1u32], vec![3u32, 2])));
    assert!(!a.same_terms(&Merge::resolved(2)));
}

#[test]
fn list_helpers() {
    let list = vec![1u8, 2, 3, 4];
    assert_eq!(copy_items(&list), list);
    assert_eq!(copy_range(&list, 1, 3), vec![2, 3]);
    assert_eq!(copy_range(&list, 2, 2), Vec::<u8>::new());
    assert!(same_items(&list, &vec![1, 2, 3, 4]));
    assert!(!same_items(&list, &vec![1, 2, 3]));
    assert!(!same_items(&list, &vec![1, 2, 3, 5]));
}
