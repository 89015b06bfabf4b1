use unipn::color::{ColorSet, IntRange, IntToken, TokenMultiset};

#[test]
fn test_multiset_basic_operations() {
    let mut ms = TokenMultiset::new();
    let token1 = IntToken(1);
    let token2 = IntToken(2);

    ms.add(token1.clone(), 3);
    ms.add(token2.clone(), 2);

    assert_eq!(ms.count(&token1), 3);
    assert_eq!(ms.count(&token2), 2);
    assert_eq!(ms.total(), 5);

    assert!(ms.remove(&token1, 2));
    assert_eq!(ms.count(&token1), 1);

    assert!(!ms.remove(&token1, 5));
    assert_eq!(ms.count(&token1), 1);
}

#[test]
fn test_multiset_merge() {
    let mut ms1 = TokenMultiset::new();
    let mut ms2 = TokenMultiset::new();

    ms1.add(IntToken(1), 2);
    ms2.add(IntToken(1), 3);
    ms2.add(IntToken(2), 1);

    ms1.merge(&ms2);

    assert_eq!(ms1.count(&IntToken(1)), 5);
    assert_eq!(ms1.count(&IntToken(2)), 1);
}

#[test]
fn test_int_range_color_set() {
    let cs = IntRange::new("Small", 1, 5);

    assert!(cs.contains(&IntToken(3)));
    assert!(!cs.contains(&IntToken(0)));
    assert!(!cs.contains(&IntToken(6)));

    let values = cs.enumerate().unwrap();
    assert_eq!(values.len(), 5);
}

#[test]
fn a_multiset_with_only_zero_counts_is_empty() {
    let mut ms: TokenMultiset<IntToken> = TokenMultiset::new();
    ms.add(IntToken(1), 0);
    assert!(ms.is_empty());
    assert_eq!(ms.total(), 0);
    ms.add(IntToken(2), 3);
    assert!(!ms.is_empty());
}
