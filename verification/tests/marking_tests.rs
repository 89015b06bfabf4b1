use unipn::color::{IntToken, TokenMultiset};
use unipn::marking::{CpnError, Marking};

#[test]
fn test_marking_basic_operations() {
    let mut marking = Marking::new();

    marking.add_tokens("p1", IntToken(1), 3);
    marking.add_tokens("p1", IntToken(2), 2);

    assert_eq!(marking.get_token_count("p1", &IntToken(1)), 3);
    assert_eq!(marking.get_token_count("p1", &IntToken(2)), 2);
    assert_eq!(marking.get_place_total("p1"), 5);

    assert!(marking.remove_tokens("p1", &IntToken(1), 2).is_ok());
    assert_eq!(marking.get_token_count("p1", &IntToken(1)), 1);
}

#[test]
fn test_marking_equality() {
    let mut m1 = Marking::new();
    let mut m2 = Marking::new();

    m1.add_tokens("p1", IntToken(1), 2);
    m2.add_tokens("p1", IntToken(1), 2);

    assert!(m1 == m2);

    m2.add_tokens("p1", IntToken(2), 1);
    assert!(m1 != m2);
}

#[test]
fn removing_from_an_unmarked_place_or_too_many_is_refused() {
    let mut marking = Marking::new();
    marking.add_tokens("p1", IntToken(7), 1);
    assert_eq!(
        marking.remove_tokens("p2", &IntToken(7), 1),
        Err(CpnError::PlaceNotFound("p2".to_string()))
    );
    assert_eq!(
        marking.remove_tokens("p1", &IntToken(7), 2),
        Err(CpnError::InvalidMarking("库所 p1 中没有足够的token 7".to_string()))
    );
    assert_eq!(
        marking.remove_tokens("p1", &IntToken(8), 1),
        Err(CpnError::InvalidMarking("库所 p1 中没有足够的token 8".to_string()))
    );
    assert_eq!(marking.get_token_count("p1", &IntToken(7)), 1);
    assert!(marking.remove_tokens("p1", &IntToken(7), 1).is_ok());
    assert_eq!(marking.get_token_count("p1", &IntToken(7)), 0);
    assert_eq!(marking.get_place_total("p1"), 0);
}

#[test]
fn unmarked_places_hold_nothing() {
    let marking: Marking<IntToken> = Marking::default();
    assert_eq!(marking.get_token_count("p", &IntToken(1)), 0);
    assert_eq!(marking.get_place_total("p"), 0);
    assert!(!marking.contains_tokens("p", &IntToken(1), 0));
    assert!(marking.get_tokens("p").is_none());
    assert!(marking.place_ids().is_empty());
}

#[test]
fn set_clear_and_list_places() {
    let mut marking = Marking::new();
    let mut ms = TokenMultiset::new();
    ms.add(IntToken(4), 2);
    marking.set_tokens("b", ms);
    marking.add_tokens("a", IntToken(1), 1);
    assert!(marking.contains_tokens("b", &IntToken(4), 2));
    assert!(!marking.contains_tokens("b", &IntToken(4), 3));
    let names: Vec<String> = marking.place_ids().into_iter().cloned().collect();
    assert_eq!(names, vec!["b".to_string(), "a".to_string()]);
    marking.clear_place("b");
    assert_eq!(marking.get_place_total("b"), 0);
    assert!(marking.get_tokens("b").is_some());
    let listed = marking.iter();
    assert_eq!(listed.len(), 2);
    assert_eq!(listed[1].1.count(&IntToken(1)), 1);
    let mut replacement = TokenMultiset::new();
    replacement.add(IntToken(9), 5);
    marking.set_tokens("a", replacement);
    assert_eq!(marking.get_token_count("a", &IntToken(1)), 0);
    assert_eq!(marking.get_token_count("a", &IntToken(9)), 5);
}

#[test]
fn markings_differ_by_place_names() {
    let mut m1 = Marking::new();
    let mut m2 = Marking::new();
    m1.add_tokens("p", IntToken(1), 1);
    m2.add_tokens("q", IntToken(1), 1);
    assert!(m1 != m2);
}

#[test]
fn multisets_compare_by_counts() {
    let mut a = TokenMultiset::new();
    let mut b = TokenMultiset::new();
    a.add(IntToken(1), 2);
    a.add(IntToken(2), 1);
    b.add(IntToken(2), 1);
    b.add(IntToken(1), 2);
    assert!(a == b);
    b.add(IntToken(1), 1);
    assert!(a != b);
}
