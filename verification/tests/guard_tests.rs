use std::collections::HashMap;
use unipn::color::IntToken;
use unipn::guard::{AlwaysFalse, AlwaysTrue, AndGuard, Guard, NotGuard, OrGuard};
use unipn::marking::Marking;

#[test]
fn test_always_true_guard() {
    let guard = AlwaysTrue;
    let binding: HashMap<String, IntToken> = HashMap::new();
    let marking = Marking::new();

    assert!(guard.evaluate(&binding, &marking));
}

#[test]
fn test_always_false_guard() {
    let guard = AlwaysFalse;
    let binding: HashMap<String, IntToken> = HashMap::new();
    let marking = Marking::new();

    assert!(!guard.evaluate(&binding, &marking));
}

#[test]
fn test_and_guard() {
    let guard: AndGuard<IntToken> = AndGuard::new(vec![Box::new(AlwaysTrue), Box::new(AlwaysTrue)]);
    let binding = HashMap::new();
    let marking = Marking::new();

    assert!(guard.evaluate(&binding, &marking));

    let guard2: AndGuard<IntToken> = AndGuard::new(vec![Box::new(AlwaysTrue), Box::new(AlwaysFalse)]);
    assert!(!guard2.evaluate(&binding, &marking));
}

#[test]
fn or_and_not_guards() {
    let binding: HashMap<String, IntToken> = HashMap::new();
    let marking = Marking::new();
    let some: OrGuard<IntToken> = OrGuard::new(vec![Box::new(AlwaysFalse), Box::new(AlwaysTrue)]);
    assert!(some.evaluate(&binding, &marking));
    let none: OrGuard<IntToken> = OrGuard::new(vec![Box::new(AlwaysFalse), Box::new(AlwaysFalse)]);
    assert!(!none.evaluate(&binding, &marking));
    let empty_or: OrGuard<IntToken> = OrGuard::new(Vec::new());
    assert!(!empty_or.evaluate(&binding, &marking));
    let empty_and: AndGuard<IntToken> = AndGuard::new(Vec::new());
    assert!(empty_and.evaluate(&binding, &marking));
    let negated: NotGuard<IntToken> = NotGuard::new(Box::new(AlwaysFalse));
    assert!(negated.evaluate(&binding, &marking));
    let nested: NotGuard<IntToken> = NotGuard::new(Box::new(AndGuard::new(vec![
        Box::new(AlwaysTrue) as Box<dyn Guard<IntToken>>,
        Box::new(NotGuard::new(Box::new(AlwaysTrue))),
    ])));
    assert!(nested.evaluate(&binding, &marking));
}
