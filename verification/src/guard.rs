//! Guards of colored-net transitions: conditions on a binding of variables
//! to tokens and on the marking, and their conjunction, disjunction and
//! negation.
use std::collections::HashMap;
use vstd::prelude::*;

use crate::color::Token;
use crate::marking::Marking;

verus! {

/// A guard, for users to implement: whether it holds is a condition on the
/// binding and on the view of the marking.
pub trait Guard<T: Token> {
    /// Whether the guard holds.
    spec fn holds(&self, binding: Map<String, T>, marking: Map<Seq<char>, Seq<(Seq<char>, nat)>>) -> bool;

    /// Whether the guard holds for `binding` in `marking`.
    fn evaluate(&self, binding: &HashMap<String, T>, marking: &Marking<T>) -> (r: bool)
        ensures
            r == self.holds(binding@, marking@),
    ;
}

/// The guard that always holds.
#[derive(Clone, Copy, Debug)]
pub struct AlwaysTrue;

impl<T: Token> Guard<T> for AlwaysTrue {
    open spec fn holds(&self, binding: Map<String, T>, marking: Map<Seq<char>, Seq<(Seq<char>, nat)>>) -> bool {
        true
    }

    fn evaluate(&self, binding: &HashMap<String, T>, marking: &Marking<T>) -> (r: bool) {
        true
    }
}

/// The guard that never holds.
#[derive(Clone, Copy, Debug)]
pub struct AlwaysFalse;

impl<T: Token> Guard<T> for AlwaysFalse {
    open spec fn holds(&self, binding: Map<String, T>, marking: Map<Seq<char>, Seq<(Seq<char>, nat)>>) -> bool {
        false
    }

    fn evaluate(&self, binding: &HashMap<String, T>, marking: &Marking<T>) -> (r: bool) {
        false
    }
}

/// Whether every one of `guards` holds.
pub open spec fn all_hold<T: Token>(
    guards: Seq<Box<dyn Guard<T>>>,
    binding: Map<String, T>,
    marking: Map<Seq<char>, Seq<(Seq<char>, nat)>>,
) -> bool {
    forall|i: int| 0 <= i < guards.len() ==> #[trigger] guards[i].holds(binding, marking)
}

/// Whether some one of `guards` holds.
pub open spec fn some_holds<T: Token>(
    guards: Seq<Box<dyn Guard<T>>>,
    binding: Map<String, T>,
    marking: Map<Seq<char>, Seq<(Seq<char>, nat)>>,
) -> bool {
    exists|i: int| 0 <= i < guards.len() && #[trigger] guards[i].holds(binding, marking)
}

/// Holds when every one of its guards holds.
#[verifier::reject_recursive_types(T)]
pub struct AndGuard<T: Token> {
    guards: Vec<Box<dyn Guard<T>>>,
}

impl<T: Token> AndGuard<T> {
    /// The conjunction of `guards`.
    pub fn new(guards: Vec<Box<dyn Guard<T>>>) -> (r: Self)
        ensures
            forall|b: Map<String, T>, m: Map<Seq<char>, Seq<(Seq<char>, nat)>>| #[trigger]
                r.holds(b, m) == all_hold(guards@, b, m),
    {
        AndGuard { guards }
    }
}

impl<T: Token> Guard<T> for AndGuard<T> {
    closed spec fn holds(&self, binding: Map<String, T>, marking: Map<Seq<char>, Seq<(Seq<char>, nat)>>) -> bool {
        all_hold(self.guards@, binding, marking)
    }

    fn evaluate(&self, binding: &HashMap<String, T>, marking: &Marking<T>) -> (r: bool) {
        let n = self.guards.len();
        let mut i: usize = 0;
        while i < n
            invariant
                i <= n,
                n == self.guards@.len(),
                forall|j: int| 0 <= j < i ==> #[trigger] self.guards@[j].holds(binding@, marking@),
            decreases n - i,
        {
            if !self.guards[i].evaluate(binding, marking) {
                return false;
            }
            i = i + 1;
        }
        true
    }
}

/// Holds when some one of its guards holds.
#[verifier::reject_recursive_types(T)]
pub struct OrGuard<T: Token> {
    guards: Vec<Box<dyn Guard<T>>>,
}

impl<T: Token> OrGuard<T> {
    /// The disjunction of `guards`.
    pub fn new(guards: Vec<Box<dyn Guard<T>>>) -> (r: Self)
        ensures
            forall|b: Map<String, T>, m: Map<Seq<char>, Seq<(Seq<char>, nat)>>| #[trigger]
                r.holds(b, m) == some_holds(guards@, b, m),
    {
        OrGuard { guards }
    }
}

impl<T: Token> Guard<T> for OrGuard<T> {
    closed spec fn holds(&self, binding: Map<String, T>, marking: Map<Seq<char>, Seq<(Seq<char>, nat)>>) -> bool {
        some_holds(self.guards@, binding, marking)
    }

    fn evaluate(&self, binding: &HashMap<String, T>, marking: &Marking<T>) -> (r: bool) {
        let n = self.guards.len();
        let mut i: usize = 0;
        while i < n
            invariant
                i <= n,
                n == self.guards@.len(),
                forall|j: int| 0 <= j < i ==> !#[trigger] self.guards@[j].holds(binding@, marking@),
            decreases n - i,
        {
            if self.guards[i].evaluate(binding, marking) {
                return true;
            }
            i = i + 1;
        }
        false
    }
}

/// Holds when its guard does not.
#[verifier::reject_recursive_types(T)]
pub struct NotGuard<T: Token> {
    guard: Box<dyn Guard<T>>,
}

impl<T: Token> NotGuard<T> {
    /// The negation of `guard`.
    ///
    /// Verus does not relate a boxed guard moved into the new value to the
    /// one passed, so no clause states what the result holds on.
    pub fn new(guard: Box<dyn Guard<T>>) -> Self {
        NotGuard { guard }
    }
}

impl<T: Token> Guard<T> for NotGuard<T> {
    closed spec fn holds(&self, binding: Map<String, T>, marking: Map<Seq<char>, Seq<(Seq<char>, nat)>>) -> bool {
        !self.guard.holds(binding, marking)
    }

    fn evaluate(&self, binding: &HashMap<String, T>, marking: &Marking<T>) -> (r: bool) {
        !self.guard.evaluate(binding, marking)
    }
}

} // verus!
