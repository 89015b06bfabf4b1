//! How a freshly computed state class is matched against the classes
//! already discovered.
use vstd::prelude::*;

use super::dbm::bounds_within;
use super::state_class::{ClockVar, StateClass};

verus! {

/// How state classes are matched: `Equality` keeps the graph exact, the two
/// others merge a class into one whose zone includes it.
#[derive(Debug, Clone, Copy, PartialEq, Eq, Structural)]
pub enum CanonicalizationMode {
    /// Same marking, clock layout and zone.
    Equality,
    /// Zone inclusion.
    MaxLowerBound,
    /// Zone inclusion.
    Intersection,
}

/// Whether two classes have the same marking and clock layout.
pub open spec fn same_layout_spec(a: StateClass, b: StateClass) -> bool {
    a.marking@ == b.marking@ && a.clock_vars@ == b.clock_vars@
}

fn same_vars(a: &Vec<ClockVar>, b: &Vec<ClockVar>) -> (r: bool)
    ensures
        r == (a@ == b@),
{
    if a.len() != b.len() {
        return false;
    }
    for k in 0..a.len()
        invariant
            a@.len() == b@.len(),
            forall|j: int| 0 <= j < k ==> a@[j] == b@[j],
    {
        if a[k] != b[k] {
            return false;
        }
    }
    assert(a@ =~= b@);
    true
}

fn same_layout(a: &StateClass, b: &StateClass) -> (r: bool)
    ensures
        r == same_layout_spec(*a, *b),
{
    a.marking.same(&b.marking) && same_vars(&a.clock_vars, &b.clock_vars)
}

/// Exact match: same marking, clock layout and zone bounds.
pub fn check_equality(a: &StateClass, b: &StateClass) -> (r: bool)
    requires
        a.zone.wf(),
        b.zone.wf(),
    ensures
        r == (same_layout_spec(*a, *b) && a.zone.m() == b.zone.m()),
{
    if !same_layout(a, b) {
        return false;
    }
    let x = a.zone.raw_matrix();
    let y = b.zone.raw_matrix();
    if x.len() != y.len() {
        return false;
    }
    for k in 0..x.len()
        invariant
            x@ == a.zone.m(),
            y@ == b.zone.m(),
            x@.len() == y@.len(),
            forall|j: int| 0 <= j < k ==> x@[j] == y@[j],
    {
        if x[k] != y[k] {
            return false;
        }
    }
    assert(x@ =~= y@);
    true
}

/// Inclusion: same marking and clock layout, and the zone of `a` lies in
/// the zone of `b`.
pub fn check_inclusion(a: &StateClass, b: &StateClass) -> (r: bool)
    requires
        a.zone.wf(),
        b.zone.wf(),
    ensures
        r == (same_layout_spec(*a, *b) && a.zone.dim() == b.zone.dim() && bounds_within(&a.zone, &b.zone)),
{
    if !same_layout(a, b) {
        return false;
    }
    a.zone.included_in(&b.zone)
}

/// Whether `candidate` may be merged into the already discovered
/// `existing` under `mode`.
pub open spec fn can_merge_spec(candidate: StateClass, existing: StateClass, mode: CanonicalizationMode) -> bool {
    match mode {
        CanonicalizationMode::Equality => same_layout_spec(candidate, existing) && candidate.zone.m()
            == existing.zone.m(),
        _ => same_layout_spec(candidate, existing) && candidate.zone.dim() == existing.zone.dim()
            && bounds_within(&candidate.zone, &existing.zone),
    }
}

/// Whether `candidate` may be merged into the already discovered
/// `existing` under `mode`.
pub fn can_merge_into(candidate: &StateClass, existing: &StateClass, mode: CanonicalizationMode) -> (r: bool)
    requires
        candidate.zone.wf(),
        existing.zone.wf(),
    ensures
        r == can_merge_spec(*candidate, *existing, mode),
{
    match mode {
        CanonicalizationMode::Equality => check_equality(candidate, existing),
        CanonicalizationMode::MaxLowerBound | CanonicalizationMode::Intersection => check_inclusion(
            candidate,
            existing,
        ),
    }
}

/// A class that may be merged into another one by equality may be merged
/// into it under every mode: equality is the finest matching.
pub proof fn law_equal_classes_merge_in_every_mode(a: StateClass, b: StateClass, mode: CanonicalizationMode)
    requires
        a.zone.wf(),
        b.zone.wf(),
        can_merge_spec(a, b, CanonicalizationMode::Equality),
    ensures
        can_merge_spec(a, b, mode),
{
    let x = a.zone.dim();
    let y = b.zone.dim();
    assert(x == y) by (nonlinear_arith)
        requires
            x * x == y * y,
    ;
}

} // verus!
