//! Chain-style construction of a colored verification net with its initial
//! state.
use vstd::prelude::*;

use super::expr::{BoolExpr, Val, VarStore};
use super::kinds::{CvnTransition, PlaceKind, TransitionKind};
use super::net::{CvnArcKind, CvnExtra, CvnNet, CvnState, Transition, VarUpdate};
use crate::ids::{PlaceId, TransitionId};
use crate::pt::{ArcDir, Marking};

verus! {

/// Builds a net together with its initial marking, variables and domains.
pub struct CvnBuilder {
    net: CvnNet,
    marking: Vec<usize>,
    vars: VarStore,
    domains: Vec<(String, (i64, i64))>,
}

impl CvnBuilder {
    /// The net under construction.
    pub closed spec fn net_spec(&self) -> CvnNet {
        self.net
    }

    /// The initial token counts, by place.
    pub closed spec fn marking_spec(&self) -> Seq<usize> {
        self.marking@
    }

    /// The initial variables.
    pub closed spec fn vars_spec(&self) -> Map<Seq<char>, Val> {
        self.vars@
    }

    /// The declared domains, in order.
    pub closed spec fn domains_spec(&self) -> Seq<(String, (i64, i64))> {
        self.domains@
    }

    /// The builder of the empty net.
    pub fn new() -> (r: Self)
        ensures
            r.net_spec().places@.len() == 0,
            r.net_spec().transitions@.len() == 0,
            r.net_spec().arcs@.len() == 0,
            r.marking_spec().len() == 0,
            r.vars_spec() == Map::<Seq<char>, Val>::empty(),
            r.domains_spec().len() == 0,
    {
        CvnBuilder { net: CvnNet::new(), marking: Vec::new(), vars: VarStore::new(), domains: Vec::new() }
    }

    /// Adds a place named `name` of kind `kind`, with no initial token,
    /// and returns its identifier.
    pub fn add_place(&mut self, name: &str, kind: PlaceKind) -> (id: PlaceId)
        requires
            old(self).marking_spec().len() == old(self).net_spec().places@.len(),
        ensures
            id.0 == old(self).net_spec().places@.len(),
            final(self).net_spec().places@.len() == old(self).net_spec().places@.len() + 1,
            forall|i: int|
                0 <= i < old(self).net_spec().places@.len() ==> #[trigger] final(self).net_spec().places@[i] == old(
                    self,
                ).net_spec().places@[i],
            final(self).net_spec().places@[id.0 as int].name@ == name@,
            final(self).net_spec().places@[id.0 as int].kind == kind,
            final(self).net_spec().transitions@ == old(self).net_spec().transitions@,
            final(self).net_spec().arcs@ == old(self).net_spec().arcs@,
            final(self).marking_spec() == old(self).marking_spec().push(0),
            final(self).vars_spec() == old(self).vars_spec(),
            final(self).domains_spec() == old(self).domains_spec(),
    {
        let id = self.net.add_place(name, kind);
        self.marking.push(0);
        id
    }

    /// Adds a transition named `name` of kind `kind`, with no source
    /// attribution yet, and returns its identifier.
    pub fn add_transition(&mut self, name: &str, kind: TransitionKind) -> (id: TransitionId)
        ensures
            id.0 == old(self).net_spec().transitions@.len(),
            final(self).net_spec().transitions@.len() == old(self).net_spec().transitions@.len() + 1,
            forall|i: int|
                0 <= i < old(self).net_spec().transitions@.len() ==> #[trigger] final(self).net_spec().transitions@[i]
                    == old(self).net_spec().transitions@[i],
            final(self).net_spec().transitions@[id.0 as int].name@ == name@,
            final(self).net_spec().transitions@[id.0 as int].kind.kind == kind,
            final(self).net_spec().transitions@[id.0 as int].kind.scope is None,
            final(self).net_spec().transitions@[id.0 as int].kind.anchors@.len() == 0,
            final(self).net_spec().transitions@[id.0 as int].kind.family is None,
            final(self).net_spec().places@ == old(self).net_spec().places@,
            final(self).net_spec().arcs@ == old(self).net_spec().arcs@,
            final(self).marking_spec() == old(self).marking_spec(),
            final(self).vars_spec() == old(self).vars_spec(),
            final(self).domains_spec() == old(self).domains_spec(),
    {
        self.net.add_transition(name, CvnTransition::new(kind))
    }

    /// Adds `anchor` to the source anchors of `transition`, if the net has
    /// it.
    pub fn set_anchor(&mut self, transition: TransitionId, anchor: &str) -> (r: &mut Self)
        ensures
            *final(self) == *final(r),
            transition.0 < old(self).net_spec().transitions@.len() ==> {
                let old_t = old(self).net_spec().transitions@[transition.0 as int];
                let new_t = r.net_spec().transitions@[transition.0 as int];
                &&& r.net_spec().transitions@.len() == old(self).net_spec().transitions@.len()
                &&& forall|i: int|
                    0 <= i < old(self).net_spec().transitions@.len() && i != transition.0 ==> #[trigger] r.net_spec().transitions@[i]
                        == old(self).net_spec().transitions@[i]
                &&& new_t.name == old_t.name
                &&& new_t.kind.kind == old_t.kind.kind
                &&& new_t.kind.scope == old_t.kind.scope
                &&& new_t.kind.family == old_t.kind.family
                &&& new_t.kind.anchors@.len() == old_t.kind.anchors@.len() + 1
                &&& new_t.kind.anchors@.take(old_t.kind.anchors@.len() as int) == old_t.kind.anchors@
                &&& new_t.kind.anchors@.last()@ == anchor@
            },
            transition.0 >= old(self).net_spec().transitions@.len() ==> r.net_spec().transitions@ == old(
                self,
            ).net_spec().transitions@,
            r.net_spec().places@ == old(self).net_spec().places@,
            r.net_spec().arcs@ == old(self).net_spec().arcs@,
            r.marking_spec() == old(self).marking_spec(),
            r.vars_spec() == old(self).vars_spec(),
            r.domains_spec() == old(self).domains_spec(),
    {
        if transition.0 < self.net.transitions.len() {
            let t = transition.0;
            let mut tr = self.net.transitions.remove(t);
            let ghost removed = self.net.transitions@;
            tr.kind.anchors.push(anchor.to_owned());
            self.net.transitions.insert(t, tr);
            proof {
                assert(self.net.transitions@.len() == old(self).net.transitions@.len());
                assert forall|i: int|
                    0 <= i < old(self).net.transitions@.len() && i != t implies #[trigger] self.net.transitions@[i]
                        == old(self).net.transitions@[i] by {
                    if i < t {
                        assert(removed[i] == old(self).net.transitions@[i]);
                    } else {
                        assert(removed[i - 1] == old(self).net.transitions@[i]);
                    }
                }
            }
        }
        self
    }

    /// Sets the scope of `transition`, if the net has it.
    pub fn set_scope(&mut self, transition: TransitionId, scope: &str) -> (r: &mut Self)
        ensures
            *final(self) == *final(r),
            transition.0 < old(self).net_spec().transitions@.len() ==> {
                let old_t = old(self).net_spec().transitions@[transition.0 as int];
                let new_t = r.net_spec().transitions@[transition.0 as int];
                &&& r.net_spec().transitions@.len() == old(self).net_spec().transitions@.len()
                &&& forall|i: int|
                    0 <= i < old(self).net_spec().transitions@.len() && i != transition.0 ==> #[trigger] r.net_spec().transitions@[i]
                        == old(self).net_spec().transitions@[i]
                &&& new_t.name == old_t.name
                &&& new_t.kind.kind == old_t.kind.kind
                &&& new_t.kind.anchors == old_t.kind.anchors
                &&& new_t.kind.family == old_t.kind.family
                &&& new_t.kind.scope matches Some(s) && s@ == scope@
            },
            transition.0 >= old(self).net_spec().transitions@.len() ==> r.net_spec().transitions@ == old(
                self,
            ).net_spec().transitions@,
            r.net_spec().places@ == old(self).net_spec().places@,
            r.net_spec().arcs@ == old(self).net_spec().arcs@,
            r.marking_spec() == old(self).marking_spec(),
            r.vars_spec() == old(self).vars_spec(),
            r.domains_spec() == old(self).domains_spec(),
    {
        if transition.0 < self.net.transitions.len() {
            let t = transition.0;
            let mut tr = self.net.transitions.remove(t);
            let ghost removed = self.net.transitions@;
            tr.kind.scope = Some(scope.to_owned());
            self.net.transitions.insert(t, tr);
            proof {
                assert forall|i: int|
                    0 <= i < old(self).net.transitions@.len() && i != t implies #[trigger] self.net.transitions@[i]
                        == old(self).net.transitions@[i] by {
                    if i < t {
                        assert(removed[i] == old(self).net.transitions@[i]);
                    } else {
                        assert(removed[i - 1] == old(self).net.transitions@[i]);
                    }
                }
            }
        }
        self
    }

    /// Puts `transition` in the disjunctive family `family`, if the net has
    /// it.
    pub fn set_family(&mut self, transition: TransitionId, family: &str) -> (r: &mut Self)
        ensures
            *final(self) == *final(r),
            transition.0 < old(self).net_spec().transitions@.len() ==> {
                let old_t = old(self).net_spec().transitions@[transition.0 as int];
                let new_t = r.net_spec().transitions@[transition.0 as int];
                &&& r.net_spec().transitions@.len() == old(self).net_spec().transitions@.len()
                &&& forall|i: int|
                    0 <= i < old(self).net_spec().transitions@.len() && i != transition.0 ==> #[trigger] r.net_spec().transitions@[i]
                        == old(self).net_spec().transitions@[i]
                &&& new_t.name == old_t.name
                &&& new_t.kind.kind == old_t.kind.kind
                &&& new_t.kind.anchors == old_t.kind.anchors
                &&& new_t.kind.scope == old_t.kind.scope
                &&& new_t.kind.family matches Some(f) && f@ == family@
            },
            transition.0 >= old(self).net_spec().transitions@.len() ==> r.net_spec().transitions@ == old(
                self,
            ).net_spec().transitions@,
            r.net_spec().places@ == old(self).net_spec().places@,
            r.net_spec().arcs@ == old(self).net_spec().arcs@,
            r.marking_spec() == old(self).marking_spec(),
            r.vars_spec() == old(self).vars_spec(),
            r.domains_spec() == old(self).domains_spec(),
    {
        if transition.0 < self.net.transitions.len() {
            let t = transition.0;
            let mut tr = self.net.transitions.remove(t);
            let ghost removed = self.net.transitions@;
            tr.kind.family = Some(family.to_owned());
            self.net.transitions.insert(t, tr);
            proof {
                assert forall|i: int|
                    0 <= i < old(self).net.transitions@.len() && i != t implies #[trigger] self.net.transitions@[i]
                        == old(self).net.transitions@[i] by {
                    if i < t {
                        assert(removed[i] == old(self).net.transitions@[i]);
                    } else {
                        assert(removed[i - 1] == old(self).net.transitions@[i]);
                    }
                }
            }
        }
        self
    }

    /// Adds an input arc from `place` to `transition`; a guard other than
    /// `True` is kept on it.
    pub fn add_input_arc(&mut self, place: PlaceId, transition: TransitionId, weight: usize, guard: BoolExpr) -> (r:
        &mut Self)
        ensures
            *final(self) == *final(r),
            r.net_spec().arcs@.len() == old(self).net_spec().arcs@.len() + 1,
            r.net_spec().arcs@.drop_last() == old(self).net_spec().arcs@,
            r.net_spec().arcs@.last().place == place,
            r.net_spec().arcs@.last().transition == transition,
            r.net_spec().arcs@.last().direction == ArcDir::Input,
            r.net_spec().arcs@.last().weight == weight,
            r.net_spec().arcs@.last().kind == match guard {
                BoolExpr::True => CvnArcKind::Plain,
                g => CvnArcKind::Guard(g),
            },
            r.net_spec().places@ == old(self).net_spec().places@,
            r.net_spec().transitions@ == old(self).net_spec().transitions@,
            r.marking_spec() == old(self).marking_spec(),
            r.vars_spec() == old(self).vars_spec(),
            r.domains_spec() == old(self).domains_spec(),
    {
        let kind = match guard {
            BoolExpr::True => CvnArcKind::Plain,
            g => CvnArcKind::Guard(g),
        };
        self.net.add_arc(place, transition, ArcDir::Input, weight, kind);
        self
    }

    /// Adds an output arc from `transition` to `place`, with its updates if
    /// there are any.
    pub fn add_output_arc(
        &mut self,
        transition: TransitionId,
        place: PlaceId,
        weight: usize,
        update: Option<VarUpdate>,
    ) -> (r: &mut Self)
        ensures
            *final(self) == *final(r),
            r.net_spec().arcs@.len() == old(self).net_spec().arcs@.len() + 1,
            r.net_spec().arcs@.drop_last() == old(self).net_spec().arcs@,
            r.net_spec().arcs@.last().place == place,
            r.net_spec().arcs@.last().transition == transition,
            r.net_spec().arcs@.last().direction == ArcDir::Output,
            r.net_spec().arcs@.last().weight == weight,
            r.net_spec().arcs@.last().kind == match update {
                Some(u) => CvnArcKind::Update(u),
                None => CvnArcKind::Plain,
            },
            r.net_spec().places@ == old(self).net_spec().places@,
            r.net_spec().transitions@ == old(self).net_spec().transitions@,
            r.marking_spec() == old(self).marking_spec(),
            r.vars_spec() == old(self).vars_spec(),
            r.domains_spec() == old(self).domains_spec(),
    {
        let kind = match update {
            Some(u) => CvnArcKind::Update(u),
            None => CvnArcKind::Plain,
        };
        self.net.add_arc(place, transition, ArcDir::Output, weight, kind);
        self
    }

    /// Sets the initial token count of `place`, if the net has it.
    pub fn set_initial_tokens(&mut self, place: PlaceId, count: usize) -> (r: &mut Self)
        ensures
            *final(self) == *final(r),
            r.marking_spec() == if place.0 < old(self).marking_spec().len() {
                old(self).marking_spec().update(place.0 as int, count)
            } else {
                old(self).marking_spec()
            },
            r.net_spec() == old(self).net_spec(),
            r.vars_spec() == old(self).vars_spec(),
            r.domains_spec() == old(self).domains_spec(),
    {
        if place.0 < self.marking.len() {
            self.marking.set(place.0, count);
        }
        self
    }

    /// Declares variable `name` with value `initial`.
    pub fn add_variable(&mut self, name: &str, initial: Val) -> (r: &mut Self)
        ensures
            *final(self) == *final(r),
            r.vars_spec() == old(self).vars_spec().insert(name@, initial),
            r.net_spec() == old(self).net_spec(),
            r.marking_spec() == old(self).marking_spec(),
            r.domains_spec() == old(self).domains_spec(),
    {
        self.vars.insert(name.to_owned(), initial);
        self
    }

    /// Bounds the integer variable `name` to `lo..=hi`: an update leaving
    /// the bounds disables the transition. A later bound of the same
    /// variable replaces an earlier one.
    pub fn set_variable_domain(&mut self, name: &str, lo: i64, hi: i64) -> (r: &mut Self)
        ensures
            *final(self) == *final(r),
            first_named(old(self).domains_spec(), name@) >= 0 ==> {
                let i = first_named(old(self).domains_spec(), name@);
                &&& r.domains_spec().len() == old(self).domains_spec().len()
                &&& r.domains_spec()[i].0@ == name@
                &&& r.domains_spec()[i].1 == (lo, hi)
                &&& forall|j: int|
                    0 <= j < r.domains_spec().len() && j != i ==> #[trigger] r.domains_spec()[j] == old(
                        self,
                    ).domains_spec()[j]
            },
            first_named(old(self).domains_spec(), name@) < 0 ==> {
                &&& r.domains_spec().len() == old(self).domains_spec().len() + 1
                &&& r.domains_spec().drop_last() == old(self).domains_spec()
                &&& r.domains_spec().last().0@ == name@
                &&& r.domains_spec().last().1 == (lo, hi)
            },
            r.net_spec() == old(self).net_spec(),
            r.marking_spec() == old(self).marking_spec(),
            r.vars_spec() == old(self).vars_spec(),
    {
        let key = name.to_owned();
        let n = self.domains.len();
        let mut i: usize = 0;
        while i < n
            invariant
                i <= n,
                n == self.domains@.len(),
                first_named(self.domains@.take(i as int), key@) < 0,
            ensures
                i <= n,
                first_named(self.domains@.take(i as int), key@) < 0,
                i < n ==> self.domains@[i as int].0@ == key@,
            decreases n - i,
        {
            proof {
                lemma_first_named_prefix(self.domains@, i as int, key@);
            }
            if self.domains[i].0 == key {
                break;
            }
            i = i + 1;
        }
        proof {
            lemma_first_named_prefix(self.domains@, i as int, key@);
            if i < n {
                lemma_first_named_prefix(self.domains@, i + 1, key@);
                assert(first_named(self.domains@.take(i + 1), key@) == i);
            }
        }
        if i < n {
            self.domains.set(i, (key, (lo, hi)));
        } else {
            assert(self.domains@.take(n as int) == self.domains@);
            self.domains.push((key, (lo, hi)));
        }
        self
    }

    /// The net and its initial state.
    pub fn build(self) -> (r: (CvnNet, CvnState))
        ensures
            r.0 == self.net_spec(),
            r.1.marking@ == self.marking_spec(),
            r.1.extra.vars@ == self.vars_spec(),
            r.1.extra.domains@ == self.domains_spec(),
    {
        let CvnBuilder { net, marking, vars, domains } = self;
        (net, CvnState { marking: Marking::new(marking), extra: CvnExtra { vars, domains } })
    }
}

/// The position of the first entry of `ds` named `name`, or -1.
pub open spec fn first_named(ds: Seq<(String, (i64, i64))>, name: Seq<char>) -> int
    decreases ds.len(),
{
    if ds.len() == 0 {
        -1
    } else {
        let i = first_named(ds.drop_last(), name);
        if i >= 0 {
            i
        } else if ds.last().0@ == name {
            ds.len() - 1
        } else {
            -1
        }
    }
}

/// Looking one entry further: the first entry named `name` among the first
/// `i + 1` is the one among the first `i`, or entry `i` when there was none
/// and it has the name.
pub(crate) proof fn lemma_first_named_prefix(ds: Seq<(String, (i64, i64))>, i: int, name: Seq<char>)
    requires
        0 <= i <= ds.len(),
    ensures
        i < ds.len() ==> first_named(ds.take(i + 1), name) == if first_named(ds.take(i), name) >= 0 {
            first_named(ds.take(i), name)
        } else if ds[i].0@ == name {
            i
        } else {
            -1
        },
        i == ds.len() ==> first_named(ds.take(i), name) == first_named(ds, name),
        first_named(ds.take(i), name) >= 0 ==> first_named(ds, name) == first_named(ds.take(i), name),
        first_named(ds, name) < ds.len(),
        first_named(ds, name) >= 0 ==> ds[first_named(ds, name)].0@ == name,
    decreases ds.len() - i,
{
    if i < ds.len() {
        assert(ds.take(i + 1).drop_last() == ds.take(i));
        lemma_first_named_prefix(ds, i + 1, name);
    } else {
        assert(ds.take(i) == ds);
    }
    lemma_first_named_bounds(ds, name);
}

/// The first entry named `name` is an entry of `ds` with that name.
pub(crate) proof fn lemma_first_named_bounds(ds: Seq<(String, (i64, i64))>, name: Seq<char>)
    ensures
        first_named(ds, name) < ds.len(),
        first_named(ds, name) >= -1,
        first_named(ds, name) >= 0 ==> ds[first_named(ds, name)].0@ == name,
    decreases ds.len(),
{
    if ds.len() > 0 {
        lemma_first_named_bounds(ds.drop_last(), name);
        let i = first_named(ds.drop_last(), name);
        if i >= 0 {
            assert(ds[i] == ds.drop_last()[i]);
        }
    }
}

} // verus!
