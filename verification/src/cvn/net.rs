//! The colored verification net itself: places with their kinds,
//! transitions with their payloads, arcs carrying guards, variable updates
//! and scope ends, and the state of a run: a marking with a variable store
//! and the bounded domains of integer variables.
use vstd::prelude::*;

use super::expr::{BoolExpr, Expr, Val, VarStore};
use super::kinds::{ControlSub, CvnTransition, PlaceKind, ResourceType};
use crate::ids::{PlaceId, TransitionId};
use crate::pt::{ArcDir, Marking};
use crate::text::{decimal, push_decimal, push_str};

verus! {

/// Variable updates of an output arc: each variable with the expression
/// it is set to, evaluated against the store before the firing.
pub type VarUpdate = Vec<(String, Expr)>;

/// What an arc carries besides its weight.
#[derive(Debug, PartialEq, Eq, Hash)]
pub enum CvnArcKind {
    Plain,
    /// A guard of an input arc.
    Guard(BoolExpr),
    /// Updates of an output arc.
    Update(VarUpdate),
    /// Variables whose scope ends when the transition fires.
    DropVars(Vec<String>),
}

/// A place: its name and kind.
#[derive(Debug, PartialEq, Eq)]
pub struct Place {
    pub name: String,
    pub kind: PlaceKind,
}

/// A transition: its name and payload.
#[derive(Debug, PartialEq, Eq)]
pub struct Transition {
    pub name: String,
    pub kind: CvnTransition,
}

/// An arc between a place and a transition.
#[derive(Debug, PartialEq, Eq)]
pub struct Arc {
    pub place: PlaceId,
    pub transition: TransitionId,
    pub direction: ArcDir,
    pub weight: usize,
    pub kind: CvnArcKind,
}

/// A colored verification net: places, transitions and arcs, each place
/// and transition identified by its index.
#[derive(Debug)]
pub struct CvnNet {
    pub places: Vec<Place>,
    pub transitions: Vec<Transition>,
    pub arcs: Vec<Arc>,
}

/// The data part of a state: the variable store and, for integer
/// variables, the bounds an update may not leave.
#[derive(Debug)]
pub struct CvnExtra {
    pub vars: VarStore,
    pub domains: Vec<(String, (i64, i64))>,
}

/// A state of a colored verification net.
#[derive(Debug)]
pub struct CvnState {
    pub marking: Marking,
    pub extra: CvnExtra,
}

/// Whether two states hold the same marking, variables and domains.
pub open spec fn same_state(a: CvnState, b: CvnState) -> bool {
    &&& a.marking@ == b.marking@
    &&& a.extra.vars@ == b.extra.vars@
    &&& a.extra.domains@ == b.extra.domains@
}

impl Clone for CvnState {
    fn clone(&self) -> (r: Self)
        ensures
            same_state(r, *self),
    {
        let mut domains: Vec<(String, (i64, i64))> = Vec::new();
        let n = self.extra.domains.len();
        let mut i: usize = 0;
        while i < n
            invariant
                i <= n,
                n == self.extra.domains@.len(),
                domains@ == self.extra.domains@.take(i as int),
            decreases n - i,
        {
            let (name, bounds) = &self.extra.domains[i];
            domains.push((name.clone(), *bounds));
            assert(self.extra.domains@.take(i + 1) == self.extra.domains@.take(i as int).push(self.extra.domains@[i as int]));
            i = i + 1;
        }
        assert(self.extra.domains@.take(n as int) == self.extra.domains@);
        CvnState {
            marking: self.marking.clone(),
            extra: CvnExtra { vars: self.extra.vars.clone(), domains },
        }
    }
}

impl CvnNet {
    /// The kind of place `p`, if the net has it.
    pub open spec fn kind_at(&self, p: int) -> Option<PlaceKind> {
        if 0 <= p < self.places@.len() {
            Some(self.places@[p].kind)
        } else {
            None
        }
    }

    /// The number of tokens place `p` may hold, if it is bounded.
    pub open spec fn capacity_spec(&self, p: PlaceId) -> Option<usize> {
        match self.kind_at(p.0 as int) {
            Some(PlaceKind::Resource(ResourceType::Mutex)) => Some(1usize),
            Some(PlaceKind::Resource(ResourceType::RwLock { max_readers })) => Some(max_readers),
            Some(PlaceKind::Resource(ResourceType::Semaphore { count })) => Some(count),
            _ => None,
        }
    }

    /// The net with no place, transition or arc.
    pub fn new() -> (r: Self)
        ensures
            r.places@.len() == 0,
            r.transitions@.len() == 0,
            r.arcs@.len() == 0,
    {
        CvnNet { places: Vec::new(), transitions: Vec::new(), arcs: Vec::new() }
    }

    /// Adds a place named `name` of kind `kind` and returns its identifier.
    pub fn add_place(&mut self, name: &str, kind: PlaceKind) -> (id: PlaceId)
        ensures
            id.0 == old(self).places@.len(),
            final(self).places@.len() == old(self).places@.len() + 1,
            forall|i: int| 0 <= i < old(self).places@.len() ==> #[trigger] final(self).places@[i] == old(self).places@[i],
            final(self).places@[id.0 as int].name@ == name@,
            final(self).places@[id.0 as int].kind == kind,
            final(self).transitions@ == old(self).transitions@,
            final(self).arcs@ == old(self).arcs@,
    {
        let id = PlaceId(self.places.len());
        self.places.push(Place { name: name.to_owned(), kind });
        id
    }

    /// Adds a transition named `name` with payload `kind` and returns its
    /// identifier.
    pub fn add_transition(&mut self, name: &str, kind: CvnTransition) -> (id: TransitionId)
        ensures
            id.0 == old(self).transitions@.len(),
            final(self).transitions@.len() == old(self).transitions@.len() + 1,
            forall|i: int|
                0 <= i < old(self).transitions@.len() ==> #[trigger] final(self).transitions@[i] == old(
                    self,
                ).transitions@[i],
            final(self).transitions@[id.0 as int].name@ == name@,
            final(self).transitions@[id.0 as int].kind == kind,
            final(self).places@ == old(self).places@,
            final(self).arcs@ == old(self).arcs@,
    {
        let id = TransitionId(self.transitions.len());
        self.transitions.push(Transition { name: name.to_owned(), kind });
        id
    }

    /// Adds an arc.
    pub fn add_arc(
        &mut self,
        place: PlaceId,
        transition: TransitionId,
        direction: ArcDir,
        weight: usize,
        kind: CvnArcKind,
    )
        ensures
            final(self).arcs@ == old(self).arcs@.push(Arc { place, transition, direction, weight, kind }),
            final(self).places@ == old(self).places@,
            final(self).transitions@ == old(self).transitions@,
    {
        self.arcs.push(Arc { place, transition, direction, weight, kind });
    }

    /// The place `place`, if the net has it.
    pub fn place(&self, place: PlaceId) -> (r: Option<&Place>)
        ensures
            match r {
                Some(p) => place.0 < self.places@.len() && *p == self.places@[place.0 as int],
                None => place.0 >= self.places@.len(),
            },
    {
        if place.0 < self.places.len() {
            Some(&self.places[place.0])
        } else {
            None
        }
    }

    /// The transition `transition`, if the net has it.
    pub fn transition(&self, transition: TransitionId) -> (r: Option<&Transition>)
        ensures
            match r {
                Some(t) => transition.0 < self.transitions@.len() && *t == self.transitions@[transition.0 as int],
                None => transition.0 >= self.transitions@.len(),
            },
    {
        if transition.0 < self.transitions.len() {
            Some(&self.transitions[transition.0])
        } else {
            None
        }
    }

    /// The number of tokens place `place` may hold: one for a mutex, the
    /// reader limit of a read-write lock, the count of a semaphore; none for
    /// other places and for a place the net does not have.
    pub fn capacity_of(&self, place: PlaceId) -> (r: Option<usize>)
        ensures
            r == self.capacity_spec(place),
    {
        match self.place(place) {
            Some(p) => p.kind.capacity(),
            None => None,
        }
    }

    /// Whether `place` is a control-flow place.
    pub fn is_control_flow(&self, place: PlaceId) -> (r: bool)
        ensures
            r == (self.kind_at(place.0 as int) matches Some(PlaceKind::Control(_))),
    {
        match self.place(place) {
            Some(p) => match p.kind {
                PlaceKind::Control(_) => true,
                PlaceKind::Resource(_) => false,
            },
            None => false,
        }
    }

    /// Whether `place` is a resource place.
    pub fn is_resource(&self, place: PlaceId) -> (r: bool)
        ensures
            r == (self.kind_at(place.0 as int) matches Some(PlaceKind::Resource(_))),
    {
        match self.place(place) {
            Some(p) => match p.kind {
                PlaceKind::Resource(_) => true,
                PlaceKind::Control(_) => false,
            },
            None => false,
        }
    }

    /// Whether a token on `place` has finished its thread: the place ends a
    /// function, which is also where a spawned function's thread ends.
    pub fn is_thread_terminal(&self, place: PlaceId) -> (r: bool)
        ensures
            r == (self.kind_at(place.0 as int) == Some(PlaceKind::Control(ControlSub::FunctionEnd))),
    {
        match self.place(place) {
            Some(p) => match p.kind {
                PlaceKind::Control(ControlSub::FunctionEnd) => true,
                _ => false,
            },
            None => false,
        }
    }

    /// Whether `place` is a condition-variable wait point.
    pub fn is_wait_point(&self, place: PlaceId) -> (r: bool)
        ensures
            r == (self.kind_at(place.0 as int) == Some(PlaceKind::Control(ControlSub::WaitPoint))),
    {
        match self.place(place) {
            Some(p) => match p.kind {
                PlaceKind::Control(ControlSub::WaitPoint) => true,
                _ => false,
            },
            None => false,
        }
    }

    /// The name of `place`, or `p` and its index when the net does not have
    /// it.
    pub fn place_label(&self, place: PlaceId) -> (r: String)
        ensures
            r@ == if place.0 < self.places@.len() {
                self.places@[place.0 as int].name@
            } else {
                seq!['p'] + decimal(place.0 as nat)
            },
    {
        match self.place(place) {
            Some(p) => p.name.clone(),
            None => {
                let mut s = String::new();
                push_str(&mut s, "p");
                push_decimal(&mut s, place.0 as u64);
                proof {
                    reveal_strlit("p");
                }
                s
            },
        }
    }

    /// The name of `transition`, or `t` and its index when the net does not
    /// have it.
    pub fn transition_label(&self, transition: TransitionId) -> (r: String)
        ensures
            r@ == if transition.0 < self.transitions@.len() {
                self.transitions@[transition.0 as int].name@
            } else {
                seq!['t'] + decimal(transition.0 as nat)
            },
    {
        match self.transition(transition) {
            Some(t) => t.name.clone(),
            None => {
                let mut s = String::new();
                push_str(&mut s, "t");
                push_decimal(&mut s, transition.0 as u64);
                proof {
                    reveal_strlit("t");
                }
                s
            },
        }
    }
}

} // verus!
