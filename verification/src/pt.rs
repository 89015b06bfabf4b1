//! Place/transition nets: places with token counts, transitions, and weighted
//! input, output, read, inhibitor and reset arcs.
use vstd::prelude::*;

use crate::bug::{PlaceType, TransitionType};
use crate::ids::{PlaceId, TransitionId};

verus! {

/// The role of an arc.
#[derive(Clone, Copy, Debug, PartialEq, Eq, Hash, Structural)]
pub enum ArcDir {
    /// Consumes `weight` tokens from the place.
    Input,
    /// Produces `weight` tokens on the place.
    Output,
    /// Disables the transition while the place holds `weight` tokens or more.
    Inhibitor,
    /// Empties the place when the transition fires.
    Reset,
    /// Requires `weight` tokens on the place without consuming them.
    Read,
}

/// A place: its name, initial token count, optional capacity, and what it
/// stands for in the analysed program.
#[derive(Debug, PartialEq, Eq)]
pub struct PtPlace {
    pub name: String,
    pub tokens: usize,
    pub capacity: Option<usize>,
    pub place_type: PlaceType,
    pub span: String,
}

impl Clone for PtPlace {
    fn clone(&self) -> (r: Self)
        ensures
            r == *self,
    {
        PtPlace {
            name: self.name.clone(),
            tokens: self.tokens,
            capacity: self.capacity,
            place_type: self.place_type.clone(),
            span: self.span.clone(),
        }
    }
}

/// A transition: its name and what it stands for in the analysed program.
#[derive(Debug, PartialEq, Eq)]
pub struct PtTransition {
    pub name: String,
    pub transition_type: TransitionType,
}

impl Clone for PtTransition {
    fn clone(&self) -> (r: Self)
        ensures
            r.name == self.name,
            r.transition_type.same_as(self.transition_type),
    {
        PtTransition { name: self.name.clone(), transition_type: self.transition_type.clone() }
    }
}

impl PtTransition {
    /// A transition of the given type.
    pub fn new_with_transition_type(name: String, transition_type: TransitionType) -> (r: Self)
        ensures
            r.name@ == name@,
            r.transition_type == transition_type,
    {
        PtTransition { name, transition_type }
    }
}

/// A weighted arc between a place and a transition.
#[derive(Clone, Copy, Debug, PartialEq, Eq, Hash, Structural)]
pub struct PtArc {
    pub place: PlaceId,
    pub transition: TransitionId,
    pub direction: ArcDir,
    pub weight: usize,
}

/// Errors in the structure of a net or of an analysis request.
#[derive(Clone, Copy, Debug, PartialEq, Eq, Structural)]
pub enum PtModelError {
    /// An arc refers to a place or a transition that the net does not have.
    InvalidArc,
    /// An analysis was asked for with an unusable configuration.
    InvalidConfiguration,
    /// Metadata does not have one entry per place and per transition.
    MetadataLengthMismatch,
}

/// Errors while executing a net.
#[derive(Clone, Copy, Debug, PartialEq, Eq, Structural)]
pub enum PtExecutionError {
    /// The net or the request is malformed.
    Model(PtModelError),
    /// The transition is not enabled in the marking.
    NotEnabled,
    /// Firing would put more tokens on a place than a `usize` holds.
    Overflow,
}

/// A marking: the token count of every place, by place index.
#[derive(Debug, Eq, Hash)]
pub struct Marking(pub Vec<usize>);

impl PartialEq for Marking {
    fn eq(&self, other: &Marking) -> (r: bool) {
        self.same(other)
    }
}

impl vstd::std_specs::cmp::PartialEqSpecImpl for Marking {
    open spec fn obeys_eq_spec() -> bool {
        true
    }

    open spec fn eq_spec(&self, other: &Marking) -> bool {
        self@ == other@
    }
}

impl View for Marking {
    type V = Seq<usize>;

    open spec fn view(&self) -> Seq<usize> {
        self.0@
    }
}

impl Marking {
    /// The marking with the given token counts.
    pub fn new(tokens: Vec<usize>) -> (r: Self)
        ensures
            r@ == tokens@,
    {
        Marking(tokens)
    }

    /// The token count of `place` (zero for a place outside the marking).
    pub fn tokens(&self, place: PlaceId) -> (r: usize)
        ensures
            r == if place.0 < self@.len() {
                self@[place.0 as int]
            } else {
                0
            },
    {
        if place.0 < self.0.len() {
            self.0[place.0]
        } else {
            0
        }
    }

    /// The number of places the marking covers.
    pub fn len(&self) -> (r: usize)
        ensures
            r == self@.len(),
    {
        self.0.len()
    }

    /// Whether two markings hold the same token counts.
    pub fn same(&self, other: &Marking) -> (r: bool)
        ensures
            r == (self@ == other@),
    {
        let r = self.0 == other.0;
        proof {
            if r {
                assert(self.0@ =~= other.0@);
            }
        }
        r
    }

}

impl Clone for PtNet {
    fn clone(&self) -> (r: Self)
        ensures
            r.same_as(*self),
    {
        let r = PtNet {
            places: self.places.clone(),
            transitions: self.transitions.clone(),
            arcs: self.arcs.clone(),
        };
        proof {
            assert(r.places@ =~= self.places@);
            assert(r.arcs@ =~= self.arcs@);
        }
        r
    }
}

impl Clone for Marking {
    fn clone(&self) -> (r: Marking)
        ensures
            r@ == self@,
    {
        let mut v: Vec<usize> = Vec::new();
        for i in 0..self.0.len()
            invariant
                v@ == self@.take(i as int),
        {
            v.push(self.0[i]);
            assert(self@.take(i + 1) == self@.take(i as int).push(self@[i as int]));
        }
        assert(self@.take(self@.len() as int) == self@);
        Marking(v)
    }
}

/// The total weight of the arcs of `arcs` from transition `t` to place `p`
/// with role `dir`.
pub open spec fn weight_sum(arcs: Seq<PtArc>, t: usize, p: usize, dir: ArcDir) -> nat
    decreases arcs.len(),
{
    if arcs.len() == 0 {
        0
    } else {
        weight_sum(arcs.drop_last(), t, p, dir) + arc_weight(arcs.last(), t, p, dir)
    }
}

/// Whether some arc of `arcs` from transition `t` to place `p` has role `dir`.
pub open spec fn has_arc(arcs: Seq<PtArc>, t: usize, p: usize, dir: ArcDir) -> bool {
    exists|k: int|
        #![trigger arcs[k]]
        0 <= k < arcs.len() && arcs[k].transition.0 == t && arcs[k].place.0 == p && arcs[k].direction
            == dir
}

/// The contribution of one arc to `weight_sum`.
pub open spec fn arc_weight(a: PtArc, t: usize, p: usize, dir: ArcDir) -> nat {
    if a.transition.0 == t && a.place.0 == p && a.direction == dir {
        a.weight as nat
    } else {
        0nat
    }
}

/// Extending a prefix of the arcs by one arc adds that arc's contribution.
pub proof fn lemma_weight_sum_step(arcs: Seq<PtArc>, k: int, t: usize, p: usize, dir: ArcDir)
    requires
        0 <= k < arcs.len(),
    ensures
        weight_sum(arcs.take(k + 1), t, p, dir) == weight_sum(arcs.take(k), t, p, dir)
            + arc_weight(arcs[k], t, p, dir),
{
    assert(arcs.take(k + 1).drop_last() == arcs.take(k));
    assert(arcs.take(k + 1).last() == arcs[k]);
}

/// The weight sum of a prefix never exceeds that of the whole sequence.
pub proof fn lemma_weight_sum_prefix(arcs: Seq<PtArc>, k: int, t: usize, p: usize, dir: ArcDir)
    requires
        0 <= k <= arcs.len(),
    ensures
        weight_sum(arcs.take(k), t, p, dir) <= weight_sum(arcs, t, p, dir),
    decreases arcs.len() - k,
{
    if k == arcs.len() {
        assert(arcs.take(k) == arcs);
    } else {
        lemma_weight_sum_step(arcs, k, t, p, dir);
        lemma_weight_sum_prefix(arcs, k + 1, t, p, dir);
    }
}

/// Whether `r` lists, in increasing order, exactly the transitions below
/// `count` that satisfy `pred`.
pub open spec fn sorted_selection(r: Seq<TransitionId>, count: nat, pred: spec_fn(usize) -> bool) -> bool {
    &&& forall|i: int, j: int| 0 <= i < j < r.len() ==> r[i].0 < r[j].0
    &&& forall|i: int| 0 <= i < r.len() ==> r[i].0 < count && pred(#[trigger] r[i].0)
    &&& forall|t: usize|
        t < count && #[trigger] pred(t) ==> exists|i: int| #![trigger r[i]] 0 <= i < r.len() && r[i].0 == t
}

/// Whether an arc is attached to transition `t`.
pub open spec fn arc_of(t: TransitionId) -> spec_fn(PtArc) -> bool {
    |a: PtArc| a.transition == t
}

/// Whether an arc is attached to transition `t` with role `dir`.
pub open spec fn arc_of_dir(t: TransitionId, dir: ArcDir) -> spec_fn(PtArc) -> bool {
    |a: PtArc| a.transition == t && a.direction == dir
}

/// A P/T net.
#[derive(Debug, PartialEq, Eq)]
pub struct PtNet {
    pub places: Vec<PtPlace>,
    pub transitions: Vec<PtTransition>,
    pub arcs: Vec<PtArc>,
}

impl PtNet {
    /// Whether two nets have the same places and arcs, and transitions with
    /// the same names and contents.
    pub open spec fn same_as(&self, other: PtNet) -> bool {
        &&& self.places@ == other.places@
        &&& self.arcs@ == other.arcs@
        &&& self.transitions@.len() == other.transitions@.len()
        &&& forall|i: int|
            0 <= i < self.transitions@.len() ==> (#[trigger] self.transitions@[i]).name
                == other.transitions@[i].name && self.transitions@[i].transition_type.same_as(
                other.transitions@[i].transition_type,
            )
    }

    /// Every arc refers to a place and a transition of the net.
    pub open spec fn wf(&self) -> bool {
        forall|k: int|
            #![trigger self.arcs@[k]]
            0 <= k < self.arcs@.len() ==> self.arcs@[k].place.0 < self.places@.len()
                && self.arcs@[k].transition.0 < self.transitions@.len()
    }

    /// The tokens that firing `t` consumes from `p`.
    pub open spec fn consumed(&self, t: usize, p: usize) -> nat {
        weight_sum(self.arcs@, t, p, ArcDir::Input)
    }

    /// The tokens that firing `t` produces on `p`.
    pub open spec fn produced(&self, t: usize, p: usize) -> nat {
        weight_sum(self.arcs@, t, p, ArcDir::Output)
    }

    /// Whether transition `t` may fire in marking `m`: every place holds the
    /// tokens that `t` consumes from it, every read arc finds its weight, and
    /// every inhibitor arc finds fewer tokens than its weight.
    pub open spec fn enabled_in(&self, m: Seq<usize>, t: usize) -> bool {
        &&& t < self.transitions@.len()
        &&& forall|p: usize| p < m.len() ==> m[p as int] >= #[trigger] self.consumed(t, p)
        &&& forall|k: int|
            #![trigger self.arcs@[k]]
            0 <= k < self.arcs@.len() && self.arcs@[k].transition.0 == t && self.arcs@[k].direction
                == ArcDir::Read ==> m[self.arcs@[k].place.0 as int] >= self.arcs@[k].weight
        &&& forall|k: int|
            #![trigger self.arcs@[k]]
            0 <= k < self.arcs@.len() && self.arcs@[k].transition.0 == t && self.arcs@[k].direction
                == ArcDir::Inhibitor ==> m[self.arcs@[k].place.0 as int] < self.arcs@[k].weight
    }

    /// The predicate "enabled in `m`" on transition indices.
    pub open spec fn enabled_pred(&self, m: Seq<usize>) -> spec_fn(usize) -> bool {
        |t: usize| self.enabled_in(m, t)
    }

    /// The token count of `p` after firing `t` in `m` (without the bound of
    /// `usize`): emptied by a reset arc, otherwise consumed and produced.
    pub open spec fn after_firing(&self, m: Seq<usize>, t: usize, p: int) -> int {
        if has_arc(self.arcs@, t, p as usize, ArcDir::Reset) {
            0
        } else {
            m[p] - self.consumed(t, p as usize) + self.produced(t, p as usize)
        }
    }

    /// Whether firing `t` in `m` would overflow a token count.
    pub open spec fn fire_overflows(&self, m: Seq<usize>, t: usize) -> bool {
        exists|p: int|
            0 <= p < m.len() && !has_arc(self.arcs@, t, p as usize, ArcDir::Reset) && m[p]
                - self.consumed(t, p as usize) + self.produced(t, p as usize) > usize::MAX
    }

    /// The marking reached by firing `t` in `m`.
    pub open spec fn fired(&self, m: Seq<usize>, t: usize) -> Seq<usize> {
        Seq::new(m.len(), |p: int| self.after_firing(m, t, p) as usize)
    }

    /// The result of firing `t` in `m`.
    pub open spec fn fire_result(&self, m: Seq<usize>, t: usize) -> Result<Seq<usize>, PtExecutionError> {
        if !self.enabled_in(m, t) {
            Err(PtExecutionError::NotEnabled)
        } else if self.fire_overflows(m, t) {
            Err(PtExecutionError::Overflow)
        } else {
            Ok(self.fired(m, t))
        }
    }

    /// The marking reached from `m` by firing the transitions of `w` in
    /// order, if every firing succeeds.
    pub open spec fn run(&self, m: Seq<usize>, w: Seq<TransitionId>) -> Option<Seq<usize>>
        decreases w.len(),
    {
        if w.len() == 0 {
            Some(m)
        } else {
            match self.run(m, w.drop_last()) {
                Some(m1) => match self.fire_result(m1, w.last().0) {
                    Ok(m2) => Some(m2),
                    Err(_) => None,
                },
                None => None,
            }
        }
    }

    /// Whether some firing sequence leads from `m0` to `m`.
    pub open spec fn reachable(&self, m0: Seq<usize>, m: Seq<usize>) -> bool {
        exists|w: Seq<TransitionId>| self.run(m0, w) == Some(m)
    }

    /// The initial marking: the initial token count of every place.
    pub open spec fn initial(&self) -> Seq<usize> {
        Seq::new(self.places@.len(), |p: int| self.places@[p].tokens)
    }

    /// The empty net.
    pub fn new() -> (r: Self)
        ensures
            r.places@.len() == 0,
            r.transitions@.len() == 0,
            r.arcs@.len() == 0,
    {
        PtNet { places: Vec::new(), transitions: Vec::new(), arcs: Vec::new() }
    }

    /// Adds a place and returns its identifier.
    pub fn add_place(&mut self, place: PtPlace) -> (id: PlaceId)
        ensures
            id.0 == old(self).places@.len(),
            final(self).places@ == old(self).places@.push(place),
            final(self).transitions@ == old(self).transitions@,
            final(self).arcs@ == old(self).arcs@,
    {
        let id = PlaceId(self.places.len());
        self.places.push(place);
        id
    }

    /// Adds a transition and returns its identifier.
    pub fn add_transition(&mut self, transition: PtTransition) -> (id: TransitionId)
        ensures
            id.0 == old(self).transitions@.len(),
            final(self).transitions@ == old(self).transitions@.push(transition),
            final(self).places@ == old(self).places@,
            final(self).arcs@ == old(self).arcs@,
    {
        let id = TransitionId(self.transitions.len());
        self.transitions.push(transition);
        id
    }

    /// Adds an arc.
    pub fn add_arc(&mut self, place: PlaceId, transition: TransitionId, direction: ArcDir, weight: usize)
        ensures
            final(self).arcs@ == old(self).arcs@.push(
                PtArc { place, transition, direction, weight },
            ),
            final(self).places@ == old(self).places@,
            final(self).transitions@ == old(self).transitions@,
    {
        self.arcs.push(PtArc { place, transition, direction, weight });
    }

    /// The place `place`, if the net has it.
    pub fn place(&self, place: PlaceId) -> (r: Option<&PtPlace>)
        ensures
            r == if place.0 < self.places@.len() {
                Some(&self.places@[place.0 as int])
            } else {
                None
            },
    {
        if place.0 < self.places.len() {
            Some(&self.places[place.0])
        } else {
            None
        }
    }

    /// The transition `transition`, if the net has it.
    pub fn transition(&self, transition: TransitionId) -> (r: Option<&PtTransition>)
        ensures
            r == if transition.0 < self.transitions@.len() {
                Some(&self.transitions@[transition.0 as int])
            } else {
                None
            },
    {
        if transition.0 < self.transitions.len() {
            Some(&self.transitions[transition.0])
        } else {
            None
        }
    }

    /// The arcs attached to `transition`, in the order they were added.
    pub fn arcs_for(&self, transition: TransitionId) -> (r: Vec<PtArc>)
        ensures
            r@ == self.arcs@.filter(arc_of(transition)),
    {
        let mut r: Vec<PtArc> = Vec::new();
        for k in 0..self.arcs.len()
            invariant
                r@ == self.arcs@.take(k as int).filter(arc_of(transition)),
        {
            let a = self.arcs[k];
            proof {
                assert(self.arcs@.take(k + 1) == self.arcs@.take(k as int).push(a));
                self.arcs@.take(k as int).lemma_filter_push(a, arc_of(transition));
            }
            if a.transition == transition {
                r.push(a);
            }
        }
        assert(self.arcs@.take(self.arcs@.len() as int) == self.arcs@);
        r
    }

    /// The arcs attached to `transition` with role `direction`, in the order
    /// they were added.
    pub fn arcs_of(&self, transition: TransitionId, direction: ArcDir) -> (r: Vec<PtArc>)
        ensures
            r@ == self.arcs@.filter(arc_of_dir(transition, direction)),
    {
        let mut r: Vec<PtArc> = Vec::new();
        for k in 0..self.arcs.len()
            invariant
                r@ == self.arcs@.take(k as int).filter(arc_of_dir(transition, direction)),
        {
            let a = self.arcs[k];
            proof {
                assert(self.arcs@.take(k + 1) == self.arcs@.take(k as int).push(a));
                self.arcs@.take(k as int).lemma_filter_push(a, arc_of_dir(transition, direction));
            }
            if a.transition == transition && a.direction == direction {
                r.push(a);
            }
        }
        assert(self.arcs@.take(self.arcs@.len() as int) == self.arcs@);
        r
    }

    /// The initial marking: the initial token count of every place.
    pub fn initial_marking(&self) -> (r: Marking)
        ensures
            r@ == self.initial(),
    {
        let mut v: Vec<usize> = Vec::new();
        for i in 0..self.places.len()
            invariant
                v@.len() == i,
                forall|p: int| 0 <= p < i ==> v@[p] == self.places@[p].tokens,
        {
            v.push(self.places[i].tokens);
        }
        assert(v@ =~= self.initial());
        Marking(v)
    }

    /// Whether transition `t` may fire in marking `m`.
    pub fn is_enabled(&self, m: &Marking, t: TransitionId) -> (r: bool)
        requires
            self.wf(),
            m@.len() == self.places@.len(),
        ensures
            r == self.enabled_in(m@, t.0),
    {
        if t.0 >= self.transitions.len() {
            return false;
        }
        let n = self.places.len();
        let mut need: Vec<usize> = Vec::new();
        for p in 0..n
            invariant
                need@.len() == p,
                forall|q: int| 0 <= q < p ==> need@[q] == 0,
        {
            need.push(0);
        }
        proof {
            assert forall|q: usize| q < n implies need@[q as int] == #[trigger] weight_sum(
                self.arcs@.take(0),
                t.0,
                q,
                ArcDir::Input,
            ) by {
                assert(self.arcs@.take(0).len() == 0);
            }
        }
        let mut k: usize = 0;
        while k < self.arcs.len()
            invariant
                self.wf(),
                k <= self.arcs@.len(),
                n == self.places@.len(),
                m@.len() == n,
                t.0 < self.transitions@.len(),
                need@.len() == n,
                forall|q: usize|
                    q < n ==> need@[q as int] == #[trigger] weight_sum(
                        self.arcs@.take(k as int),
                        t.0,
                        q,
                        ArcDir::Input,
                    ),
            decreases self.arcs@.len() - k,
        {
            let a = self.arcs[k];
            proof {
                assert forall|q: usize| q < n implies #[trigger] weight_sum(
                    self.arcs@.take(k + 1),
                    t.0,
                    q,
                    ArcDir::Input,
                ) == weight_sum(self.arcs@.take(k as int), t.0, q, ArcDir::Input) + arc_weight(
                    a,
                    t.0,
                    q,
                    ArcDir::Input,
                ) by {
                    lemma_weight_sum_step(self.arcs@, k as int, t.0, q, ArcDir::Input);
                }
            }
            if a.transition.0 == t.0 && a.direction == ArcDir::Input {
                let p = a.place.0;
                assert(need@[p as int] == weight_sum(self.arcs@.take(k as int), t.0, p, ArcDir::Input));
                assert(arc_weight(a, t.0, p, ArcDir::Input) == a.weight);
                match need[p].checked_add(a.weight) {
                    Some(x) => {
                        need.set(p, x);
                    },
                    None => {
                        proof {
                            lemma_weight_sum_prefix(self.arcs@, k + 1, t.0, p, ArcDir::Input);
                            assert(weight_sum(self.arcs@.take(k + 1), t.0, p, ArcDir::Input) > m@[p as int]);
                            assert(self.consumed(t.0, p) > m@[p as int]);
                        }
                        return false;
                    },
                }
            }
            k = k + 1;
        }
        assert(self.arcs@.take(self.arcs@.len() as int) == self.arcs@);
        assert forall|q: usize| q < n implies need@[q as int] == #[trigger] self.consumed(t.0, q) by {
            assert(need@[q as int] == weight_sum(self.arcs@.take(self.arcs@.len() as int), t.0, q, ArcDir::Input));
        }
        for p in 0..n
            invariant
                n == self.places@.len(),
                m@.len() == n,
                need@.len() == n,
                forall|q: usize| q < n ==> need@[q as int] == #[trigger] self.consumed(t.0, q),
                forall|q: usize| q < p ==> m@[q as int] >= #[trigger] self.consumed(t.0, q),
        {
            if m.0[p] < need[p] {
                assert(need@[p as int] == self.consumed(t.0, p));
                return false;
            }
        }
        for k in 0..self.arcs.len()
            invariant
                self.wf(),
                m@.len() == self.places@.len(),
                forall|j: int|
                    #![trigger self.arcs@[j]]
                    0 <= j < k && self.arcs@[j].transition.0 == t.0 && self.arcs@[j].direction
                        == ArcDir::Read ==> m@[self.arcs@[j].place.0 as int] >= self.arcs@[j].weight,
                forall|j: int|
                    #![trigger self.arcs@[j]]
                    0 <= j < k && self.arcs@[j].transition.0 == t.0 && self.arcs@[j].direction
                        == ArcDir::Inhibitor ==> m@[self.arcs@[j].place.0 as int]
                        < self.arcs@[j].weight,
        {
            let a = self.arcs[k];
            if a.transition.0 == t.0 {
                if a.direction == ArcDir::Read && m.0[a.place.0] < a.weight {
                    return false;
                }
                if a.direction == ArcDir::Inhibitor && m.0[a.place.0] >= a.weight {
                    return false;
                }
            }
        }
        true
    }

    /// Fires `t` in `m`: the marking reached, or why it cannot be reached.
    pub fn fire(&self, m: &Marking, t: TransitionId) -> (r: Result<Marking, PtExecutionError>)
        requires
            self.wf(),
            m@.len() == self.places@.len(),
        ensures
            match r {
                Ok(next) => self.fire_result(m@, t.0) == Ok::<Seq<usize>, PtExecutionError>(next@),
                Err(e) => self.fire_result(m@, t.0) == Err::<Seq<usize>, PtExecutionError>(e),
            },
    {
        if !self.is_enabled(m, t) {
            return Err(PtExecutionError::NotEnabled);
        }
        let n = self.places.len();
        let ghost arcs = self.arcs@;
        let ghost tt = t.0;
        // Which places a reset arc of `t` empties.
        let mut reset: Vec<bool> = Vec::new();
        for p in 0..n
            invariant
                reset@.len() == p,
                forall|q: int| 0 <= q < p ==> !reset@[q],
        {
            reset.push(false);
        }
        let mut k: usize = 0;
        while k < self.arcs.len()
            invariant
                self.wf(),
                arcs == self.arcs@,
                tt == t.0,
                k <= arcs.len(),
                n == self.places@.len(),
                reset@.len() == n,
                forall|q: usize|
                    q < n ==> reset@[q as int] == #[trigger] has_arc(arcs.take(k as int), tt, q, ArcDir::Reset),
            decreases arcs.len() - k,
        {
            let a = self.arcs[k];
            proof {
                assert forall|q: usize| q < n implies #[trigger] has_arc(arcs.take(k + 1), tt, q, ArcDir::Reset)
                    == (has_arc(arcs.take(k as int), tt, q, ArcDir::Reset) || (a.transition.0 == tt
                    && a.place.0 == q && a.direction == ArcDir::Reset)) by {
                    let s1 = arcs.take(k + 1);
                    let s0 = arcs.take(k as int);
                    assert(s1[k as int] == a);
                    if has_arc(s0, tt, q, ArcDir::Reset) {
                        let j = choose|j: int|
                            #![trigger s0[j]]
                            0 <= j < s0.len() && s0[j].transition.0 == tt && s0[j].place.0 == q
                                && s0[j].direction == ArcDir::Reset;
                        assert(s1[j] == s0[j]);
                    }
                    if has_arc(s1, tt, q, ArcDir::Reset) {
                        let j = choose|j: int|
                            #![trigger s1[j]]
                            0 <= j < s1.len() && s1[j].transition.0 == tt && s1[j].place.0 == q
                                && s1[j].direction == ArcDir::Reset;
                        if j < k {
                            assert(s1[j] == s0[j]);
                        }
                    }
                }
            }
            if a.transition.0 == t.0 && a.direction == ArcDir::Reset {
                reset.set(a.place.0, true);
            }
            k = k + 1;
        }
        assert(arcs.take(arcs.len() as int) == arcs);
        // Consume the input tokens.
        let mut v: Vec<usize> = m.clone().0;
        k = 0;
        while k < self.arcs.len()
            invariant
                self.wf(),
                arcs == self.arcs@,
                tt == t.0,
                k <= arcs.len(),
                n == self.places@.len(),
                m@.len() == n,
                v@.len() == n,
                self.enabled_in(m@, tt),
                forall|q: usize|
                    q < n ==> v@[q as int] + #[trigger] weight_sum(arcs.take(k as int), tt, q, ArcDir::Input)
                        == m@[q as int],
            decreases arcs.len() - k,
        {
            let a = self.arcs[k];
            proof {
                assert forall|q: usize| q < n implies #[trigger] weight_sum(arcs.take(k + 1), tt, q, ArcDir::Input)
                    == weight_sum(arcs.take(k as int), tt, q, ArcDir::Input) + arc_weight(a, tt, q, ArcDir::Input) by {
                    lemma_weight_sum_step(arcs, k as int, tt, q, ArcDir::Input);
                }
            }
            if a.transition.0 == t.0 && a.direction == ArcDir::Input {
                let p = a.place.0;
                proof {
                    lemma_weight_sum_prefix(arcs, k + 1, tt, p, ArcDir::Input);
                    assert(m@[p as int] >= self.consumed(tt, p));
                    assert(weight_sum(arcs.take(k + 1), tt, p, ArcDir::Input) == weight_sum(arcs.take(k as int), tt, p, ArcDir::Input) + a.weight);
                }
                let x = v[p] - a.weight;
                v.set(p, x);
            }
            k = k + 1;
        }
        assert(arcs.take(arcs.len() as int) == arcs);
        // Produce the output tokens on the places that are not reset.
        k = 0;
        while k < self.arcs.len()
            invariant
                self.wf(),
                arcs == self.arcs@,
                tt == t.0,
                k <= arcs.len(),
                n == self.places@.len(),
                m@.len() == n,
                v@.len() == n,
                reset@.len() == n,
                self.enabled_in(m@, tt),
                forall|q: usize| q < n ==> reset@[q as int] == #[trigger] has_arc(arcs, tt, q, ArcDir::Reset),
                forall|q: usize|
                    q < n && !reset@[q as int] ==> v@[q as int] == m@[q as int] - self.consumed(tt, q)
                        + #[trigger] weight_sum(arcs.take(k as int), tt, q, ArcDir::Output),
                forall|q: usize|
                    q < n && reset@[q as int] ==> v@[q as int] == m@[q as int] - #[trigger] self.consumed(tt, q),
            decreases arcs.len() - k,
        {
            let a = self.arcs[k];
            proof {
                assert forall|q: usize| q < n implies #[trigger] weight_sum(arcs.take(k + 1), tt, q, ArcDir::Output)
                    == weight_sum(arcs.take(k as int), tt, q, ArcDir::Output) + arc_weight(a, tt, q, ArcDir::Output) by {
                    lemma_weight_sum_step(arcs, k as int, tt, q, ArcDir::Output);
                }
            }
            if a.transition.0 == t.0 && a.direction == ArcDir::Output && !reset[a.place.0] {
                let p = a.place.0;
                assert(v@[p as int] == m@[p as int] - self.consumed(tt, p) + weight_sum(arcs.take(k as int), tt, p, ArcDir::Output));
                match v[p].checked_add(a.weight) {
                    Some(x) => {
                        v.set(p, x);
                    },
                    None => {
                        proof {
                            lemma_weight_sum_prefix(arcs, k + 1, tt, p, ArcDir::Output);
                            assert(m@[p as int] - self.consumed(tt, p) + self.produced(tt, p) > usize::MAX);
                            assert(!has_arc(self.arcs@, tt, p, ArcDir::Reset));
                            assert(self.fire_overflows(m@, tt));
                        }
                        return Err(PtExecutionError::Overflow);
                    },
                }
            }
            k = k + 1;
        }
        assert(arcs.take(arcs.len() as int) == arcs);
        // Empty the reset places.
        for p in 0..n
            invariant
                n == self.places@.len(),
                arcs == self.arcs@,
                tt == t.0,
                m@.len() == n,
                v@.len() == n,
                reset@.len() == n,
                forall|q: usize| q < n ==> reset@[q as int] == #[trigger] has_arc(arcs, tt, q, ArcDir::Reset),
                forall|q: usize|
                    p <= q < n && !reset@[q as int] ==> v@[q as int] == m@[q as int] - self.consumed(tt, q)
                        + #[trigger] self.produced(tt, q),
                forall|q: usize|
                    q < p ==> v@[q as int] == #[trigger] self.after_firing(m@, tt, q as int),
                forall|q: usize| p <= q < n && reset@[q as int] ==> #[trigger] has_arc(arcs, tt, q, ArcDir::Reset),
        {
            if reset[p] {
                v.set(p, 0);
            }
            proof {
                assert(v@[p as int] == self.after_firing(m@, tt, p as int));
            }
        }
        proof {
            assert(!self.fire_overflows(m@, tt)) by {
                assert forall|q: int| 0 <= q < m@.len() && !has_arc(self.arcs@, tt, q as usize, ArcDir::Reset)
                    implies m@[q] - self.consumed(tt, q as usize) + self.produced(tt, q as usize) <= usize::MAX by {
                    let qq = q as usize;
                    assert(v@[qq as int] == self.after_firing(m@, tt, qq as int));
                }
            }
            assert(v@ =~= self.fired(m@, tt)) by {
                assert forall|q: int| 0 <= q < v@.len() implies v@[q] == self.fired(m@, tt)[q] by {
                    let qq = q as usize;
                    assert(v@[qq as int] == self.after_firing(m@, tt, qq as int));
                }
            }
        }
        Ok(Marking(v))
    }

    /// The transitions enabled in `m`, in increasing order.
    pub fn enabled(&self, m: &Marking) -> (r: Vec<TransitionId>)
        requires
            self.wf(),
            m@.len() == self.places@.len(),
        ensures
            sorted_selection(r@, self.transitions@.len(), self.enabled_pred(m@)),
    {
        let mut r: Vec<TransitionId> = Vec::new();
        for t in 0..self.transitions.len()
            invariant
                self.wf(),
                m@.len() == self.places@.len(),
                forall|i: int, j: int| 0 <= i < j < r@.len() ==> r@[i].0 < r@[j].0,
                forall|i: int|
                    0 <= i < r@.len() ==> r@[i].0 < t && self.enabled_in(m@, #[trigger] r@[i].0),
                forall|u: usize|
                    u < t && self.enabled_in(m@, u) ==> exists|i: int|
                        0 <= i < r@.len() && r@[i].0 == u,
        {
            let ghost old_r = r@;
            if self.is_enabled(m, TransitionId(t)) {
                r.push(TransitionId(t));
            }
            proof {
                assert forall|u: usize| u < t + 1 && self.enabled_in(m@, u) implies exists|i: int|
                    0 <= i < r@.len() && r@[i].0 == u by {
                    if u < t {
                        let i = choose|i: int| 0 <= i < old_r.len() && old_r[i].0 == u;
                        assert(r@[i] == old_r[i]);
                    } else {
                        assert(r@[r@.len() - 1].0 == t);
                    }
                }
            }
        }
        r
    }

    /// Checks that every arc refers to a place and a transition of the net.
    pub fn validate(&self) -> (r: Result<(), PtModelError>)
        ensures
            r == if self.wf() {
                Ok(())
            } else {
                Err(PtModelError::InvalidArc)
            },
    {
        for k in 0..self.arcs.len()
            invariant
                forall|j: int|
                    #![trigger self.arcs@[j]]
                    0 <= j < k ==> self.arcs@[j].place.0 < self.places@.len()
                        && self.arcs@[j].transition.0 < self.transitions@.len(),
        {
            let a = self.arcs[k];
            if a.place.0 >= self.places.len() || a.transition.0 >= self.transitions.len() {
                assert(!(self.arcs@[k as int].place.0 < self.places@.len()
                    && self.arcs@[k as int].transition.0 < self.transitions@.len()));
                return Err(PtModelError::InvalidArc);
            }
        }
        Ok(())
    }
}

/// A marking is reachable from itself.
pub proof fn lemma_reachable_refl(net: PtNet, m: Seq<usize>)
    ensures
        net.reachable(m, m),
{
    assert(net.run(m, Seq::<TransitionId>::empty()) == Some(m));
}

/// Firing `t` from a reachable marking reaches the marking it produces.
pub proof fn lemma_reachable_step(net: PtNet, m0: Seq<usize>, m1: Seq<usize>, t: usize, m2: Seq<usize>)
    requires
        net.reachable(m0, m1),
        net.fire_result(m1, t) == Ok::<Seq<usize>, PtExecutionError>(m2),
    ensures
        net.reachable(m0, m2),
{
    let w = choose|w: Seq<TransitionId>| net.run(m0, w) == Some(m1);
    let w2 = w.push(TransitionId(t));
    assert(w2.drop_last() == w);
    assert(net.run(m0, w2) == Some(m2));
}

} // verus!
