//! The working graph of a reduction: places and transitions that can be
//! marked removed, with their adjacency and the original nodes each stands
//! for.
use vstd::prelude::*;

use crate::bug::TransitionType;
use crate::ids::{PlaceId, TransitionId};
use crate::pt::{ArcDir, Marking, PtArc, PtNet, PtPlace, PtTransition};

verus! {

/// A place of the working graph.
pub struct GraphPlace {
    pub place: PtPlace,
    pub originals: Vec<PlaceId>,
    pub incoming: Vec<usize>,
    pub outgoing: Vec<usize>,
    pub removed: bool,
}

/// A transition of the working graph with its weighted inputs and outputs.
pub struct GraphTransition {
    pub transition: PtTransition,
    pub originals: Vec<TransitionId>,
    pub inputs: Vec<(usize, usize)>,
    pub outputs: Vec<(usize, usize)>,
    pub removed: bool,
}

/// The working graph of a reduction.
pub struct ReductionGraph {
    pub places: Vec<GraphPlace>,
    pub transitions: Vec<GraphTransition>,
    pub merge_counter: usize,
}

/// Which original nodes the places and transitions of a reduced net stand
/// for.
#[derive(Debug, Clone)]
pub struct ReductionTrace {
    pub place_mapping: Vec<Vec<PlaceId>>,
    pub transition_mapping: Vec<Vec<TransitionId>>,
}

/// A reduced net with its marking and trace.
pub struct MaterializedNet {
    pub net: PtNet,
    pub marking: Marking,
    pub trace: ReductionTrace,
}

/// The (place, weight) pairs of the arcs of `arcs` of transition `t` with role
/// `dir`, in order.
pub open spec fn arc_pairs(arcs: Seq<PtArc>, t: int, dir: ArcDir) -> Seq<(usize, usize)>
    decreases arcs.len(),
{
    if arcs.len() == 0 {
        Seq::empty()
    } else {
        let prev = arc_pairs(arcs.drop_last(), t, dir);
        let a = arcs.last();
        if a.transition.0 == t && a.direction == dir {
            prev.push((a.place.0, a.weight))
        } else {
            prev
        }
    }
}

/// The transitions of the arcs of `arcs` on place `p` with role `dir`, in
/// order.
pub open spec fn arc_transitions(arcs: Seq<PtArc>, p: int, dir: ArcDir) -> Seq<usize>
    decreases arcs.len(),
{
    if arcs.len() == 0 {
        Seq::empty()
    } else {
        let prev = arc_transitions(arcs.drop_last(), p, dir);
        let a = arcs.last();
        if a.place.0 == p && a.direction == dir {
            prev.push(a.transition.0)
        } else {
            prev
        }
    }
}

/// Whether `v` holds `x`.
pub open spec fn holds(v: Seq<usize>, x: int) -> bool {
    exists|k: int| 0 <= k < v.len() && v[k] == x
}

impl ReductionGraph {
    /// Every index in the adjacency lists names a place, respectively a
    /// transition, of the graph.
    pub open spec fn wf(&self) -> bool {
        let np = self.places@.len();
        let nt = self.transitions@.len();
        &&& forall|t: int, k: int|
            0 <= t < nt && 0 <= k < self.transitions@[t].inputs@.len() ==> (
            #[trigger] self.transitions@[t].inputs@[k]).0 < np
        &&& forall|t: int, k: int|
            0 <= t < nt && 0 <= k < self.transitions@[t].outputs@.len() ==> (
            #[trigger] self.transitions@[t].outputs@[k]).0 < np
        &&& forall|p: int, k: int|
            0 <= p < np && 0 <= k < self.places@[p].incoming@.len() ==> #[trigger] self.places@[p].incoming@[k]
                < nt
        &&& forall|p: int, k: int|
            0 <= p < np && 0 <= k < self.places@[p].outgoing@.len() ==> #[trigger] self.places@[p].outgoing@[k]
                < nt
    }

    /// Whether this graph has the nodes of `old`, with the same contents and
    /// no node restored; new transitions may have been added.
    pub open spec fn keeps_nodes(&self, old: ReductionGraph) -> bool {
        &&& self.places@.len() == old.places@.len()
        &&& self.transitions@.len() >= old.transitions@.len()
        &&& forall|p: int|
            0 <= p < self.places@.len() ==> (#[trigger] self.places@[p]).place == old.places@[p].place
                && self.places@[p].originals@ == old.places@[p].originals@ && (old.places@[p].removed
                ==> self.places@[p].removed)
        &&& forall|t: int|
            0 <= t < old.transitions@.len() ==> (#[trigger] self.transitions@[t]).transition
                == old.transitions@[t].transition && self.transitions@[t].originals@
                == old.transitions@[t].originals@ && (old.transitions@[t].removed
                ==> self.transitions@[t].removed)
    }
}

/// `v` without the entries equal to `x`.
pub(crate) fn without(v: &Vec<usize>, x: usize) -> (r: Vec<usize>)
    ensures
        r@ == v@.filter(|y: usize| y != x),
{
    let ghost pred = |y: usize| y != x;
    let mut r: Vec<usize> = Vec::new();
    for k in 0..v.len()
        invariant
            pred == (|y: usize| y != x),
            r@ == v@.take(k as int).filter(pred),
    {
        proof {
            assert(v@.take(k + 1) == v@.take(k as int).push(v@[k as int]));
            v@.take(k as int).lemma_filter_push(v@[k as int], pred);
        }
        if v[k] != x {
            r.push(v[k]);
        }
    }
    assert(v@.take(v@.len() as int) == v@);
    r
}

/// `v` without the pairs whose first entry is `x`.
pub(crate) fn without_place(v: &Vec<(usize, usize)>, x: usize) -> (r: Vec<(usize, usize)>)
    ensures
        r@ == v@.filter(|e: (usize, usize)| e.0 != x),
{
    let ghost pred = |e: (usize, usize)| e.0 != x;
    let mut r: Vec<(usize, usize)> = Vec::new();
    for k in 0..v.len()
        invariant
            pred == (|e: (usize, usize)| e.0 != x),
            r@ == v@.take(k as int).filter(pred),
    {
        proof {
            assert(v@.take(k + 1) == v@.take(k as int).push(v@[k as int]));
            v@.take(k as int).lemma_filter_push(v@[k as int], pred);
        }
        if v[k].0 != x {
            r.push(v[k]);
        }
    }
    assert(v@.take(v@.len() as int) == v@);
    r
}

/// Filtering twice by the same test is filtering once.
pub(crate) proof fn lemma_filter_twice<A>(v: Seq<A>, pred: spec_fn(A) -> bool)
    ensures
        v.filter(pred).filter(pred) == v.filter(pred),
    decreases v.len(),
{
    if v.len() > 0 {
        let w = v.drop_last();
        let x = v.last();
        assert(w.push(x) == v);
        lemma_filter_twice(w, pred);
        w.lemma_filter_push(x, pred);
        if pred(x) {
            w.filter(pred).lemma_filter_push(x, pred);
        }
    } else {
        assert(v.filter(pred) =~= v);
    }
}

/// Filtering by a test that implies another first by the other changes
/// nothing.
pub(crate) proof fn lemma_filter_absorbs<A>(v: Seq<A>, weak: spec_fn(A) -> bool, strong: spec_fn(A) -> bool)
    requires
        forall|x: A| #[trigger] strong(x) ==> weak(x),
    ensures
        v.filter(weak).filter(strong) == v.filter(strong),
    decreases v.len(),
{
    if v.len() > 0 {
        let w = v.drop_last();
        let x = v.last();
        assert(w.push(x) == v);
        lemma_filter_absorbs(w, weak, strong);
        w.lemma_filter_push(x, weak);
        w.lemma_filter_push(x, strong);
        if weak(x) {
            w.filter(weak).lemma_filter_push(x, strong);
        }
    } else {
        assert(v.filter(weak) =~= v);
        assert(v.filter(strong) =~= v);
    }
}

/// Every entry of a filtered list comes from the list.
pub(crate) proof fn lemma_filter_sub<A>(v: Seq<A>, pred: spec_fn(A) -> bool, k: int)
    requires
        0 <= k < v.filter(pred).len(),
    ensures
        v.contains(v.filter(pred)[k]),
        pred(v.filter(pred)[k]),
{
    broadcast use vstd::seq_lib::group_filter_ensures;

    assert(v.filter(pred).contains(v.filter(pred)[k]));
    v.lemma_filter_contains_rev(pred, v.filter(pred)[k]);
}

/// Whether transition `t` is present in `ts`.
pub open spec fn live_transition(ts: Seq<GraphTransition>) -> spec_fn(usize) -> bool {
    |t: usize| (t as int) < ts.len() && !ts[t as int].removed
}

/// Whether the place of a (place, weight) pair is present in `ps`.
pub open spec fn live_place(ps: Seq<GraphPlace>) -> spec_fn((usize, usize)) -> bool {
    |e: (usize, usize)| (e.0 as int) < ps.len() && !ps[e.0 as int].removed
}

/// The entries of `v` naming transitions present in `ts`.
fn keep_live_transitions(v: &Vec<usize>, ts: &Vec<GraphTransition>) -> (r: Vec<usize>)
    ensures
        r@ == v@.filter(live_transition(ts@)),
{
    let ghost pred = live_transition(ts@);
    let mut r: Vec<usize> = Vec::new();
    for k in 0..v.len()
        invariant
            pred == live_transition(ts@),
            r@ == v@.take(k as int).filter(pred),
    {
        proof {
            assert(v@.take(k + 1) == v@.take(k as int).push(v@[k as int]));
            v@.take(k as int).lemma_filter_push(v@[k as int], pred);
        }
        let t = v[k];
        if t < ts.len() && !ts[t].removed {
            r.push(t);
        }
    }
    assert(v@.take(v@.len() as int) == v@);
    r
}

/// The pairs of `v` naming places present in `ps`.
fn keep_live_places(v: &Vec<(usize, usize)>, ps: &Vec<GraphPlace>) -> (r: Vec<(usize, usize)>)
    ensures
        r@ == v@.filter(live_place(ps@)),
{
    let ghost pred = live_place(ps@);
    let mut r: Vec<(usize, usize)> = Vec::new();
    for k in 0..v.len()
        invariant
            pred == live_place(ps@),
            r@ == v@.take(k as int).filter(pred),
    {
        proof {
            assert(v@.take(k + 1) == v@.take(k as int).push(v@[k as int]));
            v@.take(k as int).lemma_filter_push(v@[k as int], pred);
        }
        let e = v[k];
        if e.0 < ps.len() && !ps[e.0].removed {
            r.push(e);
        }
    }
    assert(v@.take(v@.len() as int) == v@);
    r
}

/// A copy of a list of (place, weight) pairs.
pub(crate) fn copy_pairs(v: &Vec<(usize, usize)>) -> (r: Vec<(usize, usize)>)
    ensures
        r@ == v@,
{
    let mut r: Vec<(usize, usize)> = Vec::new();
    for k in 0..v.len()
        invariant
            r@ == v@.take(k as int),
    {
        r.push(v[k]);
        assert(v@.take(k + 1) == v@.take(k as int).push(v@[k as int]));
    }
    assert(v@.take(v@.len() as int) == v@);
    r
}

impl ReductionGraph {
    /// Whether the adjacency lists name only nodes that are present.
    pub open spec fn clean(&self) -> bool {
        &&& forall|p: int, k: int|
            0 <= p < self.places@.len() && 0 <= k < self.places@[p].incoming@.len() ==> live_transition(
                self.transitions@,
            )(#[trigger] self.places@[p].incoming@[k])
        &&& forall|p: int, k: int|
            0 <= p < self.places@.len() && 0 <= k < self.places@[p].outgoing@.len() ==> live_transition(
                self.transitions@,
            )(#[trigger] self.places@[p].outgoing@[k])
        &&& forall|t: int, k: int|
            0 <= t < self.transitions@.len() && !self.transitions@[t].removed && 0 <= k
                < self.transitions@[t].inputs@.len() ==> live_place(self.places@)(
                #[trigger] self.transitions@[t].inputs@[k],
            )
        &&& forall|t: int, k: int|
            0 <= t < self.transitions@.len() && !self.transitions@[t].removed && 0 <= k
                < self.transitions@[t].outputs@.len() ==> live_place(self.places@)(
                #[trigger] self.transitions@[t].outputs@[k],
            )
    }

    /// Marks transition `idx` removed and drops it from the adjacency of its
    /// places; nothing happens if there is no such transition present.
    pub fn remove_transition(&mut self, idx: usize)
        requires
            old(self).wf(),
        ensures
            final(self).merge_counter == old(self).merge_counter,
            final(self).wf(),
            final(self).keeps_nodes(*old(self)),
            final(self).transitions@.len() == old(self).transitions@.len(),
            forall|p: int| 0 <= p < final(self).places@.len() ==> (#[trigger] final(self).places@[p]).removed
                == old(self).places@[p].removed,
            forall|t: int|
                0 <= t < final(self).transitions@.len() ==> (#[trigger] final(self).transitions@[t]).removed
                    == (old(self).transitions@[t].removed || t == idx),
            forall|t: int|
                0 <= t < final(self).transitions@.len() && t != idx ==> (#[trigger] final(self).transitions@[t]).inputs@
                    == old(self).transitions@[t].inputs@ && final(self).transitions@[t].outputs@
                    == old(self).transitions@[t].outputs@,
    {
        if idx >= self.transitions.len() || self.transitions[idx].removed {
            return;
        }
        let inputs = copy_pairs(&self.transitions[idx].inputs);
        let outputs = copy_pairs(&self.transitions[idx].outputs);
        let ghost g0 = self.places@;
        let ghost ts0 = self.transitions@;
        for k in 0..inputs.len()
            invariant
                self.wf(),
                self.merge_counter == old(self).merge_counter,
                self.transitions@ == ts0,
                idx < self.transitions@.len(),
                self.places@.len() == g0.len(),
                forall|p: int|
                    0 <= p < g0.len() ==> (#[trigger] self.places@[p]).place == g0[p].place
                        && self.places@[p].originals@ == g0[p].originals@ && self.places@[p].removed
                        == g0[p].removed,
        {
            let p = inputs[k].0;
            if p < self.places.len() {
                let l = without(&self.places[p].outgoing, idx);
                proof {
                    assert forall|j: int| 0 <= j < l@.len() implies l@[j] < self.transitions@.len() by {
                        lemma_filter_sub(self.places@[p as int].outgoing@, |y: usize| y != idx, j);
                    }
                }
                self.places[p].outgoing = l;
            }
        }
        for k in 0..outputs.len()
            invariant
                self.wf(),
                self.merge_counter == old(self).merge_counter,
                self.transitions@ == ts0,
                idx < self.transitions@.len(),
                self.places@.len() == g0.len(),
                forall|p: int|
                    0 <= p < g0.len() ==> (#[trigger] self.places@[p]).place == g0[p].place
                        && self.places@[p].originals@ == g0[p].originals@ && self.places@[p].removed
                        == g0[p].removed,
        {
            let p = outputs[k].0;
            if p < self.places.len() {
                let l = without(&self.places[p].incoming, idx);
                proof {
                    assert forall|j: int| 0 <= j < l@.len() implies l@[j] < self.transitions@.len() by {
                        lemma_filter_sub(self.places@[p as int].incoming@, |y: usize| y != idx, j);
                    }
                }
                self.places[p].incoming = l;
            }
        }
        self.transitions[idx].inputs = Vec::new();
        self.transitions[idx].outputs = Vec::new();
        self.transitions[idx].removed = true;
    }

    /// Marks place `idx` removed and drops it from the inputs and outputs of
    /// its transitions; nothing happens if there is no such place present.
    pub fn remove_place(&mut self, idx: usize)
        requires
            old(self).wf(),
        ensures
            final(self).merge_counter == old(self).merge_counter,
            final(self).wf(),
            final(self).keeps_nodes(*old(self)),
            final(self).transitions@.len() == old(self).transitions@.len(),
            forall|p: int| 0 <= p < final(self).places@.len() ==> (#[trigger] final(self).places@[p]).removed
                == (old(self).places@[p].removed || p == idx),
            forall|t: int| 0 <= t < final(self).transitions@.len() ==> (#[trigger] final(self).transitions@[t]).removed
                == old(self).transitions@[t].removed,
            forall|t: int|
                0 <= t < final(self).transitions@.len() ==> ((#[trigger] final(self).transitions@[t]).inputs@
                    == old(self).transitions@[t].inputs@ || final(self).transitions@[t].inputs@ == old(
                    self,
                ).transitions@[t].inputs@.filter(|e: (usize, usize)| e.0 != idx)) && (final(self).transitions@[t].outputs@
                    == old(self).transitions@[t].outputs@ || final(self).transitions@[t].outputs@ == old(
                    self,
                ).transitions@[t].outputs@.filter(|e: (usize, usize)| e.0 != idx)),
    {
        if idx >= self.places.len() || self.places[idx].removed {
            return;
        }
        let incoming = copy_ids(&self.places[idx].incoming);
        let outgoing = copy_ids(&self.places[idx].outgoing);
        let ghost t0 = self.transitions@;
        let ghost ps0 = self.places@;
        for k in 0..incoming.len()
            invariant
                self.wf(),
                self.merge_counter == old(self).merge_counter,
                self.places@ == ps0,
                idx < self.places@.len(),
                self.transitions@.len() == t0.len(),
                forall|t: int|
                    0 <= t < t0.len() ==> (#[trigger] self.transitions@[t]).transition == t0[t].transition
                        && self.transitions@[t].originals@ == t0[t].originals@
                        && self.transitions@[t].removed == t0[t].removed,
                forall|t: int|
                    0 <= t < t0.len() ==> ((#[trigger] self.transitions@[t]).inputs@ == t0[t].inputs@
                        || self.transitions@[t].inputs@ == t0[t].inputs@.filter(|e: (usize, usize)| e.0 != idx))
                        && (self.transitions@[t].outputs@ == t0[t].outputs@ || self.transitions@[t].outputs@
                        == t0[t].outputs@.filter(|e: (usize, usize)| e.0 != idx)),
        {
            let t = incoming[k];
            if t < self.transitions.len() {
                let l = without_place(&self.transitions[t].outputs, idx);
                proof {
                    lemma_filter_twice(t0[t as int].outputs@, |e: (usize, usize)| e.0 != idx);
                    assert forall|j: int| 0 <= j < l@.len() implies l@[j].0 < self.places@.len() by {
                        lemma_filter_sub(self.transitions@[t as int].outputs@, |e: (usize, usize)| e.0 != idx, j);
                    }
                }
                self.transitions[t].outputs = l;
            }
        }
        for k in 0..outgoing.len()
            invariant
                self.wf(),
                self.merge_counter == old(self).merge_counter,
                self.places@ == ps0,
                idx < self.places@.len(),
                self.transitions@.len() == t0.len(),
                forall|t: int|
                    0 <= t < t0.len() ==> (#[trigger] self.transitions@[t]).transition == t0[t].transition
                        && self.transitions@[t].originals@ == t0[t].originals@
                        && self.transitions@[t].removed == t0[t].removed,
                forall|t: int|
                    0 <= t < t0.len() ==> ((#[trigger] self.transitions@[t]).inputs@ == t0[t].inputs@
                        || self.transitions@[t].inputs@ == t0[t].inputs@.filter(|e: (usize, usize)| e.0 != idx))
                        && (self.transitions@[t].outputs@ == t0[t].outputs@ || self.transitions@[t].outputs@
                        == t0[t].outputs@.filter(|e: (usize, usize)| e.0 != idx)),
        {
            let t = outgoing[k];
            if t < self.transitions.len() {
                let l = without_place(&self.transitions[t].inputs, idx);
                proof {
                    lemma_filter_twice(t0[t as int].inputs@, |e: (usize, usize)| e.0 != idx);
                    assert forall|j: int| 0 <= j < l@.len() implies l@[j].0 < self.places@.len() by {
                        lemma_filter_sub(self.transitions@[t as int].inputs@, |e: (usize, usize)| e.0 != idx, j);
                    }
                }
                self.transitions[t].inputs = l;
            }
        }
        self.places[idx].incoming = Vec::new();
        self.places[idx].outgoing = Vec::new();
        self.places[idx].removed = true;
    }

    /// Drops from every adjacency list the nodes that are removed.
    pub fn clean_adjacency(&mut self)
        requires
            old(self).wf(),
        ensures
            final(self).merge_counter == old(self).merge_counter,
            final(self).wf(),
            final(self).clean(),
            final(self).keeps_nodes(*old(self)),
            final(self).transitions@.len() == old(self).transitions@.len(),
            forall|p: int| 0 <= p < final(self).places@.len() ==> (#[trigger] final(self).places@[p]).removed
                == old(self).places@[p].removed,
            forall|t: int| 0 <= t < final(self).transitions@.len() ==> (#[trigger] final(self).transitions@[t]).removed
                == old(self).transitions@[t].removed,
            forall|t: int|
                0 <= t < final(self).transitions@.len() && !final(self).transitions@[t].removed ==> (
                #[trigger] final(self).transitions@[t]).inputs@ == old(self).transitions@[t].inputs@.filter(
                    live_place(final(self).places@),
                ) && final(self).transitions@[t].outputs@ == old(self).transitions@[t].outputs@.filter(
                    live_place(final(self).places@),
                ),
    {
        let ghost g0 = *self;
        let np = self.places.len();
        for p in 0..np
            invariant
                np == self.places@.len(),
                self.wf(),
                self.merge_counter == old(self).merge_counter,
                self.keeps_nodes(g0),
                self.transitions@ == g0.transitions@,
                forall|q: int| 0 <= q < self.places@.len() ==> (#[trigger] self.places@[q]).removed == g0.places@[q].removed,
                forall|q: int, k: int|
                    0 <= q < p && 0 <= k < self.places@[q].incoming@.len() ==> live_transition(
                        self.transitions@,
                    )(#[trigger] self.places@[q].incoming@[k]),
                forall|q: int, k: int|
                    0 <= q < p && 0 <= k < self.places@[q].outgoing@.len() ==> live_transition(
                        self.transitions@,
                    )(#[trigger] self.places@[q].outgoing@[k]),
        {
            let inc = keep_live_transitions(&self.places[p].incoming, &self.transitions);
            let out = keep_live_transitions(&self.places[p].outgoing, &self.transitions);
            proof {
                assert forall|j: int| 0 <= j < inc@.len() implies live_transition(self.transitions@)(inc@[j]) by {
                    lemma_filter_sub(self.places@[p as int].incoming@, live_transition(self.transitions@), j);
                }
                assert forall|j: int| 0 <= j < out@.len() implies live_transition(self.transitions@)(out@[j]) by {
                    lemma_filter_sub(self.places@[p as int].outgoing@, live_transition(self.transitions@), j);
                }
            }
            self.places[p].incoming = inc;
            self.places[p].outgoing = out;
        }
        let ghost g1 = *self;
        let nt = self.transitions.len();
        for t in 0..nt
            invariant
                nt == self.transitions@.len(),
                self.wf(),
                self.merge_counter == old(self).merge_counter,
                self.keeps_nodes(g0),
                self.places@.len() == g1.places@.len(),
                forall|q: int|
                    0 <= q < self.places@.len() ==> (#[trigger] self.places@[q]).removed == g1.places@[q].removed
                        && self.places@[q].incoming@ == g1.places@[q].incoming@ && self.places@[q].outgoing@
                        == g1.places@[q].outgoing@,
                forall|u: int| 0 <= u < self.transitions@.len() ==> (#[trigger] self.transitions@[u]).removed == g0.transitions@[u].removed,
                self.transitions@.len() == g0.transitions@.len(),
                forall|q: int, k: int|
                    0 <= q < self.places@.len() && 0 <= k < self.places@[q].incoming@.len() ==> live_transition(
                        self.transitions@,
                    )(#[trigger] self.places@[q].incoming@[k]),
                forall|q: int, k: int|
                    0 <= q < self.places@.len() && 0 <= k < self.places@[q].outgoing@.len() ==> live_transition(
                        self.transitions@,
                    )(#[trigger] self.places@[q].outgoing@[k]),
                forall|u: int, k: int|
                    0 <= u < t && !self.transitions@[u].removed && 0 <= k < self.transitions@[u].inputs@.len()
                        ==> live_place(self.places@)(#[trigger] self.transitions@[u].inputs@[k]),
                forall|u: int, k: int|
                    0 <= u < t && !self.transitions@[u].removed && 0 <= k < self.transitions@[u].outputs@.len()
                        ==> live_place(self.places@)(#[trigger] self.transitions@[u].outputs@[k]),
                forall|u: int|
                    0 <= u < t && !self.transitions@[u].removed ==> (#[trigger] self.transitions@[u]).inputs@
                        == g0.transitions@[u].inputs@.filter(live_place(self.places@))
                        && self.transitions@[u].outputs@ == g0.transitions@[u].outputs@.filter(live_place(self.places@)),
                forall|u: int|
                    t <= u < self.transitions@.len() ==> (#[trigger] self.transitions@[u]).inputs@
                        == g0.transitions@[u].inputs@ && self.transitions@[u].outputs@ == g0.transitions@[u].outputs@,
                g1.transitions@ == g0.transitions@,
        {
            if !self.transitions[t].removed {
                let ins = keep_live_places(&self.transitions[t].inputs, &self.places);
                let outs = keep_live_places(&self.transitions[t].outputs, &self.places);
                proof {
                    assert forall|j: int| 0 <= j < ins@.len() implies live_place(self.places@)(ins@[j]) by {
                        lemma_filter_sub(self.transitions@[t as int].inputs@, live_place(self.places@), j);
                    }
                    assert forall|j: int| 0 <= j < outs@.len() implies live_place(self.places@)(outs@[j]) by {
                        lemma_filter_sub(self.transitions@[t as int].outputs@, live_place(self.places@), j);
                    }
                }
                self.transitions[t].inputs = ins;
                self.transitions[t].outputs = outs;
            }
        }
    }

    /// Adds `transition` and returns its index.
    pub fn add_transition(&mut self, transition: GraphTransition) -> (r: usize)
        requires
            old(self).transitions@.len() < usize::MAX,
        ensures
            r == old(self).transitions@.len(),
            final(self).transitions@ == old(self).transitions@.push(transition),
            final(self).places@ == old(self).places@,
            final(self).merge_counter == old(self).merge_counter,
    {
        self.transitions.push(transition);
        self.transitions.len() - 1
    }
}

/// A copy of a list of indices.
fn copy_ids(v: &Vec<usize>) -> (r: Vec<usize>)
    ensures
        r@ == v@,
{
    let mut r: Vec<usize> = Vec::new();
    for k in 0..v.len()
        invariant
            r@ == v@.take(k as int),
    {
        r.push(v[k]);
        assert(v@.take(k + 1) == v@.take(k as int).push(v@[k as int]));
    }
    assert(v@.take(v@.len() as int) == v@);
    r
}

/// The indices of the places among the first `n` that are present.
pub open spec fn live_places(ps: Seq<GraphPlace>, n: nat) -> Seq<int>
    decreases n,
{
    if n == 0 {
        Seq::empty()
    } else {
        let prev = live_places(ps, (n - 1) as nat);
        if !ps[n - 1].removed {
            prev.push(n - 1)
        } else {
            prev
        }
    }
}

/// The indices of the transitions among the first `n` that are present.
pub open spec fn live_transitions(ts: Seq<GraphTransition>, n: nat) -> Seq<int>
    decreases n,
{
    if n == 0 {
        Seq::empty()
    } else {
        let prev = live_transitions(ts, (n - 1) as nat);
        if !ts[n - 1].removed {
            prev.push(n - 1)
        } else {
            prev
        }
    }
}

/// The arcs with role `dir` of the reduced transition `new_t` made from the
/// pairs `pairs`, skipping removed places and renumbering the others.
pub open spec fn mapped_arcs(ps: Seq<GraphPlace>, pairs: Seq<(usize, usize)>, new_t: nat, dir: ArcDir) -> Seq<PtArc>
    decreases pairs.len(),
{
    if pairs.len() == 0 {
        Seq::empty()
    } else {
        let prev = mapped_arcs(ps, pairs.drop_last(), new_t, dir);
        let e = pairs.last();
        if (e.0 as int) < ps.len() && !ps[e.0 as int].removed {
            prev.push(
                PtArc {
                    place: PlaceId(live_places(ps, e.0 as nat).len() as usize),
                    transition: TransitionId(new_t as usize),
                    direction: dir,
                    weight: e.1,
                },
            )
        } else {
            prev
        }
    }
}

/// The arcs of the reduced net made from the first `n` transitions.
pub open spec fn materialized_arcs(ps: Seq<GraphPlace>, ts: Seq<GraphTransition>, n: nat) -> Seq<PtArc>
    decreases n,
{
    if n == 0 {
        Seq::empty()
    } else {
        let prev = materialized_arcs(ps, ts, (n - 1) as nat);
        let t = ts[n - 1];
        if !t.removed {
            let new_t = live_transitions(ts, (n - 1) as nat).len();
            prev + mapped_arcs(ps, t.inputs@, new_t, ArcDir::Input) + mapped_arcs(
                ps,
                t.outputs@,
                new_t,
                ArcDir::Output,
            )
        } else {
            prev
        }
    }
}

pub(crate) proof fn lemma_live_places_bound(ps: Seq<GraphPlace>, n: nat)
    ensures
        live_places(ps, n).len() <= n,
        forall|k: int| 0 <= k < live_places(ps, n).len() ==> 0 <= #[trigger] live_places(ps, n)[k] < n,
    decreases n,
{
    if n > 0 {
        lemma_live_places_bound(ps, (n - 1) as nat);
    }
}

proof fn lemma_live_transitions_bound(ts: Seq<GraphTransition>, n: nat)
    ensures
        live_transitions(ts, n).len() <= n,
        forall|k: int| 0 <= k < live_transitions(ts, n).len() ==> 0 <= #[trigger] live_transitions(ts, n)[k] < n,
    decreases n,
{
    if n > 0 {
        lemma_live_transitions_bound(ts, (n - 1) as nat);
    }
}

/// A present place `p` below `n` is listed among the present places below
/// `n`, at the position given by the number of present places below it.
pub(crate) proof fn lemma_live_places_index(ps: Seq<GraphPlace>, n: nat, p: int)
    requires
        0 <= p < n,
        !ps[p].removed,
    ensures
        live_places(ps, p as nat).len() < live_places(ps, n).len(),
        live_places(ps, n)[live_places(ps, p as nat).len() as int] == p,
    decreases n,
{
    if p < n - 1 {
        lemma_live_places_index(ps, (n - 1) as nat, p);
    }
}

/// Every place listed among the present places is present.
pub(crate) proof fn lemma_live_places_present(ps: Seq<GraphPlace>, n: nat)
    ensures
        forall|k: int| 0 <= k < live_places(ps, n).len() ==> !ps[#[trigger] live_places(ps, n)[k]].removed,
    decreases n,
{
    if n > 0 {
        lemma_live_places_present(ps, (n - 1) as nat);
    }
}

proof fn lemma_live_places_grow(ps: Seq<GraphPlace>, m: nat, n: nat)
    requires
        m <= n,
    ensures
        live_places(ps, m).len() <= live_places(ps, n).len(),
        m < n && !ps[m as int].removed ==> live_places(ps, m).len() < live_places(ps, n).len(),
    decreases n - m,
{
    if m < n {
        lemma_live_places_grow(ps, m, (n - 1) as nat);
        if !ps[m as int].removed && m == n - 1 {
        }
    }
}

impl GraphTransition {
    /// A present transition of the given type.
    pub fn new_with_type(
        name: String,
        transition_type: TransitionType,
        originals: Vec<TransitionId>,
        inputs: Vec<(usize, usize)>,
        outputs: Vec<(usize, usize)>,
    ) -> (r: Self)
        ensures
            r.transition.name@ == name@,
            r.transition.transition_type == transition_type,
            r.originals@ == originals@,
            r.inputs@ == inputs@,
            r.outputs@ == outputs@,
            !r.removed,
    {
        GraphTransition {
            transition: PtTransition::new_with_transition_type(name, transition_type),
            originals,
            inputs,
            outputs,
            removed: false,
        }
    }
}

impl ReductionGraph {
    /// Whether `m` is this graph with the removed nodes dropped and the
    /// others renumbered in order: places with their tokens and original
    /// nodes, transitions with their names, types and original nodes, and
    /// the arcs of the present transitions to present places.
    pub open spec fn shows(&self, m: MaterializedNet) -> bool {
        let lp = live_places(self.places@, self.places@.len());
        let lt = live_transitions(self.transitions@, self.transitions@.len());
        &&& m.net.places@.len() == lp.len()
        &&& forall|i: int| 0 <= i < lp.len() ==> #[trigger] m.net.places@[i] == self.places@[lp[i]].place
        &&& m.net.transitions@.len() == lt.len()
        &&& forall|i: int|
            0 <= i < lt.len() ==> (#[trigger] m.net.transitions@[i]).name == self.transitions@[lt[i]].transition.name
                && m.net.transitions@[i].transition_type.same_as(
                self.transitions@[lt[i]].transition.transition_type,
            )
        &&& m.net.arcs@ == materialized_arcs(self.places@, self.transitions@, self.transitions@.len())
        &&& m.marking@.len() == lp.len()
        &&& forall|i: int| 0 <= i < lp.len() ==> #[trigger] m.marking@[i] == self.places@[lp[i]].place.tokens
        &&& m.trace.place_mapping@.len() == lp.len()
        &&& forall|i: int|
            0 <= i < lp.len() ==> (#[trigger] m.trace.place_mapping@[i])@ == self.places@[lp[i]].originals@
        &&& m.trace.transition_mapping@.len() == lt.len()
        &&& forall|i: int|
            0 <= i < lt.len() ==> (#[trigger] m.trace.transition_mapping@[i])@
                == self.transitions@[lt[i]].originals@
        &&& m.net.wf()
    }
}

impl ReductionGraph {
    /// The working graph of `net` in `marking`: every place and transition
    /// present, with the input and output arcs as adjacency.
    pub fn from_net(net: &PtNet, marking: &Marking) -> (r: Self)
        requires
            net.wf(),
            marking@.len() == net.places@.len(),
        ensures
            r.wf(),
            r.clean(),
            r.merge_counter == 0,
            r.places@.len() == net.places@.len(),
            r.transitions@.len() == net.transitions@.len(),
            forall|p: int|
                0 <= p < r.places@.len() ==> {
                    let g = #[trigger] r.places@[p];
                    let q = net.places@[p];
                    &&& g.place == PtPlace {
                        name: q.name,
                        tokens: marking@[p],
                        capacity: q.capacity,
                        place_type: q.place_type,
                        span: q.span,
                    }
                    &&& g.originals@ == seq![PlaceId(p as usize)]
                    &&& !g.removed
                    &&& g.incoming@ == arc_transitions(net.arcs@, p, ArcDir::Output)
                    &&& g.outgoing@ == arc_transitions(net.arcs@, p, ArcDir::Input)
                },
            forall|t: int|
                0 <= t < r.transitions@.len() ==> {
                    let g = #[trigger] r.transitions@[t];
                    &&& g.transition.name == net.transitions@[t].name
                    &&& g.transition.transition_type.same_as(net.transitions@[t].transition_type)
                    &&& g.originals@ == seq![TransitionId(t as usize)]
                    &&& !g.removed
                    &&& g.inputs@ == arc_pairs(net.arcs@, t, ArcDir::Input)
                    &&& g.outputs@ == arc_pairs(net.arcs@, t, ArcDir::Output)
                },
    {
        let mut places: Vec<GraphPlace> = Vec::new();
        for i in 0..net.places.len()
            invariant
                marking@.len() == net.places@.len(),
                places@.len() == i,
                forall|p: int|
                    0 <= p < i ==> {
                        let g = #[trigger] places@[p];
                        let q = net.places@[p];
                        &&& g.place == PtPlace {
                            name: q.name,
                            tokens: marking@[p],
                            capacity: q.capacity,
                            place_type: q.place_type,
                            span: q.span,
                        }
                        &&& g.originals@ == seq![PlaceId(p as usize)]
                        &&& !g.removed
                        &&& g.incoming@.len() == 0
                        &&& g.outgoing@.len() == 0
                    },
        {
            let q = &net.places[i];
            let mut originals: Vec<PlaceId> = Vec::new();
            originals.push(PlaceId(i));
            places.push(
                GraphPlace {
                    place: PtPlace {
                        name: q.name.clone(),
                        tokens: marking.0[i],
                        capacity: q.capacity,
                        place_type: q.place_type.clone(),
                        span: q.span.clone(),
                    },
                    originals,
                    incoming: Vec::new(),
                    outgoing: Vec::new(),
                    removed: false,
                },
            );
        }
        let mut transitions: Vec<GraphTransition> = Vec::new();
        for i in 0..net.transitions.len()
            invariant
                transitions@.len() == i,
                forall|t: int|
                    0 <= t < i ==> {
                        let g = #[trigger] transitions@[t];
                        &&& g.transition.name == net.transitions@[t].name
                        &&& g.transition.transition_type.same_as(net.transitions@[t].transition_type)
                        &&& g.originals@ == seq![TransitionId(t as usize)]
                        &&& !g.removed
                        &&& g.inputs@.len() == 0
                        &&& g.outputs@.len() == 0
                    },
        {
            let mut originals: Vec<TransitionId> = Vec::new();
            originals.push(TransitionId(i));
            transitions.push(
                GraphTransition {
                    transition: net.transitions[i].clone(),
                    originals,
                    inputs: Vec::new(),
                    outputs: Vec::new(),
                    removed: false,
                },
            );
        }
        let mut g = ReductionGraph { places, transitions, merge_counter: 0 };
        let ghost arcs = net.arcs@;
        proof {
            assert(arcs.take(0) =~= Seq::<PtArc>::empty());
        }
        for k in 0..net.arcs.len()
            invariant
                net.wf(),
                arcs == net.arcs@,
                g.merge_counter == 0,
                g.places@.len() == net.places@.len(),
                g.transitions@.len() == net.transitions@.len(),
                forall|p: int|
                    0 <= p < g.places@.len() ==> {
                        let gp = #[trigger] g.places@[p];
                        let q = net.places@[p];
                        &&& gp.place == PtPlace {
                            name: q.name,
                            tokens: marking@[p],
                            capacity: q.capacity,
                            place_type: q.place_type,
                            span: q.span,
                        }
                        &&& gp.originals@ == seq![PlaceId(p as usize)]
                        &&& !gp.removed
                        &&& gp.incoming@ == arc_transitions(arcs.take(k as int), p, ArcDir::Output)
                        &&& gp.outgoing@ == arc_transitions(arcs.take(k as int), p, ArcDir::Input)
                    },
                forall|t: int|
                    0 <= t < g.transitions@.len() ==> {
                        let gt = #[trigger] g.transitions@[t];
                        &&& gt.transition.name == net.transitions@[t].name
                        &&& gt.transition.transition_type.same_as(net.transitions@[t].transition_type)
                        &&& gt.originals@ == seq![TransitionId(t as usize)]
                        &&& !gt.removed
                        &&& gt.inputs@ == arc_pairs(arcs.take(k as int), t, ArcDir::Input)
                        &&& gt.outputs@ == arc_pairs(arcs.take(k as int), t, ArcDir::Output)
                    },
                forall|t: int, j: int|
                    0 <= t < g.transitions@.len() && 0 <= j < g.transitions@[t].inputs@.len() ==> (
                    #[trigger] g.transitions@[t].inputs@[j]).0 < g.places@.len(),
                forall|t: int, j: int|
                    0 <= t < g.transitions@.len() && 0 <= j < g.transitions@[t].outputs@.len() ==> (
                    #[trigger] g.transitions@[t].outputs@[j]).0 < g.places@.len(),
                forall|p: int, j: int|
                    0 <= p < g.places@.len() && 0 <= j < g.places@[p].incoming@.len() ==> #[trigger] g.places@[p].incoming@[j]
                        < g.transitions@.len(),
                forall|p: int, j: int|
                    0 <= p < g.places@.len() && 0 <= j < g.places@[p].outgoing@.len() ==> #[trigger] g.places@[p].outgoing@[j]
                        < g.transitions@.len(),
        {
            let a = net.arcs[k];
            let p = a.place.0;
            let t = a.transition.0;
            proof {
                assert(arcs.take(k + 1).drop_last() == arcs.take(k as int));
                assert(arcs.take(k + 1).last() == a);
            }
            match a.direction {
                ArcDir::Input => {
                    g.places[p].outgoing.push(t);
                    g.transitions[t].inputs.push((p, a.weight));
                },
                ArcDir::Output => {
                    g.places[p].incoming.push(t);
                    g.transitions[t].outputs.push((p, a.weight));
                },
                _ => {},
            }
        }
        assert(arcs.take(arcs.len() as int) == arcs);
        g
    }
}

proof fn lemma_live_transitions_grow(ts: Seq<GraphTransition>, m: nat, n: nat)
    requires
        m <= n,
    ensures
        live_transitions(ts, m).len() <= live_transitions(ts, n).len(),
        m < n && !ts[m as int].removed ==> live_transitions(ts, m).len() < live_transitions(ts, n).len(),
    decreases n - m,
{
    if m < n {
        lemma_live_transitions_grow(ts, m, (n - 1) as nat);
    }
}

/// A copy of a list of place identifiers.
pub(crate) fn copy_place_ids(v: &Vec<PlaceId>) -> (r: Vec<PlaceId>)
    ensures
        r@ == v@,
{
    let mut r: Vec<PlaceId> = Vec::new();
    for k in 0..v.len()
        invariant
            r@ == v@.take(k as int),
    {
        r.push(v[k]);
        assert(v@.take(k + 1) == v@.take(k as int).push(v@[k as int]));
    }
    assert(v@.take(v@.len() as int) == v@);
    r
}

/// A copy of a list of transition identifiers.
pub(crate) fn copy_transition_ids(v: &Vec<TransitionId>) -> (r: Vec<TransitionId>)
    ensures
        r@ == v@,
{
    let mut r: Vec<TransitionId> = Vec::new();
    for k in 0..v.len()
        invariant
            r@ == v@.take(k as int),
    {
        r.push(v[k]);
        assert(v@.take(k + 1) == v@.take(k as int).push(v@[k as int]));
    }
    assert(v@.take(v@.len() as int) == v@);
    r
}

impl ReductionGraph {
    /// The net of the present places and transitions, renumbered in order,
    /// with the arcs between present nodes, the marking of the present
    /// places, and the originals each stands for.
    pub fn materialize(&self) -> (r: MaterializedNet)
        requires
            self.wf(),
        ensures
            self.shows(r),
    {
        let ghost ps = self.places@;
        let ghost ts = self.transitions@;
        let mut place_mapping: Vec<Option<usize>> = Vec::new();
        let mut places: Vec<PtPlace> = Vec::new();
        let mut tokens: Vec<usize> = Vec::new();
        let mut place_trace: Vec<Vec<PlaceId>> = Vec::new();
        for idx in 0..self.places.len()
            invariant
                ps == self.places@,
                place_mapping@.len() == idx,
                forall|i: int|
                    0 <= i < idx ==> #[trigger] place_mapping@[i] == if ps[i].removed {
                        None
                    } else {
                        Some(live_places(ps, i as nat).len() as usize)
                    },
                places@.len() == live_places(ps, idx as nat).len(),
                tokens@.len() == places@.len(),
                place_trace@.len() == places@.len(),
                forall|i: int|
                    0 <= i < places@.len() ==> #[trigger] places@[i] == ps[live_places(ps, idx as nat)[i]].place,
                forall|i: int|
                    0 <= i < places@.len() ==> #[trigger] tokens@[i] == ps[live_places(ps, idx as nat)[i]].place.tokens,
                forall|i: int|
                    0 <= i < places@.len() ==> (#[trigger] place_trace@[i])@ == ps[live_places(ps, idx as nat)[i]].originals@,
        {
            proof {
                lemma_live_places_bound(ps, idx as nat);
            }
            if self.places[idx].removed {
                place_mapping.push(None);
            } else {
                place_mapping.push(Some(places.len()));
                places.push(self.places[idx].place.clone());
                tokens.push(self.places[idx].place.tokens);
                place_trace.push(copy_place_ids(&self.places[idx].originals));
            }
        }
        let mut transition_mapping: Vec<Option<usize>> = Vec::new();
        let mut transitions: Vec<PtTransition> = Vec::new();
        let mut transition_trace: Vec<Vec<TransitionId>> = Vec::new();
        for idx in 0..self.transitions.len()
            invariant
                ts == self.transitions@,
                transition_mapping@.len() == idx,
                forall|i: int|
                    0 <= i < idx ==> #[trigger] transition_mapping@[i] == if ts[i].removed {
                        None
                    } else {
                        Some(live_transitions(ts, i as nat).len() as usize)
                    },
                transitions@.len() == live_transitions(ts, idx as nat).len(),
                transition_trace@.len() == transitions@.len(),
                forall|i: int|
                    0 <= i < transitions@.len() ==> (#[trigger] transitions@[i]).name
                        == ts[live_transitions(ts, idx as nat)[i]].transition.name
                        && transitions@[i].transition_type.same_as(
                        ts[live_transitions(ts, idx as nat)[i]].transition.transition_type,
                    ),
                forall|i: int|
                    0 <= i < transitions@.len() ==> (#[trigger] transition_trace@[i])@
                        == ts[live_transitions(ts, idx as nat)[i]].originals@,
        {
            proof {
                lemma_live_transitions_bound(ts, idx as nat);
            }
            if self.transitions[idx].removed {
                transition_mapping.push(None);
            } else {
                transition_mapping.push(Some(transitions.len()));
                transitions.push(self.transitions[idx].transition.clone());
                transition_trace.push(copy_transition_ids(&self.transitions[idx].originals));
            }
        }
        let mut arcs: Vec<PtArc> = Vec::new();
        for t in 0..self.transitions.len()
            invariant
                self.wf(),
                ps == self.places@,
                ts == self.transitions@,
                place_mapping@.len() == ps.len(),
                forall|i: int|
                    0 <= i < ps.len() ==> #[trigger] place_mapping@[i] == if ps[i].removed {
                        None
                    } else {
                        Some(live_places(ps, i as nat).len() as usize)
                    },
                transition_mapping@.len() == ts.len(),
                forall|i: int|
                    0 <= i < ts.len() ==> #[trigger] transition_mapping@[i] == if ts[i].removed {
                        None
                    } else {
                        Some(live_transitions(ts, i as nat).len() as usize)
                    },
                arcs@ == materialized_arcs(ps, ts, t as nat),
        {
            proof {
                lemma_live_transitions_bound(ts, t as nat);
                assert(materialized_arcs(ps, ts, (t + 1) as nat) == if ts[t as int].removed {
                    materialized_arcs(ps, ts, t as nat)
                } else {
                    materialized_arcs(ps, ts, t as nat) + mapped_arcs(
                        ps,
                        ts[t as int].inputs@,
                        live_transitions(ts, t as nat).len(),
                        ArcDir::Input,
                    ) + mapped_arcs(
                        ps,
                        ts[t as int].outputs@,
                        live_transitions(ts, t as nat).len(),
                        ArcDir::Output,
                    )
                });
            }
            match transition_mapping[t] {
                Some(new_t) => {
                    let ghost base = arcs@;
                    let tr = &self.transitions[t];
                    for j in 0..tr.inputs.len()
                        invariant
                            self.wf(),
                            ps == self.places@,
                            ts == self.transitions@,
                            t < ts.len(),
                            *tr == ts[t as int],
                            place_mapping@.len() == ps.len(),
                            forall|i: int|
                                0 <= i < ps.len() ==> #[trigger] place_mapping@[i] == if ps[i].removed {
                                    None
                                } else {
                                    Some(live_places(ps, i as nat).len() as usize)
                                },
                            arcs@ == base + mapped_arcs(ps, tr.inputs@.take(j as int), new_t as nat, ArcDir::Input),
                    {
                        let (p, w) = tr.inputs[j];
                        assert(ts[t as int].inputs@[j as int].0 < ps.len());
                        proof {
                            assert(tr.inputs@.take(j + 1).drop_last() == tr.inputs@.take(j as int));
                            assert(tr.inputs@.take(j + 1).last() == tr.inputs@[j as int]);
                        }
                        match place_mapping[p] {
                            Some(new_p) => {
                                arcs.push(
                                    PtArc {
                                        place: PlaceId(new_p),
                                        transition: TransitionId(new_t),
                                        direction: ArcDir::Input,
                                        weight: w,
                                    },
                                );
                            },
                            None => {},
                        }
                    }
                    assert(tr.inputs@.take(tr.inputs@.len() as int) == tr.inputs@);
                    let ghost mid = arcs@;
                    for j in 0..tr.outputs.len()
                        invariant
                            self.wf(),
                            ps == self.places@,
                            ts == self.transitions@,
                            t < ts.len(),
                            *tr == ts[t as int],
                            place_mapping@.len() == ps.len(),
                            forall|i: int|
                                0 <= i < ps.len() ==> #[trigger] place_mapping@[i] == if ps[i].removed {
                                    None
                                } else {
                                    Some(live_places(ps, i as nat).len() as usize)
                                },
                            arcs@ == mid + mapped_arcs(ps, tr.outputs@.take(j as int), new_t as nat, ArcDir::Output),
                    {
                        let (p, w) = tr.outputs[j];
                        assert(ts[t as int].outputs@[j as int].0 < ps.len());
                        proof {
                            assert(tr.outputs@.take(j + 1).drop_last() == tr.outputs@.take(j as int));
                            assert(tr.outputs@.take(j + 1).last() == tr.outputs@[j as int]);
                        }
                        match place_mapping[p] {
                            Some(new_p) => {
                                arcs.push(
                                    PtArc {
                                        place: PlaceId(new_p),
                                        transition: TransitionId(new_t),
                                        direction: ArcDir::Output,
                                        weight: w,
                                    },
                                );
                            },
                            None => {},
                        }
                    }
                    assert(tr.outputs@.take(tr.outputs@.len() as int) == tr.outputs@);
                },
                None => {},
            }
        }
        let net = PtNet { places, transitions, arcs };
        proof {
            lemma_materialized_arcs_wf(ps, ts, ts.len() as nat, self.wf());
        }
        MaterializedNet {
            net,
            marking: Marking(tokens),
            trace: ReductionTrace { place_mapping: place_trace, transition_mapping: transition_trace },
        }
    }
}

/// The arcs of the reduced net join present places and transitions.
proof fn lemma_materialized_arcs_wf(ps: Seq<GraphPlace>, ts: Seq<GraphTransition>, n: nat, wf: bool)
    requires
        n <= ts.len(),
        ps.len() <= usize::MAX,
        ts.len() <= usize::MAX,
    ensures
        forall|k: int|
            0 <= k < materialized_arcs(ps, ts, n).len() ==> (#[trigger] materialized_arcs(ps, ts, n)[k]).place.0
                < live_places(ps, ps.len()).len() && materialized_arcs(ps, ts, n)[k].transition.0
                < live_transitions(ts, ts.len()).len(),
    decreases n,
{
    if n > 0 {
        lemma_materialized_arcs_wf(ps, ts, (n - 1) as nat, wf);
        let t = ts[n - 1];
        if !t.removed {
            let new_t = live_transitions(ts, (n - 1) as nat).len();
            lemma_live_transitions_grow(ts, (n - 1) as nat, ts.len());
            lemma_live_transitions_bound(ts, (n - 1) as nat);
            lemma_mapped_arcs_wf(ps, t.inputs@, new_t, ArcDir::Input);
            lemma_mapped_arcs_wf(ps, t.outputs@, new_t, ArcDir::Output);
            let prev = materialized_arcs(ps, ts, (n - 1) as nat);
            let a = mapped_arcs(ps, t.inputs@, new_t, ArcDir::Input);
            let b = mapped_arcs(ps, t.outputs@, new_t, ArcDir::Output);
            assert forall|k: int|
                0 <= k < materialized_arcs(ps, ts, n).len() implies (#[trigger] materialized_arcs(ps, ts, n)[k]).place.0
                    < live_places(ps, ps.len()).len() && materialized_arcs(ps, ts, n)[k].transition.0
                    < live_transitions(ts, ts.len()).len() by {
                if k < prev.len() {
                    assert(materialized_arcs(ps, ts, n)[k] == prev[k]);
                } else if k < prev.len() + a.len() {
                    assert(materialized_arcs(ps, ts, n)[k] == a[k - prev.len()]);
                } else {
                    assert(materialized_arcs(ps, ts, n)[k] == b[k - prev.len() - a.len()]);
                }
            }
        }
    }
}

/// The arcs made from pairs join present places and the given transition.
proof fn lemma_mapped_arcs_wf(ps: Seq<GraphPlace>, pairs: Seq<(usize, usize)>, new_t: nat, dir: ArcDir)
    requires
        ps.len() <= usize::MAX,
    ensures
        forall|k: int|
            0 <= k < mapped_arcs(ps, pairs, new_t, dir).len() ==> (#[trigger] mapped_arcs(ps, pairs, new_t, dir)[k]).place.0
                < live_places(ps, ps.len()).len() && mapped_arcs(ps, pairs, new_t, dir)[k].transition.0 == new_t as usize,
    decreases pairs.len(),
{
    if pairs.len() > 0 {
        lemma_mapped_arcs_wf(ps, pairs.drop_last(), new_t, dir);
        let e = pairs.last();
        if (e.0 as int) < ps.len() && !ps[e.0 as int].removed {
            lemma_live_places_grow(ps, e.0 as nat, ps.len());
            lemma_live_places_bound(ps, e.0 as nat);
        }
    }
}

/// Appends a copy of `src` to `dst`.
pub(crate) fn append_copies<T: Copy>(dst: &mut Vec<T>, src: &Vec<T>)
    ensures
        final(dst)@ == old(dst)@ + src@,
{
    let ghost d0 = dst@;
    for k in 0..src.len()
        invariant
            dst@ == d0 + src@.take(k as int),
    {
        dst.push(src[k]);
        assert(src@.take(k + 1) == src@.take(k as int).push(src@[k as int]));
    }
    assert(src@.take(src@.len() as int) == src@);
}

} // verus!
