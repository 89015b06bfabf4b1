//! Elimination of intermediate places: a token-free place between one
//! producing and one consuming transition is dropped and the two
//! transitions are merged into one.
use vstd::prelude::*;

use crate::bug::{PlaceType, TransitionType};
use crate::ids::{PlaceId, TransitionId};
use crate::text::{decimal, push_decimal, string_of};

use super::graph::{
    append_copies, copy_pairs, copy_place_ids, copy_transition_ids, lemma_filter_absorbs,
    lemma_filter_sub, live_place, without, GraphPlace, GraphTransition, ReductionGraph,
};
use super::loop_removal::is_resource;
use super::{preserves_transition_type, preserves_type, same_kind, same_kind_of, ReductionStep};

verus! {

/// The number of places of `ps` that are present.
pub open spec fn present_count(ps: Seq<GraphPlace>) -> nat
    decreases ps.len(),
{
    if ps.len() == 0 {
        0
    } else {
        present_count(ps.drop_last()) + if ps.last().removed {
            0nat
        } else {
            1nat
        }
    }
}

proof fn lemma_present_count_le(ps: Seq<GraphPlace>)
    ensures
        present_count(ps) <= ps.len(),
    decreases ps.len(),
{
    if ps.len() > 0 {
        lemma_present_count_le(ps.drop_last());
    }
}

proof fn lemma_present_count_same(ps: Seq<GraphPlace>, qs: Seq<GraphPlace>)
    requires
        ps.len() == qs.len(),
        forall|q: int| 0 <= q < ps.len() ==> (#[trigger] ps[q]).removed == qs[q].removed,
    ensures
        present_count(ps) == present_count(qs),
    decreases ps.len(),
{
    if ps.len() > 0 {
        assert forall|q: int| 0 <= q < ps.drop_last().len() implies (#[trigger] ps.drop_last()[q]).removed
            == qs.drop_last()[q].removed by {
            assert(ps[q].removed == qs[q].removed);
        }
        lemma_present_count_same(ps.drop_last(), qs.drop_last());
    }
}

/// Removing one present place lowers the count of present places by one.
proof fn lemma_present_count_remove(ps: Seq<GraphPlace>, qs: Seq<GraphPlace>, p: int)
    requires
        ps.len() == qs.len(),
        0 <= p < ps.len(),
        !ps[p].removed,
        qs[p].removed,
        forall|q: int| 0 <= q < ps.len() && q != p ==> (#[trigger] ps[q]).removed == qs[q].removed,
    ensures
        present_count(qs) + 1 == present_count(ps),
    decreases ps.len(),
{
    if p < ps.len() - 1 {
        assert forall|q: int| 0 <= q < ps.drop_last().len() && q != p implies (
        #[trigger] ps.drop_last()[q]).removed == qs.drop_last()[q].removed by {
            assert(ps[q].removed == qs[q].removed);
        }
        lemma_present_count_remove(ps.drop_last(), qs.drop_last(), p);
        assert(ps[ps.len() - 1].removed == qs[ps.len() - 1].removed);
    } else {
        assert forall|q: int| 0 <= q < ps.drop_last().len() implies (#[trigger] ps.drop_last()[q]).removed
            == qs.drop_last()[q].removed by {
            assert(ps[q].removed == qs[q].removed);
        }
        lemma_present_count_same(ps.drop_last(), qs.drop_last());
    }
}

impl ReductionGraph {
    /// Whether place `p` can be eliminated: it is present, holds no token,
    /// stands for no resource, has exactly one producing transition `tin`
    /// and one consuming transition `tout`, both present and of types that
    /// reduction need not preserve, `tin` produces only into `p` and `tout`
    /// consumes only from `p`, with the same weight.
    pub open spec fn is_intermediate(&self, p: int) -> bool {
        let ps = self.places@;
        let ts = self.transitions@;
        &&& 0 <= p < ps.len()
        &&& !ps[p].removed
        &&& !is_resource(ps[p].place.place_type)
        &&& ps[p].place.tokens == 0
        &&& ps[p].incoming@.len() == 1
        &&& ps[p].outgoing@.len() == 1
        &&& !ts[ps[p].incoming@[0] as int].removed
        &&& !ts[ps[p].outgoing@[0] as int].removed
        &&& !preserves_type(ts[ps[p].incoming@[0] as int].transition.transition_type)
        &&& !preserves_type(ts[ps[p].outgoing@[0] as int].transition.transition_type)
        &&& ts[ps[p].incoming@[0] as int].outputs@.len() == 1
        &&& ts[ps[p].outgoing@[0] as int].inputs@.len() == 1
        &&& ts[ps[p].incoming@[0] as int].outputs@[0].1 == ts[ps[p].outgoing@[0] as int].inputs@[0].1
    }

    /// Whether this graph is `before` with intermediate place `p`
    /// eliminated and `step` reporting it: `p` and its producing transition
    /// `tin` and consuming transition `tout` are removed, nothing else is;
    /// one transition is appended, named `inter_merge#` and the merge
    /// counter, with the inputs of `tin` and the outputs of `tout` (those to
    /// places still present), the original nodes of both, and their common
    /// type (or `Normal` where they differ); the step names the original
    /// nodes of `p` and of the merged transition.
    pub open spec fn is_elimination_of(&self, before: ReductionGraph, p: int, step: ReductionStep) -> bool {
        let tin = before.places@[p].incoming@[0] as int;
        let tout = before.places@[p].outgoing@[0] as int;
        let a = before.transitions@[tin];
        let b = before.transitions@[tout];
        let n = self.transitions@[before.transitions@.len() as int];
        &&& before.is_intermediate(p)
        &&& self.keeps_nodes(before)
        &&& self.places@.len() == before.places@.len()
        &&& self.transitions@.len() == before.transitions@.len() + 1
        &&& self.merge_counter == before.merge_counter + 1
        &&& forall|q: int|
            0 <= q < self.places@.len() ==> (#[trigger] self.places@[q]).removed == (before.places@[q].removed
                || q == p)
        &&& forall|t: int|
            0 <= t < before.transitions@.len() ==> (#[trigger] self.transitions@[t]).removed
                == (before.transitions@[t].removed || t == tin || t == tout)
        &&& !n.removed
        &&& n.transition.name@ == "inter_merge#"@ + decimal(before.merge_counter as nat)
        &&& n.originals@ == a.originals@ + b.originals@
        &&& n.inputs@ == a.inputs@.filter(live_place(self.places@))
        &&& n.outputs@ == b.outputs@.filter(live_place(self.places@))
        &&& (if same_kind(a.transition.transition_type, b.transition.transition_type) {
            n.transition.transition_type == a.transition.transition_type
        } else {
            n.transition.transition_type == TransitionType::Normal
        })
        &&& step matches ReductionStep::IntermediatePlaceEliminated { places, merged_transitions }
            && places@ == before.places@[p].originals@ && merged_transitions@ == a.originals@ + b.originals@
    }

    /// Whether this graph comes from `before` by the eliminations `steps`,
    /// in order, each of the intermediate place with the lowest index.
    pub open spec fn eliminated_in_order(&self, before: ReductionGraph, steps: Seq<ReductionStep>) -> bool {
        exists|gs: Seq<ReductionGraph>, ps: Seq<int>|
            {
                &&& gs.len() == steps.len() + 1
                &&& ps.len() == steps.len()
                &&& gs[0] == before
                &&& gs.last() == *self
                &&& forall|k: int|
                    0 <= k < ps.len() ==> gs[k + 1].is_elimination_of(gs[k], #[trigger] ps[k], steps[k])
                        && forall|q: int| 0 <= q < ps[k] ==> !gs[k].is_intermediate(q)
            }
    }

    /// The first place that can be eliminated, if any.
    fn find_intermediate(&self) -> (r: Option<usize>)
        requires
            self.wf(),
        ensures
            match r {
                Some(p) => self.is_intermediate(p as int) && forall|q: int| 0 <= q < p ==> !self.is_intermediate(q),
                None => forall|p: int| !self.is_intermediate(p),
            },
    {
        let np = self.places.len();
        for p in 0..np
            invariant
                np == self.places@.len(),
                self.wf(),
                forall|q: int| 0 <= q < p ==> !self.is_intermediate(q),
        {
            let pl = &self.places[p];
            if !pl.removed && !matches!(pl.place.place_type, PlaceType::Resource) && pl.place.tokens == 0
                && pl.incoming.len() == 1 && pl.outgoing.len() == 1 {
                let tin = pl.incoming[0];
                let tout = pl.outgoing[0];
                assert(self.places@[p as int].incoming@[0] < self.transitions@.len());
                assert(self.places@[p as int].outgoing@[0] < self.transitions@.len());
                let a = &self.transitions[tin];
                let b = &self.transitions[tout];
                if !a.removed && !b.removed && !preserves_transition_type(&a.transition.transition_type)
                    && !preserves_transition_type(&b.transition.transition_type) && a.outputs.len() == 1
                    && b.inputs.len() == 1 && a.outputs[0].1 == b.inputs[0].1 {
                    return Some(p);
                }
            }
        }
        None
    }

    /// Eliminates place `p`: its producing transition `tin` and consuming
    /// transition `tout` are replaced by a new transition named
    /// `inter_merge#` and the merge counter, with the inputs of `tin`, the
    /// outputs of `tout`, the original nodes of both, and their common type
    /// (or `Normal` where they differ).
    fn eliminate_at(&mut self, p: usize) -> (step: ReductionStep)
        requires
            old(self).wf(),
            old(self).is_intermediate(p as int),
            old(self).transitions@.len() < usize::MAX,
            old(self).merge_counter < usize::MAX,
        ensures
            final(self).wf(),
            final(self).keeps_nodes(*old(self)),
            final(self).is_elimination_of(*old(self), p as int, step),
    {
        let ghost g0 = *self;
        let tin = self.places[p].incoming[0];
        let tout = self.places[p].outgoing[0];
        assert(g0.places@[p as int].incoming@[0] < g0.transitions@.len());
        assert(g0.places@[p as int].outgoing@[0] < g0.transitions@.len());
        let inputs = copy_pairs(&self.transitions[tin].inputs);
        let outputs = copy_pairs(&self.transitions[tout].outputs);
        let place_originals = copy_place_ids(&self.places[p].originals);
        let mut combined = copy_transition_ids(&self.transitions[tin].originals);
        append_copies(&mut combined, &self.transitions[tout].originals);
        let ty = if same_kind_of(&self.transitions[tin].transition.transition_type,
            &self.transitions[tout].transition.transition_type) {
            self.transitions[tin].transition.transition_type.clone()
        } else {
            TransitionType::Normal
        };
        let mut name = string_of("inter_merge#");
        let counter = self.merge_counter;
        push_decimal(&mut name, counter as u64);
        let originals = copy_transition_ids(&combined);
        let new_inputs = copy_pairs(&inputs);
        let new_outputs = copy_pairs(&outputs);
        let nt = self.add_transition(GraphTransition::new_with_type(name, ty, originals, new_inputs, new_outputs));
        self.merge_counter = counter + 1;
        let ghost g1 = *self;
        assert(self.wf()) by {
            assert forall|t: int, k: int|
                0 <= t < self.transitions@.len() && 0 <= k < self.transitions@[t].inputs@.len() implies (
                #[trigger] self.transitions@[t].inputs@[k]).0 < self.places@.len() by {
                if t < g0.transitions@.len() {
                    assert(self.transitions@[t] == g0.transitions@[t]);
                }
            }
            assert forall|t: int, k: int|
                0 <= t < self.transitions@.len() && 0 <= k < self.transitions@[t].outputs@.len() implies (
                #[trigger] self.transitions@[t].outputs@[k]).0 < self.places@.len() by {
                if t < g0.transitions@.len() {
                    assert(self.transitions@[t] == g0.transitions@[t]);
                }
            }
        }
        let np = self.places.len();
        for k in 0..inputs.len()
            invariant
                np == self.places@.len(),
                self.wf(),
                nt < self.transitions@.len(),
                self.transitions@ == g1.transitions@,
                self.merge_counter == g1.merge_counter,
                forall|q: int|
                    0 <= q < np ==> (#[trigger] self.places@[q]).place == g1.places@[q].place
                        && self.places@[q].originals@ == g1.places@[q].originals@ && self.places@[q].removed
                        == g1.places@[q].removed,
        {
            let q = inputs[k].0;
            if q < np {
                let mut l = without(&self.places[q].outgoing, tin);
                proof {
                    assert forall|j: int| 0 <= j < l@.len() implies l@[j] < self.transitions@.len() by {
                        lemma_filter_sub(self.places@[q as int].outgoing@, |y: usize| y != tin, j);
                    }
                }
                l.push(nt);
                self.places[q].outgoing = l;
            }
        }
        for k in 0..outputs.len()
            invariant
                np == self.places@.len(),
                self.wf(),
                nt < self.transitions@.len(),
                self.transitions@ == g1.transitions@,
                self.merge_counter == g1.merge_counter,
                forall|q: int|
                    0 <= q < np ==> (#[trigger] self.places@[q]).place == g1.places@[q].place
                        && self.places@[q].originals@ == g1.places@[q].originals@ && self.places@[q].removed
                        == g1.places@[q].removed,
        {
            let q = outputs[k].0;
            if q < np {
                let mut l = without(&self.places[q].incoming, tout);
                proof {
                    assert forall|j: int| 0 <= j < l@.len() implies l@[j] < self.transitions@.len() by {
                        lemma_filter_sub(self.places@[q as int].incoming@, |y: usize| y != tout, j);
                    }
                }
                l.push(nt);
                self.places[q].incoming = l;
            }
        }
        self.remove_transition(tin);
        self.remove_transition(tout);
        let ghost g2 = *self;
        self.remove_place(p);
        let ghost g3 = *self;
        self.clean_adjacency();
        proof {
            let live = live_place(self.places@);
            let other = |e: (usize, usize)| e.0 != p;
            assert forall|x: (usize, usize)| #[trigger] live(x) implies other(x) by {
                if x.0 == p {
                    assert(self.places@[p as int].removed);
                }
            }
            assert(g2.transitions@[nt as int].inputs@ == inputs@);
            assert(g2.transitions@[nt as int].outputs@ == outputs@);
            lemma_filter_absorbs(inputs@, other, live);
            lemma_filter_absorbs(outputs@, other, live);
        }
        ReductionStep::IntermediatePlaceEliminated { places: place_originals, merged_transitions: combined }
    }
}

impl ReductionGraph {
    /// Eliminates intermediate places until none is left, and reports each
    /// elimination with the original nodes it merged.
    pub fn eliminate_intermediate_places(&mut self) -> (steps: Vec<ReductionStep>)
        requires
            old(self).wf(),
            old(self).transitions@.len() + old(self).places@.len() < usize::MAX,
            old(self).merge_counter + old(self).places@.len() < usize::MAX,
        ensures
            final(self).wf(),
            final(self).keeps_nodes(*old(self)),
            final(self).removed_only_empty_places(*old(self)),
            final(self).transitions@.len() == old(self).transitions@.len() + steps@.len(),
            final(self).merge_counter == old(self).merge_counter + steps@.len(),
            forall|t: int|
                0 <= t < old(self).transitions@.len() && !old(self).transitions@[t].removed
                    && (#[trigger] final(self).transitions@[t]).removed ==> !preserves_type(
                    old(self).transitions@[t].transition.transition_type,
                ),
            forall|p: int| !final(self).is_intermediate(p),
            steps@.len() == 0 <==> forall|p: int| !old(self).is_intermediate(p),
            forall|k: int| 0 <= k < steps@.len() ==> (#[trigger] steps@[k]) is IntermediatePlaceEliminated,
            final(self).eliminated_in_order(*old(self), steps@),
    {
        let ghost g0 = *self;
        let mut steps: Vec<ReductionStep> = Vec::new();
        let ghost mut gs: Seq<ReductionGraph> = seq![*self];
        let ghost mut ps: Seq<int> = Seq::empty();
        proof {
            lemma_present_count_le(self.places@);
        }
        loop
            invariant
                self.wf(),
                self.keeps_nodes(g0),
                self.removed_only_empty_places(g0),
                self.transitions@.len() == g0.transitions@.len() + steps@.len(),
                self.merge_counter == g0.merge_counter + steps@.len(),
                steps@.len() + present_count(self.places@) <= g0.places@.len(),
                g0.transitions@.len() + g0.places@.len() < usize::MAX,
                g0.merge_counter + g0.places@.len() < usize::MAX,
                steps@.len() == 0 ==> *self == g0,
                steps@.len() > 0 ==> exists|p: int| g0.is_intermediate(p),
                forall|t: int|
                    0 <= t < g0.transitions@.len() && !g0.transitions@[t].removed
                        && (#[trigger] self.transitions@[t]).removed ==> !preserves_type(
                        g0.transitions@[t].transition.transition_type,
                    ),
                forall|k: int| 0 <= k < steps@.len() ==> (#[trigger] steps@[k]) is IntermediatePlaceEliminated,
                gs.len() == steps@.len() + 1,
                ps.len() == steps@.len(),
                gs[0] == g0,
                gs.last() == *self,
                forall|k: int|
                    0 <= k < ps.len() ==> gs[k + 1].is_elimination_of(gs[k], #[trigger] ps[k], steps@[k])
                        && forall|q: int| 0 <= q < ps[k] ==> !gs[k].is_intermediate(q),
            ensures
                self.wf(),
                self.keeps_nodes(g0),
                self.removed_only_empty_places(g0),
                self.transitions@.len() == g0.transitions@.len() + steps@.len(),
                self.merge_counter == g0.merge_counter + steps@.len(),
                forall|t: int|
                    0 <= t < g0.transitions@.len() && !g0.transitions@[t].removed
                        && (#[trigger] self.transitions@[t]).removed ==> !preserves_type(
                        g0.transitions@[t].transition.transition_type,
                    ),
                forall|p: int| !self.is_intermediate(p),
                steps@.len() == 0 ==> forall|p: int| !g0.is_intermediate(p),
                steps@.len() > 0 ==> exists|p: int| g0.is_intermediate(p),
                forall|k: int| 0 <= k < steps@.len() ==> (#[trigger] steps@[k]) is IntermediatePlaceEliminated,
                gs.len() == steps@.len() + 1,
                ps.len() == steps@.len(),
                gs[0] == g0,
                gs.last() == *self,
                forall|k: int|
                    0 <= k < ps.len() ==> gs[k + 1].is_elimination_of(gs[k], #[trigger] ps[k], steps@[k])
                        && forall|q: int| 0 <= q < ps[k] ==> !gs[k].is_intermediate(q),
            decreases present_count(self.places@),
        {
            let found = self.find_intermediate();
            let p = match found {
                Some(p) => p,
                None => {
                    break;
                },
            };
            let ghost before = *self;
            assert(steps@.len() == 0 ==> g0.is_intermediate(p as int));
            assert(present_count(self.places@) > 0) by {
                let qs = self.places@.update(p as int, GraphPlace {
                    removed: true,
                    ..self.places@[p as int]
                });
                lemma_present_count_remove(self.places@, qs, p as int);
            }
            let step = self.eliminate_at(p);
            proof {
                lemma_present_count_remove(before.places@, self.places@, p as int);
                assert forall|q: int|
                    0 <= q < g0.places@.len() && !g0.places@[q].removed && (#[trigger] self.places@[q]).removed
                        implies g0.places@[q].place.tokens == 0 && !is_resource(g0.places@[q].place.place_type) by {
                    if !before.places@[q].removed {
                        assert(q == p);
                        assert(before.places@[q].place == g0.places@[q].place);
                    }
                }
                assert forall|t: int|
                    0 <= t < g0.transitions@.len() && !g0.transitions@[t].removed
                        && (#[trigger] self.transitions@[t]).removed implies !preserves_type(
                        g0.transitions@[t].transition.transition_type,
                    ) by {
                    if !before.transitions@[t].removed {
                        assert(before.transitions@[t].transition == g0.transitions@[t].transition);
                    }
                }
            }
            let ghost steps0 = steps@;
            steps.push(step);
            proof {
                let gs0 = gs;
                let ps0 = ps;
                gs = gs.push(*self);
                ps = ps.push(p as int);
                assert forall|k: int|
                    0 <= k < ps.len() implies gs[k + 1].is_elimination_of(gs[k], #[trigger] ps[k], steps@[k])
                        && forall|q: int| 0 <= q < ps[k] ==> !gs[k].is_intermediate(q) by {
                    if k < ps0.len() {
                        assert(gs[k + 1] == gs0[k + 1]);
                        assert(gs[k] == gs0[k]);
                        assert(ps[k] == ps0[k]);
                        assert(steps@[k] == steps0[k]);
                    } else {
                        assert(gs[k] == before);
                        assert(gs[k + 1] == *self);
                    }
                }
            }
        }
        steps
    }
}

/// One elimination step keeps every transition whose type is an unsafe
/// access (`UnsafeAccess`, `UnsafeRead`, `UnsafeWrite`): it stays present or
/// removed as it was, with its name and type.
proof fn lemma_step_keeps_unsafe(before: ReductionGraph, after: ReductionGraph, p: int, step: ReductionStep, t: int)
    requires
        after.is_elimination_of(before, p, step),
        0 <= t < before.transitions@.len(),
        ({
            let ty = before.transitions@[t].transition.transition_type;
            ty is UnsafeAccess || ty is UnsafeRead || ty is UnsafeWrite
        }),
    ensures
        after.transitions@[t].transition == before.transitions@[t].transition,
        after.transitions@[t].removed == before.transitions@[t].removed,
{
    let tin = before.places@[p].incoming@[0] as int;
    let tout = before.places@[p].outgoing@[0] as int;
    assert(t != tin);
    assert(t != tout);
}

/// Eliminating intermediate places never removes, merges or retypes a
/// transition whose type is an unsafe access (`UnsafeAccess`, `UnsafeRead`
/// or `UnsafeWrite`): detection must still see it, so it keeps its node,
/// its name and its type, and stays present if it was.
pub proof fn law_elimination_keeps_unsafe_transitions(
    before: ReductionGraph,
    after: ReductionGraph,
    steps: Seq<ReductionStep>,
    t: int,
)
    requires
        after.eliminated_in_order(before, steps),
        0 <= t < before.transitions@.len(),
        ({
            let ty = before.transitions@[t].transition.transition_type;
            ty is UnsafeAccess || ty is UnsafeRead || ty is UnsafeWrite
        }),
    ensures
        t < after.transitions@.len(),
        after.transitions@[t].transition == before.transitions@[t].transition,
        after.transitions@[t].removed == before.transitions@[t].removed,
{
    let (gs, ps) = choose|gs: Seq<ReductionGraph>, ps: Seq<int>|
        {
            &&& gs.len() == steps.len() + 1
            &&& ps.len() == steps.len()
            &&& gs[0] == before
            &&& gs.last() == after
            &&& forall|k: int|
                0 <= k < ps.len() ==> gs[k + 1].is_elimination_of(gs[k], #[trigger] ps[k], steps[k])
                    && forall|q: int| 0 <= q < ps[k] ==> !gs[k].is_intermediate(q)
        };
    lemma_chain_keeps_unsafe(gs, ps, steps, t, steps.len() as int);
}

/// The first `n` steps of an elimination chain keep transition `t` of an
/// unsafe access type as it was.
proof fn lemma_chain_keeps_unsafe(gs: Seq<ReductionGraph>, ps: Seq<int>, steps: Seq<ReductionStep>, t: int, n: int)
    requires
        gs.len() == steps.len() + 1,
        ps.len() == steps.len(),
        0 <= n <= ps.len(),
        forall|k: int|
            0 <= k < ps.len() ==> gs[k + 1].is_elimination_of(gs[k], #[trigger] ps[k], steps[k]),
        0 <= t < gs[0].transitions@.len(),
        ({
            let ty = gs[0].transitions@[t].transition.transition_type;
            ty is UnsafeAccess || ty is UnsafeRead || ty is UnsafeWrite
        }),
    ensures
        t < gs[n].transitions@.len(),
        gs[n].transitions@[t].transition == gs[0].transitions@[t].transition,
        gs[n].transitions@[t].removed == gs[0].transitions@[t].removed,
    decreases n,
{
    if n > 0 {
        lemma_chain_keeps_unsafe(gs, ps, steps, t, n - 1);
        assert(gs[n].is_elimination_of(gs[n - 1], ps[n - 1], steps[n - 1]));
        lemma_step_keeps_unsafe(gs[n - 1], gs[n], ps[n - 1], steps[n - 1], t);
    }
}

/// Whether transition `t` of `g` has an unsafe access type.
pub open spec fn unsafe_at(g: ReductionGraph, t: int) -> bool {
    let ty = g.transitions@[t].transition.transition_type;
    ty is UnsafeAccess || ty is UnsafeRead || ty is UnsafeWrite
}

/// The first `n` steps of an elimination chain add no transition of an
/// unsafe access type.
proof fn lemma_chain_adds_no_unsafe(gs: Seq<ReductionGraph>, ps: Seq<int>, steps: Seq<ReductionStep>, n: int)
    requires
        gs.len() == steps.len() + 1,
        ps.len() == steps.len(),
        0 <= n <= ps.len(),
        forall|k: int|
            0 <= k < ps.len() ==> gs[k + 1].is_elimination_of(gs[k], #[trigger] ps[k], steps[k]),
    ensures
        gs[0].transitions@.len() <= gs[n].transitions@.len(),
        forall|t: int| gs[0].transitions@.len() <= t < gs[n].transitions@.len() ==> !#[trigger] unsafe_at(gs[n], t),
    decreases n,
{
    if n > 0 {
        lemma_chain_adds_no_unsafe(gs, ps, steps, n - 1);
        let before = gs[n - 1];
        let after = gs[n];
        assert(after.is_elimination_of(before, ps[n - 1], steps[n - 1]));
        assert forall|t: int| gs[0].transitions@.len() <= t < after.transitions@.len() implies !#[trigger] unsafe_at(after, t) by {
            if t < before.transitions@.len() {
                assert(after.transitions@[t].transition == before.transitions@[t].transition);
                assert(!unsafe_at(before, t));
            } else {
                let p = ps[n - 1];
                let tin = before.places@[p].incoming@[0] as int;
                assert(!preserves_type(before.transitions@[tin].transition.transition_type));
            }
        }
    }
}

/// Eliminating intermediate places creates no transition of an unsafe
/// access type: every merged transition has the common type of two
/// transitions that are not unsafe accesses, or `Normal`.
pub proof fn law_elimination_adds_no_unsafe_transitions(
    before: ReductionGraph,
    after: ReductionGraph,
    steps: Seq<ReductionStep>,
    t: int,
)
    requires
        after.eliminated_in_order(before, steps),
        before.transitions@.len() <= t < after.transitions@.len(),
    ensures
        !unsafe_at(after, t),
{
    let (gs, ps) = choose|gs: Seq<ReductionGraph>, ps: Seq<int>|
        {
            &&& gs.len() == steps.len() + 1
            &&& ps.len() == steps.len()
            &&& gs[0] == before
            &&& gs.last() == after
            &&& forall|k: int|
                0 <= k < ps.len() ==> gs[k + 1].is_elimination_of(gs[k], #[trigger] ps[k], steps[k])
                    && forall|q: int| 0 <= q < ps[k] ==> !gs[k].is_intermediate(q)
        };
    lemma_chain_adds_no_unsafe(gs, ps, steps, steps.len() as int);
    assert(gs[steps.len() as int] == after);
}

} // verus!
