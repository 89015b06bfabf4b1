//! Removal of simple token-free loops.
use vstd::prelude::*;

use crate::bug::PlaceType;
use crate::ids::{PlaceId, TransitionId};

use super::graph::{append_copies, holds, ReductionGraph};
use super::ReductionStep;

verus! {

/// Whether a place stands for a resource.
pub open spec fn is_resource(t: PlaceType) -> bool {
    t is Resource
}

/// The number of `false` entries of `v`.
pub open spec fn unvisited(v: Seq<bool>) -> nat
    decreases v.len(),
{
    if v.len() == 0 {
        0
    } else {
        unvisited(v.drop_last()) + if v.last() {
            0nat
        } else {
            1nat
        }
    }
}

/// Marking an unseen place seen leaves one fewer unseen.
pub proof fn lemma_unvisited_mark(v: Seq<bool>, i: int)
    requires
        0 <= i < v.len(),
        !v[i],
    ensures
        unvisited(v.update(i, true)) + 1 == unvisited(v),
    decreases v.len(),
{
    if i < v.len() - 1 {
        assert(v.update(i, true).drop_last() == v.drop_last().update(i, true));
        lemma_unvisited_mark(v.drop_last(), i);
    } else {
        assert(v.update(i, true).drop_last() == v.drop_last());
    }
}

/// `n` copies of `false`.
fn falses(n: usize) -> (r: Vec<bool>)
    ensures
        r@.len() == n,
        forall|i: int| 0 <= i < n ==> !r@[i],
{
    let mut r: Vec<bool> = Vec::new();
    for i in 0..n
        invariant
            r@.len() == i,
            forall|j: int| 0 <= j < i ==> !r@[j],
    {
        r.push(false);
    }
    r
}

/// Follows unique successors from place `current` of `g`, with the places
/// in `visited` already seen and the loop so far `ps`, `ts`, back to place
/// `start`: each step takes the first outgoing transition, which must be
/// present with exactly one input and one output, into a place that must be
/// present, no resource, and have exactly one incoming and one outgoing
/// transition. None when a step fails or a place comes round twice.
pub open spec fn walk(
    g: ReductionGraph,
    start: int,
    current: int,
    visited: Seq<bool>,
    ps: Seq<usize>,
    ts: Seq<usize>,
) -> Option<(Seq<usize>, Seq<usize>)>
    decreases unvisited(visited),
{
    if !(0 <= current < visited.len()) || visited[current] || current >= g.places@.len() {
        None
    } else {
        let pl = g.places@[current];
        if pl.outgoing@.len() == 0 {
            None
        } else {
            let t = pl.outgoing@[0];
            if t >= g.transitions@.len() {
                None
            } else {
                let tr = g.transitions@[t as int];
                if tr.removed || tr.inputs@.len() != 1 || tr.outputs@.len() != 1 {
                    None
                } else {
                    let next = tr.outputs@[0].0;
                    if next >= g.places@.len() {
                        None
                    } else {
                        let np = g.places@[next as int];
                        if np.removed || is_resource(np.place.place_type) || np.incoming@.len() != 1
                            || np.outgoing@.len() != 1 {
                            None
                        } else if next == start {
                            Some((ps.push(current as usize), ts.push(t)))
                        } else {
                            proof {
                                lemma_unvisited_mark(visited, current);
                            }
                            walk(g, start, next as int, visited.update(current, true), ps.push(current as usize), ts.push(t))
                        }
                    }
                }
            }
        }
    }
}

/// The simple loop of `g` through place `start`: its places, from `start`
/// on, and its transitions, in order; none unless `start` is present and no
/// resource and the walk from it comes back to it.
pub open spec fn simple_loop(g: ReductionGraph, start: int) -> Option<(Seq<usize>, Seq<usize>)> {
    if g.places@[start].removed || is_resource(g.places@[start].place.place_type) {
        None
    } else {
        walk(g, start, start, Seq::new(g.places@.len(), |i: int| false), Seq::empty(), Seq::empty())
    }
}

/// The original places that places `ps` of `g` stand for, in order.
pub open spec fn place_originals(g: ReductionGraph, ps: Seq<usize>) -> Seq<PlaceId>
    decreases ps.len(),
{
    if ps.len() == 0 {
        Seq::empty()
    } else {
        place_originals(g, ps.drop_last()) + g.places@[ps.last() as int].originals@
    }
}

/// The original transitions that transitions `ts` of `g` stand for, in
/// order.
pub open spec fn transition_originals(g: ReductionGraph, ts: Seq<usize>) -> Seq<TransitionId>
    decreases ts.len(),
{
    if ts.len() == 0 {
        Seq::empty()
    } else {
        transition_originals(g, ts.drop_last()) + g.transitions@[ts.last() as int].originals@
    }
}

/// Whether the loop through place `start` of `g` is removed when the places
/// in `visited` are already handled: `start` is unvisited, present, no
/// resource, with one incoming and one outgoing transition, the walk from
/// it comes back to it, and no place on the loop holds a token.
pub open spec fn loop_removable(g: ReductionGraph, visited: Seq<bool>, start: int) -> bool {
    &&& !visited[start]
    &&& !g.places@[start].removed
    &&& !is_resource(g.places@[start].place.place_type)
    &&& g.places@[start].outgoing@.len() == 1
    &&& g.places@[start].incoming@.len() == 1
    &&& simple_loop(g, start) matches Some((ps, ts)) && forall|k: int|
        0 <= k < ps.len() ==> #[trigger] g.places@[ps[k] as int].place.tokens == 0
}

/// Whether `g2`, `visited2` and `step` are what removing the loop through
/// `start` from `g` with handled places `visited` gives: when the loop is
/// removable, its places and transitions are removed and its places marked
/// handled, the adjacency lists name only present nodes, and the step lists
/// the original nodes of the loop, unless there are none; otherwise nothing
/// changes.
pub open spec fn loop_removed_from(
    g: ReductionGraph,
    visited: Seq<bool>,
    start: int,
    g2: ReductionGraph,
    visited2: Seq<bool>,
    step: Option<ReductionStep>,
) -> bool {
    if loop_removable(g, visited, start) {
        let (ps, ts) = simple_loop(g, start)->Some_0;
        &&& g2.wf()
        &&& g2.clean()
        &&& g2.keeps_nodes(g)
        &&& g2.transitions@.len() == g.transitions@.len()
        &&& g2.merge_counter == g.merge_counter
        &&& forall|p: int| 0 <= p < g2.places@.len() ==> (#[trigger] g2.places@[p]).removed == (g.places@[p].removed || holds(ps, p))
        &&& forall|t: int|
            0 <= t < g2.transitions@.len() ==> (#[trigger] g2.transitions@[t]).removed == (g.transitions@[t].removed
                || holds(ts, t))
        &&& visited2 == Seq::new(visited.len(), |p: int| visited[p] || holds(ps, p))
        &&& match step {
            Some(ReductionStep::LoopRemoved { removed_places, removed_transitions }) => {
                &&& removed_places@ == place_originals(g, ps)
                &&& removed_transitions@ == transition_originals(g, ts)
            },
            Some(_) => false,
            None => place_originals(g, ps).len() == 0 && transition_originals(g, ts).len() == 0,
        }
    } else {
        &&& g2 == g
        &&& visited2 == visited
        &&& step is None
    }
}

/// The steps present among `rs`, in order.
pub open spec fn present_steps(rs: Seq<Option<ReductionStep>>) -> Seq<ReductionStep>
    decreases rs.len(),
{
    if rs.len() == 0 {
        Seq::empty()
    } else {
        let prev = present_steps(rs.drop_last());
        match rs.last() {
            Some(st) => prev.push(st),
            None => prev,
        }
    }
}

/// Whether the graphs `gs`, handled places `vs` and results `rs` are a run
/// of loop removal from places `0` to `n - 1` in turn, starting with no
/// place handled: each stage is what removing the loop through its place
/// gives.
pub open spec fn loop_removal_run(
    gs: Seq<ReductionGraph>,
    vs: Seq<Seq<bool>>,
    rs: Seq<Option<ReductionStep>>,
    n: nat,
) -> bool {
    &&& gs.len() == n + 1
    &&& vs.len() == n + 1
    &&& rs.len() == n
    &&& vs[0] == Seq::new(gs[0].places@.len(), |p: int| false)
    &&& forall|i: int| #![trigger rs[i]] 0 <= i < n ==> loop_removed_from(gs[i], vs[i], i, gs[i + 1], vs[i + 1], rs[i])
}

impl ReductionGraph {
    /// Whether every place removed here but present in `old` held no token
    /// and stood for no resource.
    pub open spec fn removed_only_empty_places(&self, old: ReductionGraph) -> bool {
        forall|p: int|
            0 <= p < old.places@.len() && !old.places@[p].removed && (#[trigger] self.places@[p]).removed
                ==> old.places@[p].place.tokens == 0 && !is_resource(old.places@[p].place.place_type)
    }

    /// Follows the unique successors from place `start` and returns the
    /// places and transitions of the simple loop back to `start`, if every
    /// place on it is present, no resource, and has exactly one incoming and
    /// one outgoing transition, and every transition on it is present with
    /// exactly one input and one output.
    fn find_simple_loop(&self, start: usize) -> (r: Option<(Vec<usize>, Vec<usize>)>)
        requires
            self.wf(),
            start < self.places@.len(),
        ensures
            match r {
                Some((ps, ts)) => simple_loop(*self, start as int) == Some((ps@, ts@)),
                None => simple_loop(*self, start as int) is None,
            },
            match r {
                Some((ps, ts)) => {
                    &&& ps@.len() > 0
                    &&& ps@[0] == start
                    &&& forall|k: int|
                        0 <= k < ps@.len() ==> (#[trigger] ps@[k]) < self.places@.len() && !self.places@[ps@[k] as int].removed
                            && !is_resource(self.places@[ps@[k] as int].place.place_type)
                    &&& forall|k: int|
                        0 <= k < ts@.len() ==> (#[trigger] ts@[k]) < self.transitions@.len()
                },
                None => true,
            },
    {
        let np = self.places.len();
        let mut cycle_places: Vec<usize> = Vec::new();
        let mut cycle_transitions: Vec<usize> = Vec::new();
        let mut current = start;
        let mut local_visited = falses(np);
        if self.places[start].removed || matches!(self.places[start].place.place_type, PlaceType::Resource) {
            return None;
        }
        assert(local_visited@ =~= Seq::new(np as nat, |i: int| false));
        assert(cycle_places@ =~= Seq::<usize>::empty());
        assert(cycle_transitions@ =~= Seq::<usize>::empty());
        loop
            invariant
                simple_loop(*self, start as int) == walk(
                    *self,
                    start as int,
                    current as int,
                    local_visited@,
                    cycle_places@,
                    cycle_transitions@,
                ),
                self.wf(),
                np == self.places@.len(),
                start < np,
                current < np,
                local_visited@.len() == np,
                !self.places@[current as int].removed,
                !is_resource(self.places@[current as int].place.place_type),
                cycle_places@.len() == 0 ==> current == start,
                cycle_places@.len() > 0 ==> cycle_places@[0] == start,
                forall|k: int|
                    0 <= k < cycle_places@.len() ==> (#[trigger] cycle_places@[k]) < np
                        && !self.places@[cycle_places@[k] as int].removed
                        && !is_resource(self.places@[cycle_places@[k] as int].place.place_type),
                forall|k: int| 0 <= k < cycle_transitions@.len() ==> (#[trigger] cycle_transitions@[k]) < self.transitions@.len(),
            decreases unvisited(local_visited@),
        {
            if local_visited[current] {
                return None;
            }
            proof {
                lemma_unvisited_mark(local_visited@, current as int);
            }
            local_visited.set(current, true);
            if self.places[current].outgoing.len() == 0 {
                return None;
            }
            let t = self.places[current].outgoing[0];
            assert(self.places@[current as int].outgoing@[0] < self.transitions@.len());
            if self.transitions[t].removed {
                return None;
            }
            if self.transitions[t].inputs.len() != 1 || self.transitions[t].outputs.len() != 1 {
                return None;
            }
            let next = self.transitions[t].outputs[0].0;
            assert(self.transitions@[t as int].outputs@[0].0 < np);
            if self.places[next].removed || matches!(self.places[next].place.place_type, PlaceType::Resource) {
                return None;
            }
            if self.places[next].incoming.len() != 1 || self.places[next].outgoing.len() != 1 {
                return None;
            }
            cycle_places.push(current);
            cycle_transitions.push(t);
            if next == start {
                return Some((cycle_places, cycle_transitions));
            }
            current = next;
        }
    }
}


impl ReductionGraph {
    /// Removes every simple loop of places that hold no token and stand for
    /// no resource, together with its transitions, and reports each removal
    /// with the original nodes it stood for.
    pub fn remove_simple_loops(&mut self) -> (steps: Vec<ReductionStep>)
        requires
            old(self).wf(),
        ensures
            final(self).wf(),
            final(self).keeps_nodes(*old(self)),
            final(self).transitions@.len() == old(self).transitions@.len(),
            final(self).removed_only_empty_places(*old(self)),
            final(self).merge_counter == old(self).merge_counter,
            forall|k: int| 0 <= k < steps@.len() ==> (#[trigger] steps@[k]) is LoopRemoved,
            exists|gs: Seq<ReductionGraph>, vs: Seq<Seq<bool>>, rs: Seq<Option<ReductionStep>>|
                loop_removal_run(gs, vs, rs, old(self).places@.len()) && gs[0] == *old(self)
                    && gs.last() == *final(self) && steps@ == present_steps(rs),
    {
        let ghost g0 = *self;
        let mut steps: Vec<ReductionStep> = Vec::new();
        let np = self.places.len();
        let mut visited = falses(np);
        let ghost mut gs: Seq<ReductionGraph> = seq![*self];
        let ghost mut vs: Seq<Seq<bool>> = seq![visited@];
        let ghost mut rs: Seq<Option<ReductionStep>> = Seq::empty();
        assert(visited@ =~= Seq::new(np as nat, |p: int| false));
        for start in 0..np
            invariant
                loop_removal_run(gs, vs, rs, start as nat),
                gs[0] == g0,
                gs.last() == *self,
                vs.last() == visited@,
                steps@ == present_steps(rs),
                np == self.places@.len(),
                visited@.len() == np,
                self.wf(),
                self.keeps_nodes(g0),
                self.transitions@.len() == g0.transitions@.len(),
                self.removed_only_empty_places(g0),
                self.merge_counter == g0.merge_counter,
                forall|k: int| 0 <= k < steps@.len() ==> (#[trigger] steps@[k]) is LoopRemoved,
        {
            let ghost before = *self;
            let step = self.remove_loop_from(start, &mut visited);
            proof {
                assert forall|p: int|
                    0 <= p < g0.places@.len() && !g0.places@[p].removed && (#[trigger] self.places@[p]).removed
                        implies g0.places@[p].place.tokens == 0 && !is_resource(g0.places@[p].place.place_type) by {
                    if !before.places@[p].removed {
                        assert(before.places@[p].place == g0.places@[p].place);
                    }
                }
            }
            let ghost rs0 = rs;
            proof {
                gs = gs.push(*self);
                vs = vs.push(visited@);
                rs = rs.push(step);
                assert(rs.drop_last() == rs0);
                assert forall|i: int| #![trigger rs[i]] 0 <= i < start + 1 implies loop_removed_from(
                    gs[i],
                    vs[i],
                    i,
                    gs[i + 1],
                    vs[i + 1],
                    rs[i],
                ) by {
                    if i < start {
                        assert(rs0[i] == rs[i]);
                    }
                }
            }
            match step {
                Some(st) => steps.push(st),
                None => {},
            }
        }
        steps
    }

    /// Removes the simple loop through place `start`, if there is one whose
    /// places are unvisited, hold no token and stand for no resource, and
    /// marks its places visited.
    fn remove_loop_from(&mut self, start: usize, visited: &mut Vec<bool>) -> (step: Option<ReductionStep>)
        requires
            old(self).wf(),
            start < old(self).places@.len(),
            old(visited)@.len() == old(self).places@.len(),
        ensures
            loop_removed_from(*old(self), old(visited)@, start as int, *final(self), final(visited)@, step),
            final(self).wf(),
            final(self).keeps_nodes(*old(self)),
            final(self).transitions@.len() == old(self).transitions@.len(),
            final(self).removed_only_empty_places(*old(self)),
            final(self).merge_counter == old(self).merge_counter,
            final(visited)@.len() == old(visited)@.len(),
            match step {
                Some(st) => st is LoopRemoved,
                None => true,
            },
    {
        let np = self.places.len();
        if visited[start] || self.places[start].removed
            || matches!(self.places[start].place.place_type, PlaceType::Resource)
            || self.places[start].outgoing.len() != 1 || self.places[start].incoming.len() != 1 {
            return None;
        }
        let ghost g0 = *self;
        let ghost v0 = visited@;
        let found = self.find_simple_loop(start);
        let (cycle_places, cycle_transitions) = match found {
            Some(c) => c,
            None => { return None; },
        };
        let mut all_zero = true;
        for k in 0..cycle_places.len()
            invariant
                np == self.places@.len(),
                forall|j: int| 0 <= j < cycle_places@.len() ==> (#[trigger] cycle_places@[j]) < np,
                all_zero ==> forall|j: int| 0 <= j < k ==> self.places@[#[trigger] cycle_places@[j] as int].place.tokens == 0,
                !all_zero ==> exists|j: int| 0 <= j < cycle_places@.len() && self.places@[#[trigger] cycle_places@[j] as int].place.tokens != 0,
        {
            if self.places[cycle_places[k]].place.tokens != 0 {
                all_zero = false;
            }
        }
        if !all_zero {
            return None;
        }
        assert(loop_removable(g0, v0, start as int));
        let mut removed_places: Vec<PlaceId> = Vec::new();
        for k in 0..cycle_places.len()
            invariant
                np == self.places@.len(),
                *self == g0,
                visited@.len() == np,
                v0.len() == np,
                forall|j: int| 0 <= j < cycle_places@.len() ==> (#[trigger] cycle_places@[j]) < np,
                removed_places@ == place_originals(g0, cycle_places@.take(k as int)),
                forall|q: int| 0 <= q < np ==> #[trigger] visited@[q] == (v0[q] || holds(cycle_places@.take(k as int), q)),
        {
            let p = cycle_places[k];
            let ghost vb = visited@;
            visited.set(p, true);
            append_copies(&mut removed_places, &self.places[p].originals);
            proof {
                let pk = cycle_places@.take(k + 1);
                assert(pk.drop_last() == cycle_places@.take(k as int));
                assert(pk.last() == p);
                assert forall|q: int| 0 <= q < np implies #[trigger] visited@[q] == (v0[q] || holds(pk, q)) by {
                    if holds(pk, q) && !holds(cycle_places@.take(k as int), q) {
                        let j = choose|j: int| 0 <= j < pk.len() && pk[j] == q;
                        assert(j == k);
                    }
                    if holds(cycle_places@.take(k as int), q) {
                        let j = choose|j: int| 0 <= j < k && cycle_places@.take(k as int)[j] == q;
                        assert(pk[j] == q);
                    }
                    if q == p {
                        assert(pk[k as int] == q);
                    }
                }
            }
        }
        let mut removed_transitions: Vec<TransitionId> = Vec::new();
        for k in 0..cycle_transitions.len()
            invariant
                *self == g0,
                forall|j: int| 0 <= j < cycle_transitions@.len() ==> (#[trigger] cycle_transitions@[j]) < self.transitions@.len(),
                removed_transitions@ == transition_originals(g0, cycle_transitions@.take(k as int)),
        {
            let t = cycle_transitions[k];
            append_copies(&mut removed_transitions, &self.transitions[t].originals);
            proof {
                let tk = cycle_transitions@.take(k + 1);
                assert(tk.drop_last() == cycle_transitions@.take(k as int));
                assert(tk.last() == t);
            }
        }
        assert(cycle_places@.take(cycle_places@.len() as int) == cycle_places@);
        assert(cycle_transitions@.take(cycle_transitions@.len() as int) == cycle_transitions@);
        let ghost g1 = *self;
        for k in 0..cycle_transitions.len()
            invariant
                self.wf(),
                self.merge_counter == g0.merge_counter,
                self.keeps_nodes(g1),
                self.transitions@.len() == g1.transitions@.len(),
                forall|p: int| 0 <= p < self.places@.len() ==> (#[trigger] self.places@[p]).removed
                    == g1.places@[p].removed,
                forall|t: int| 0 <= t < self.transitions@.len() ==> (#[trigger] self.transitions@[t]).removed
                    == (g1.transitions@[t].removed || holds(cycle_transitions@.take(k as int), t)),
        {
            let ghost before = *self;
            self.remove_transition(cycle_transitions[k]);
            proof {
                let tk = cycle_transitions@.take(k + 1);
                assert forall|t: int| 0 <= t < self.transitions@.len() implies (#[trigger] self.transitions@[t]).removed
                    == (g1.transitions@[t].removed || holds(tk, t)) by {
                    assert(before.transitions@[t].removed == (g1.transitions@[t].removed || holds(cycle_transitions@.take(k as int), t)));
                    if holds(tk, t) && !holds(cycle_transitions@.take(k as int), t) {
                        let j = choose|j: int| 0 <= j < tk.len() && tk[j] == t;
                        assert(j == k);
                    }
                    if holds(cycle_transitions@.take(k as int), t) {
                        let j = choose|j: int| 0 <= j < k && cycle_transitions@.take(k as int)[j] == t;
                        assert(tk[j] == t);
                    }
                    if t == cycle_transitions@[k as int] {
                        assert(tk[k as int] == t);
                    }
                }
            }
        }
        let ghost g2 = *self;
        for k in 0..cycle_places.len()
            invariant
                self.wf(),
                self.merge_counter == g0.merge_counter,
                self.keeps_nodes(g2),
                self.transitions@.len() == g2.transitions@.len(),
                np == self.places@.len(),
                forall|j: int| 0 <= j < cycle_places@.len() ==> (#[trigger] cycle_places@[j]) < np
                    && g2.places@[cycle_places@[j] as int].place.tokens == 0
                    && !is_resource(g2.places@[cycle_places@[j] as int].place.place_type),
                forall|p: int|
                    0 <= p < np && !g2.places@[p].removed && (#[trigger] self.places@[p]).removed
                        ==> exists|j: int| 0 <= j < k && cycle_places@[j] == p,
                forall|p: int| 0 <= p < np ==> (#[trigger] self.places@[p]).removed
                    == (g2.places@[p].removed || holds(cycle_places@.take(k as int), p)),
                forall|t: int| 0 <= t < self.transitions@.len() ==> (#[trigger] self.transitions@[t]).removed
                    == g2.transitions@[t].removed,
        {
            let ghost before = *self;
            self.remove_place(cycle_places[k]);
            proof {
                let pk = cycle_places@.take(k + 1);
                assert forall|p: int|
                    0 <= p < np && !g2.places@[p].removed && (#[trigger] self.places@[p]).removed
                        implies exists|j: int| 0 <= j < k + 1 && cycle_places@[j] == p by {
                    if !before.places@[p].removed {
                        assert(cycle_places@[k as int] == p);
                    }
                }
                assert forall|p: int| 0 <= p < np implies (#[trigger] self.places@[p]).removed
                    == (g2.places@[p].removed || holds(pk, p)) by {
                    assert(before.places@[p].removed == (g2.places@[p].removed || holds(cycle_places@.take(k as int), p)));
                    if holds(pk, p) && !holds(cycle_places@.take(k as int), p) {
                        let j = choose|j: int| 0 <= j < pk.len() && pk[j] == p;
                        assert(j == k);
                    }
                    if holds(cycle_places@.take(k as int), p) {
                        let j = choose|j: int| 0 <= j < k && cycle_places@.take(k as int)[j] == p;
                        assert(pk[j] == p);
                    }
                    if p == cycle_places@[k as int] {
                        assert(pk[k as int] == p);
                    }
                }
            }
        }
        self.clean_adjacency();
        proof {
            assert forall|p: int|
                0 <= p < g0.places@.len() && !g0.places@[p].removed && (#[trigger] self.places@[p]).removed
                    implies g0.places@[p].place.tokens == 0 && !is_resource(g0.places@[p].place.place_type) by {
                if !g2.places@[p].removed {
                    let j = choose|j: int| 0 <= j < cycle_places@.len() && cycle_places@[j] == p;
                    assert(g2.places@[cycle_places@[j] as int].place.tokens == 0);
                }
            }
            assert(visited@ =~= Seq::new(v0.len(), |p: int| v0[p] || holds(cycle_places@, p)));
            assert forall|p: int| 0 <= p < self.places@.len() implies (#[trigger] self.places@[p]).removed
                == (g0.places@[p].removed || holds(cycle_places@, p)) by {
                assert(g2.places@[p].removed == g1.places@[p].removed);
            }
            assert forall|t: int| 0 <= t < self.transitions@.len() implies (#[trigger] self.transitions@[t]).removed
                == (g0.transitions@[t].removed || holds(cycle_transitions@, t)) by {
                assert(g2.transitions@[t].removed == (g1.transitions@[t].removed || holds(cycle_transitions@, t)));
            }
        }
        if removed_places.len() > 0 || removed_transitions.len() > 0 {
            Some(ReductionStep::LoopRemoved { removed_places, removed_transitions })
        } else {
            None
        }
    }
}

} // verus!
