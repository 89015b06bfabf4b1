//! Reachability graphs of P/T nets with per-state place snapshots, per-edge
//! token changes and arcs, dead states and failed firings; optionally with
//! sleep-set partial-order reduction.
use std::collections::VecDeque;
use vstd::prelude::*;

use crate::analysis::state_space::{
    copy_ids, dead, discovered, distinct, distinct_markings, explored, failed_ok, find_marking, id_views,
    lists, search, sound, step_ok, views, Failed, Search, Step,
};
use crate::bug::{PlaceType, TransitionType};
use crate::ids::{PlaceId, TransitionId};
use crate::pt::{arc_of, arc_of_dir, sorted_selection, ArcDir, Marking, PtArc, PtExecutionError, PtNet};
use crate::text::string_of;

verus! {

/// One place as seen in one state.
#[derive(Debug)]
pub struct StatePlaceSnapshot {
    pub place: PlaceId,
    pub name: String,
    pub place_type: PlaceType,
    pub span: String,
    pub tokens: usize,
    pub capacity: usize,
}

/// The token count of one place before and after a firing.
#[derive(Debug)]
pub struct TokenChange {
    pub place: PlaceId,
    pub name: String,
    pub before: usize,
    pub after: usize,
    pub delta: i64,
}

/// An arc of a fired transition, as shown on its edge.
#[derive(Debug)]
pub struct ArcSnapshot {
    pub place: PlaceId,
    pub name: String,
    pub kind: ArcDir,
    pub weight: usize,
}

/// A transition as shown on a state or an edge.
#[derive(Debug)]
pub struct TransitionSummary {
    pub id: TransitionId,
    pub name: String,
    pub transition_type: TransitionType,
}

/// A state: its index, its marking, the snapshots of its places and its
/// enabled transitions.
#[derive(Debug)]
pub struct StateNode {
    pub index: usize,
    pub marking: Marking,
    pub places: Vec<StatePlaceSnapshot>,
    pub enabled: Vec<TransitionSummary>,
}

/// An edge: the fired transition, the token changes and the arcs involved.
#[derive(Debug)]
pub struct StateEdge {
    pub transition: TransitionSummary,
    pub changes: Vec<TokenChange>,
    pub arcs: Vec<ArcSnapshot>,
}

/// An enabled transition whose firing failed.
#[derive(Debug)]
pub struct TransitionFailure {
    pub source: usize,
    pub transition: TransitionId,
    pub transition_name: String,
    pub reason: String,
}

/// The sizes of a state graph.
#[derive(Clone, Copy, Debug, PartialEq, Eq, Structural)]
pub struct StateGraphStats {
    pub state_count: usize,
    pub edge_count: usize,
    pub deadlock_count: usize,
    pub truncated: bool,
}

/// How a state graph is explored.
#[derive(Clone, Copy, Debug, PartialEq, Eq, Structural)]
pub struct StateGraphConfig {
    /// The largest number of states kept; `None` for no limit.
    pub state_limit: Option<usize>,
    /// Whether the snapshots of a state include its empty places.
    pub include_zero_tokens: bool,
    /// Whether sleep-set partial-order reduction skips redundant
    /// interleavings.
    pub use_por: bool,
}

impl Default for StateGraphConfig {
    fn default() -> (r: Self)
        ensures
            r.state_limit == Some(50_000usize),
            !r.include_zero_tokens,
            !r.use_por,
    {
        StateGraphConfig { state_limit: Some(50_000), include_zero_tokens: false, use_por: false }
    }
}

/// The reachability graph of a P/T net: states, edges as (source, target,
/// edge), the initial state, the dead states, whether the state limit cut
/// the exploration short, the failed firings, and the net.
#[derive(Debug)]
pub struct StateGraph {
    pub states: Vec<StateNode>,
    pub edges: Vec<(usize, usize, StateEdge)>,
    pub initial: usize,
    pub deadlocks: Vec<usize>,
    pub truncated: bool,
    pub failures: Vec<TransitionFailure>,
    pub net: Option<PtNet>,
}

/// A reference to an edge leaving a state: its index, its target and its
/// contents.
pub struct EdgeRef<'a> {
    pub id: usize,
    pub target: usize,
    pub weight: &'a StateEdge,
}

impl<'a> EdgeRef<'a> {
    /// The index of the edge.
    pub fn id(&self) -> (r: usize)
        ensures
            r == self.id,
    {
        self.id
    }

    /// The target state of the edge.
    pub fn target(&self) -> (r: usize)
        ensures
            r == self.target,
    {
        self.target
    }

    /// The contents of the edge.
    pub fn weight(&self) -> (r: &StateEdge)
        ensures
            r == self.weight,
    {
        self.weight
    }
}

/// The capacity shown for a place: its capacity, or `usize::MAX` without one.
pub open spec fn shown_capacity(c: Option<usize>) -> usize {
    match c {
        Some(x) => x,
        None => usize::MAX,
    }
}

/// The snapshots of the first `n` places of `net` in marking `m`, skipping
/// empty places unless `zero`.
pub open spec fn node_places(net: PtNet, m: Seq<usize>, zero: bool, n: nat) -> Seq<StatePlaceSnapshot>
    decreases n,
{
    if n == 0 {
        Seq::empty()
    } else {
        let prev = node_places(net, m, zero, (n - 1) as nat);
        let p = n - 1;
        let place = net.places@[p];
        if m[p] > 0 || zero {
            prev.push(
                StatePlaceSnapshot {
                    place: PlaceId(p as usize),
                    name: place.name,
                    place_type: place.place_type,
                    span: place.span,
                    tokens: m[p],
                    capacity: shown_capacity(place.capacity),
                },
            )
        } else {
            prev
        }
    }
}

/// Whether `s` shows transition `t` of `net`.
pub open spec fn summary_ok(net: PtNet, t: TransitionId, s: TransitionSummary) -> bool {
    &&& s.id == t
    &&& t.0 < net.transitions@.len()
    &&& s.name == net.transitions@[t.0 as int].name
    &&& s.transition_type.same_as(net.transitions@[t.0 as int].transition_type)
}

/// The token changes between `before` and `after` on the first `n` places of
/// `net`, in place order.
pub open spec fn change_list(net: PtNet, before: Seq<usize>, after: Seq<usize>, n: nat) -> Seq<TokenChange>
    decreases n,
{
    if n == 0 {
        Seq::empty()
    } else {
        let prev = change_list(net, before, after, (n - 1) as nat);
        let p = n - 1;
        if before[p] != after[p] {
            prev.push(
                TokenChange {
                    place: PlaceId(p as usize),
                    name: net.places@[p].name,
                    before: before[p],
                    after: after[p],
                    delta: (after[p] as i64).wrapping_sub(before[p] as i64),
                },
            )
        } else {
            prev
        }
    }
}

/// The snapshots of the arcs of `arcs` other than read arcs, in order.
pub open spec fn arc_snapshots(net: PtNet, arcs: Seq<PtArc>) -> Seq<ArcSnapshot>
    decreases arcs.len(),
{
    if arcs.len() == 0 {
        Seq::empty()
    } else {
        let prev = arc_snapshots(net, arcs.drop_last());
        let a = arcs.last();
        if a.direction == ArcDir::Read {
            prev
        } else {
            prev.push(
                ArcSnapshot {
                    place: a.place,
                    name: net.places@[a.place.0 as int].name,
                    kind: a.direction,
                    weight: a.weight,
                },
            )
        }
    }
}

/// Whether `e` shows the firing of `t` from `before` to `after` in `net`.
pub open spec fn edge_shows(net: PtNet, t: TransitionId, before: Seq<usize>, after: Seq<usize>, e: StateEdge) -> bool {
    &&& summary_ok(net, t, e.transition)
    &&& e.changes@ == change_list(net, before, after, net.places@.len())
    &&& e.arcs@ == arc_snapshots(net, net.arcs@.filter(arc_of(t)))
}

impl StateGraph {
    /// The markings of the states, by state index.
    pub open spec fn markings(&self) -> Seq<Seq<usize>> {
        Seq::new(self.states@.len(), |i: int| self.states@[i].marking@)
    }

    /// The enabled transitions of the states, by state index.
    pub open spec fn enabled_ids(&self) -> Seq<Seq<TransitionId>> {
        Seq::new(
            self.states@.len(),
            |i: int| Seq::new(self.states@[i].enabled@.len(), |j: int| self.states@[i].enabled@[j].id),
        )
    }

    /// The firings of the edges, by edge index.
    pub open spec fn steps(&self) -> Seq<Step> {
        Seq::new(
            self.edges@.len(),
            |k: int|
                Step {
                    source: self.edges@[k].0,
                    target: self.edges@[k].1,
                    transition: self.edges@[k].2.transition.id,
                },
        )
    }

    /// The failed firings with the errors of `net`, by failure index.
    pub open spec fn failed(&self, net: PtNet) -> Seq<Failed> {
        Seq::new(
            self.failures@.len(),
            |k: int|
                Failed {
                    source: self.failures@[k].source,
                    transition: self.failures@[k].transition,
                    error: match net.fire_result(
                        self.markings()[self.failures@[k].source as int],
                        self.failures@[k].transition.0,
                    ) {
                        Err(e) => e,
                        Ok(_) => PtExecutionError::NotEnabled,
                    },
                },
        )
    }

    /// Whether state `i` carries its index, its place snapshots and the
    /// summaries of its enabled transitions.
    pub open spec fn node_ok(&self, net: PtNet, zero: bool, i: int) -> bool {
        let s = self.states@[i];
        &&& s.index == i
        &&& s.places@ == node_places(net, s.marking@, zero, net.places@.len())
        &&& forall|j: int| 0 <= j < s.enabled@.len() ==> summary_ok(net, (#[trigger] s.enabled@[j]).id, s.enabled@[j])
    }

    /// Whether edge `k` shows its firing, and failure `k` names its
    /// transition and its reason.
    pub open spec fn details_ok(&self, net: PtNet) -> bool {
        let ms = self.markings();
        &&& forall|k: int|
            0 <= k < self.edges@.len() ==> edge_shows(
                net,
                (#[trigger] self.edges@[k]).2.transition.id,
                ms[self.edges@[k].0 as int],
                ms[self.edges@[k].1 as int],
                self.edges@[k].2,
            )
        &&& forall|k: int|
            0 <= k < self.failures@.len() ==> (#[trigger] self.failures@[k]).transition_name
                == net.transitions@[self.failures@[k].transition.0 as int].name
                && self.failures@[k].reason@ == "not enabled"@
    }

    /// Whether the graph is the exploration of `net` from `m0` with at most
    /// `max_states` states (see `explored`), with snapshots that skip empty
    /// places unless `zero`, and a copy of `net`.
    pub open spec fn builds(&self, net: PtNet, m0: Seq<usize>, max_states: nat, zero: bool) -> bool {
        &&& self.initial == 0
        &&& explored(
            net,
            m0,
            max_states,
            self.markings(),
            self.enabled_ids(),
            self.steps(),
            self.deadlocks@,
            self.failed(net),
            self.truncated,
        )
        &&& forall|i: int| 0 <= i < self.states@.len() ==> #[trigger] self.node_ok(net, zero, i)
        &&& self.details_ok(net)
        &&& self.net matches Some(n) && n.same_as(net)
    }
}

/// The largest number of states an exploration with limit `limit` keeps: the
/// limit, at least the initial state, and `usize::MAX` without a limit.
pub open spec fn effective_limit(limit: Option<usize>) -> nat {
    match limit {
        Some(l) => if l == 0 {
            1
        } else {
            l as nat
        },
        None => usize::MAX as nat,
    }
}

/// The snapshots of the places of `net` in `m`, skipping empty places unless
/// `zero`.
fn node_places_of(net: &PtNet, m: &Marking, zero: bool) -> (r: Vec<StatePlaceSnapshot>)
    requires
        m@.len() == net.places@.len(),
    ensures
        r@ == node_places(*net, m@, zero, net.places@.len()),
{
    let mut r: Vec<StatePlaceSnapshot> = Vec::new();
    for p in 0..net.places.len()
        invariant
            m@.len() == net.places@.len(),
            r@ == node_places(*net, m@, zero, p as nat),
    {
        let tokens = m.0[p];
        if tokens > 0 || zero {
            let place = &net.places[p];
            let capacity = match place.capacity {
                Some(c) => c,
                None => usize::MAX,
            };
            r.push(
                StatePlaceSnapshot {
                    place: PlaceId(p),
                    name: place.name.clone(),
                    place_type: place.place_type.clone(),
                    span: place.span.clone(),
                    tokens,
                    capacity,
                },
            );
        }
    }
    r
}

/// The summary of transition `t` of `net`.
fn summary_of(net: &PtNet, t: TransitionId) -> (r: TransitionSummary)
    requires
        t.0 < net.transitions@.len(),
    ensures
        summary_ok(*net, t, r),
{
    let tr = &net.transitions[t.0];
    TransitionSummary { id: t, name: tr.name.clone(), transition_type: tr.transition_type.clone() }
}

/// The summaries of the transitions of `ids`.
fn summaries_of(net: &PtNet, ids: &Vec<TransitionId>) -> (r: Vec<TransitionSummary>)
    requires
        forall|j: int| 0 <= j < ids@.len() ==> (#[trigger] ids@[j]).0 < net.transitions@.len(),
    ensures
        r@.len() == ids@.len(),
        forall|j: int| 0 <= j < r@.len() ==> (#[trigger] r@[j]).id == ids@[j] && summary_ok(*net, ids@[j], r@[j]),
{
    let mut r: Vec<TransitionSummary> = Vec::new();
    for j in 0..ids.len()
        invariant
            forall|q: int| 0 <= q < ids@.len() ==> (#[trigger] ids@[q]).0 < net.transitions@.len(),
            r@.len() == j,
            forall|q: int| 0 <= q < j ==> (#[trigger] r@[q]).id == ids@[q] && summary_ok(*net, ids@[q], r@[q]),
    {
        r.push(summary_of(net, ids[j]));
    }
    r
}

impl TokenChange {
    /// The change of `place` from `before` to `after`, if there is one.
    fn new(place: PlaceId, name: String, before: usize, after: usize) -> (r: Option<Self>)
        ensures
            match r {
                Some(c) => before != after && c == (TokenChange {
                    place,
                    name,
                    before,
                    after,
                    delta: (after as i64).wrapping_sub(before as i64),
                }),
                None => before == after,
            },
    {
        if before == after {
            return None;
        }
        Some(TokenChange { place, name, before, after, delta: (after as i64).wrapping_sub(before as i64) })
    }
}

/// The edge showing the firing of `t` from `before` to `after`.
fn state_edge(net: &PtNet, t: TransitionId, before: &Marking, after: &Marking) -> (r: StateEdge)
    requires
        net.wf(),
        t.0 < net.transitions@.len(),
        before@.len() == net.places@.len(),
        after@.len() == net.places@.len(),
    ensures
        edge_shows(*net, t, before@, after@, r),
{
    let transition = summary_of(net, t);
    let mut changes: Vec<TokenChange> = Vec::new();
    for p in 0..net.places.len()
        invariant
            before@.len() == net.places@.len(),
            after@.len() == net.places@.len(),
            changes@ == change_list(*net, before@, after@, p as nat),
    {
        if let Some(c) = TokenChange::new(PlaceId(p), net.places[p].name.clone(), before.0[p], after.0[p]) {
            changes.push(c);
        }
    }
    let own = net.arcs_for(t);
    let mut arcs: Vec<ArcSnapshot> = Vec::new();
    for k in 0..own.len()
        invariant
            net.wf(),
            own@ == net.arcs@.filter(arc_of(t)),
            arcs@ == arc_snapshots(*net, own@.take(k as int)),
    {
        let a = own[k];
        proof {
            assert(own@.take(k + 1).drop_last() == own@.take(k as int));
            assert(own@.take(k + 1).last() == a);
            assert(own@[k as int] == a);
            assert(own@.contains(a));
            assert(net.arcs@.filter(arc_of(t)).contains(a));
            net.arcs@.lemma_filter_contains_rev(arc_of(t), a);
            let j = choose|j: int| 0 <= j < net.arcs@.len() && net.arcs@[j] == a;
            assert(a.place.0 < net.places@.len());
        }
        match a.direction {
            ArcDir::Read => {},
            _ => {
                arcs.push(
                    ArcSnapshot {
                        place: a.place,
                        name: net.places[a.place.0].name.clone(),
                        kind: a.direction,
                        weight: a.weight,
                    },
                );
            },
        }
    }
    assert(own@.take(own@.len() as int) == own@);
    StateEdge { transition, changes, arcs }
}

impl StateGraph {
    /// Builds the graph from the exploration `found` of `net`.
    fn assemble(
        net: &PtNet,
        found: crate::analysis::state_space::Search,
        zero: bool,
        Ghost(m0): Ghost<Seq<usize>>,
        Ghost(max): Ghost<nat>,
    ) -> (r: Self)
        requires
            net.wf(),
            sound(
                *net,
                m0,
                max,
                found.ms(),
                id_views(found.enabled@),
                found.steps@,
                found.blocked@,
                found.failures@,
                found.truncated,
            ),
        ensures
            r.initial == 0,
            r.markings() == found.ms(),
            r.enabled_ids() == id_views(found.enabled@),
            r.steps() == found.steps@,
            r.deadlocks@ == found.blocked@,
            r.failed(*net) == found.failures@,
            r.truncated == found.truncated,
            forall|i: int| 0 <= i < r.states@.len() ==> #[trigger] r.node_ok(*net, zero, i),
            r.details_ok(*net),
            r.net matches Some(n) && n.same_as(*net),
    {
        let ghost ms = found.ms();
        proof {
            assert forall|j: int, q: int|
                0 <= j < ms.len() && 0 <= q < found.enabled@[j]@.len() implies (#[trigger] found.enabled@[j]@[q]).0
                    < net.transitions@.len() by {
                assert(id_views(found.enabled@)[j] == found.enabled@[j]@);
                assert(sorted_selection(
                    id_views(found.enabled@)[j],
                    net.transitions@.len(),
                    net.enabled_pred(ms[j]),
                ));
            }
        }
        let n = found.markings.len();
        let mut states: Vec<StateNode> = Vec::new();
        for i in 0..n
            invariant
                n == found.markings@.len(),
                ms == found.ms(),
                found.enabled@.len() == n,
                forall|j: int| 0 <= j < n ==> (#[trigger] ms[j]).len() == net.places@.len(),
                forall|j: int, q: int|
                    0 <= j < n && 0 <= q < found.enabled@[j]@.len() ==> (#[trigger] found.enabled@[j]@[q]).0
                        < net.transitions@.len(),
                states@.len() == i,
                forall|j: int|
                    0 <= j < i ==> {
                        let st = #[trigger] states@[j];
                        &&& st.index == j
                        &&& st.marking@ == ms[j]
                        &&& st.places@ == node_places(*net, ms[j], zero, net.places@.len())
                        &&& st.enabled@.len() == found.enabled@[j]@.len()
                        &&& forall|q: int|
                            0 <= q < st.enabled@.len() ==> (#[trigger] st.enabled@[q]).id
                                == found.enabled@[j]@[q] && summary_ok(*net, found.enabled@[j]@[q], st.enabled@[q])
                    },
        {
            assert(ms[i as int] == found.markings@[i as int]@);
            let places = node_places_of(net, &found.markings[i], zero);
            let enabled = summaries_of(net, &found.enabled[i]);
            states.push(StateNode { index: i, marking: found.markings[i].clone(), places, enabled });
        }
        let mut edges: Vec<(usize, usize, StateEdge)> = Vec::new();
        for k in 0..found.steps.len()
            invariant
                net.wf(),
                n == found.markings@.len(),
                ms == found.ms(),
                forall|j: int| 0 <= j < n ==> (#[trigger] ms[j]).len() == net.places@.len(),
                forall|j: int| 0 <= j < found.steps@.len() ==> step_ok(*net, ms, #[trigger] found.steps@[j]),
                edges@.len() == k,
                forall|j: int|
                    0 <= j < k ==> {
                        let e = #[trigger] edges@[j];
                        let st = found.steps@[j];
                        &&& e.0 == st.source
                        &&& e.1 == st.target
                        &&& e.2.transition.id == st.transition
                        &&& edge_shows(*net, st.transition, ms[st.source as int], ms[st.target as int], e.2)
                    },
        {
            let st = found.steps[k];
            assert(step_ok(*net, ms, found.steps@[k as int]));
            assert(ms[st.source as int] == found.markings@[st.source as int]@);
            assert(ms[st.target as int] == found.markings@[st.target as int]@);
            let e = state_edge(net, st.transition, &found.markings[st.source], &found.markings[st.target]);
            edges.push((st.source, st.target, e));
        }
        let mut failures: Vec<TransitionFailure> = Vec::new();
        for k in 0..found.failures.len()
            invariant
                forall|j: int| 0 <= j < found.failures@.len() ==> (#[trigger] found.failures@[j]).transition.0 < net.transitions@.len(),
                failures@.len() == k,
                forall|j: int|
                    0 <= j < k ==> {
                        let f = #[trigger] failures@[j];
                        let g = found.failures@[j];
                        &&& f.source == g.source
                        &&& f.transition == g.transition
                        &&& f.transition_name == net.transitions@[g.transition.0 as int].name
                        &&& f.reason@ == "not enabled"@
                    },
        {
            let f = found.failures[k];
            failures.push(
                TransitionFailure {
                    source: f.source,
                    transition: f.transition,
                    transition_name: net.transitions[f.transition.0].name.clone(),
                    reason: string_of("not enabled"),
                },
            );
        }
        let mut deadlocks: Vec<usize> = Vec::new();
        for k in 0..found.blocked.len()
            invariant
                deadlocks@ == found.blocked@.take(k as int),
        {
            deadlocks.push(found.blocked[k]);
            assert(found.blocked@.take(k + 1) == found.blocked@.take(k as int).push(found.blocked@[k as int]));
        }
        assert(found.blocked@.take(found.blocked@.len() as int) == found.blocked@);
        let g = StateGraph {
            states,
            edges,
            initial: 0,
            deadlocks,
            truncated: found.truncated,
            failures,
            net: Some(net.clone()),
        };
        proof {
            assert(g.markings() =~= ms);
            assert(g.steps() =~= found.steps@);
            assert(g.enabled_ids() =~= id_views(found.enabled@)) by {
                assert forall|i: int| 0 <= i < g.states@.len() implies g.enabled_ids()[i] =~= found.enabled@[i]@ by {}
            }
            assert(g.failed(*net) =~= found.failures@) by {
                assert forall|k: int| 0 <= k < g.failures@.len() implies g.failed(*net)[k] == found.failures@[k] by {
                    assert(failed_ok(*net, ms, found.failures@[k]));
                }
            }
        }
        g
    }
}

impl StateGraph {
    /// Explores breadth first from `initial_marking`, without reduction.
    fn with_config_standard(net: &PtNet, initial_marking: Marking, config: StateGraphConfig) -> (r: Self)
        requires
            net.wf(),
            initial_marking@.len() == net.places@.len(),
        ensures
            r.builds(
                *net,
                initial_marking@,
                effective_limit(config.state_limit),
                config.include_zero_tokens,
            ),
    {
        let limit: usize = match config.state_limit {
            Some(l) => if l == 0 {
                1
            } else {
                l
            },
            None => usize::MAX,
        };
        let found = search(net, &initial_marking, limit, false);
        let ghost fms = found.ms();
        let ghost fen = id_views(found.enabled@);
        let ghost fsteps = found.steps@;
        let ghost fblocked = found.blocked@;
        let ghost ffail = found.failures@;
        let ghost ftr = found.truncated;
        let g = Self::assemble(
            net,
            found,
            config.include_zero_tokens,
            Ghost(initial_marking@),
            Ghost(limit as nat),
        );
        assert(explored(*net, initial_marking@, limit as nat, fms, fen, fsteps, fblocked, ffail, ftr));
        g
    }

    /// The reachability graph of `net` from `initial_marking` with the
    /// default configuration.
    pub fn from_net(net: &PtNet, initial_marking: Marking) -> (r: Self)
        requires
            net.wf(),
            initial_marking@.len() == net.places@.len(),
        ensures
            r.builds(*net, initial_marking@, 50_000, false),
    {
        Self::with_config(net, initial_marking, StateGraphConfig::default())
    }

    /// The reachability graph of `net` from `initial_marking`, explored
    /// breadth first and keeping at most the configured number of states; with
    /// `use_por`, sleep sets skip firings that only reorder independent
    /// transitions.
    pub fn with_config(net: &PtNet, initial_marking: Marking, config: StateGraphConfig) -> (r: Self)
        requires
            net.wf(),
            initial_marking@.len() == net.places@.len(),
        ensures
            !config.use_por ==> r.builds(
                *net,
                initial_marking@,
                effective_limit(config.state_limit),
                config.include_zero_tokens,
            ),
            config.use_por ==> r.builds_reduced(
                *net,
                initial_marking@,
                effective_limit(config.state_limit),
                config.include_zero_tokens,
            ),
    {
        if config.use_por {
            Self::with_config_por(net, initial_marking, config)
        } else {
            Self::with_config_standard(net, initial_marking, config)
        }
    }

    /// The sizes of the graph.
    pub fn stats(&self) -> (r: StateGraphStats)
        ensures
            r.state_count == self.states@.len(),
            r.edge_count == self.edges@.len(),
            r.deadlock_count == self.deadlocks@.len(),
            r.truncated == self.truncated,
    {
        StateGraphStats {
            state_count: self.states.len(),
            edge_count: self.edges.len(),
            deadlock_count: self.deadlocks.len(),
            truncated: self.truncated,
        }
    }

    /// The state of index `index`.
    pub fn node(&self, index: usize) -> (r: &StateNode)
        requires
            index < self.states@.len(),
        ensures
            *r == self.states@[index as int],
    {
        &self.states[index]
    }

    /// Whether some state has marking `marking`.
    pub fn contains_marking(&self, marking: &Marking) -> (r: bool)
        ensures
            r == exists|i: int| 0 <= i < self.states@.len() && self.markings()[i] == marking@,
    {
        for i in 0..self.states.len()
            invariant
                forall|j: int| 0 <= j < i ==> self.markings()[j] != marking@,
        {
            if self.states[i].marking.same(marking) {
                assert(self.markings()[i as int] == marking@);
                return true;
            }
        }
        false
    }

    /// The indices of the states.
    pub fn node_indices(&self) -> (r: std::ops::Range<usize>)
        ensures
            r.start == 0,
            r.end == self.states@.len(),
    {
        0..self.states.len()
    }

    /// The number of states.
    pub fn node_count(&self) -> (r: usize)
        ensures
            r == self.states@.len(),
    {
        self.states.len()
    }

    /// The number of edges.
    pub fn edge_count(&self) -> (r: usize)
        ensures
            r == self.edges@.len(),
    {
        self.edges.len()
    }

    /// The edges leaving `node`, in order, with their indices and targets.
    pub fn edges(&self, node: usize) -> (r: Vec<EdgeRef<'_>>)
        ensures
            forall|i: int, j: int| 0 <= i < j < r@.len() ==> r@[i].id < r@[j].id,
            forall|i: int|
                0 <= i < r@.len() ==> (#[trigger] r@[i]).id < self.edges@.len() && self.edges@[r@[i].id as int].0
                    == node && r@[i].target == self.edges@[r@[i].id as int].1 && *r@[i].weight
                    == self.edges@[r@[i].id as int].2,
            forall|k: int|
                0 <= k < self.edges@.len() && #[trigger] self.edges@[k].0 == node ==> exists|i: int|
                    0 <= i < r@.len() && r@[i].id == k,
    {
        let mut r: Vec<EdgeRef<'_>> = Vec::new();
        for k in 0..self.edges.len()
            invariant
                forall|i: int, j: int| 0 <= i < j < r@.len() ==> r@[i].id < r@[j].id,
                forall|i: int|
                    0 <= i < r@.len() ==> (#[trigger] r@[i]).id < k && self.edges@[r@[i].id as int].0 == node
                        && r@[i].target == self.edges@[r@[i].id as int].1 && *r@[i].weight
                        == self.edges@[r@[i].id as int].2,
                forall|kk: int|
                    0 <= kk < k && #[trigger] self.edges@[kk].0 == node ==> exists|i: int|
                        0 <= i < r@.len() && r@[i].id == kk,
        {
            let ghost r0 = r@;
            if self.edges[k].0 == node {
                r.push(EdgeRef { id: k, target: self.edges[k].1, weight: &self.edges[k].2 });
            }
            proof {
                assert forall|kk: int|
                    0 <= kk < k + 1 && #[trigger] self.edges@[kk].0 == node implies exists|i: int|
                        0 <= i < r@.len() && r@[i].id == kk by {
                    if kk < k {
                        let i = choose|i: int| 0 <= i < r0.len() && r0[i].id == kk;
                        assert(r@[i] == r0[i]);
                    } else {
                        assert(r@[r@.len() - 1].id == k);
                    }
                }
            }
        }
        r
    }

    /// The contents of every edge, in order.
    pub fn edge_weights(&self) -> (r: Vec<&StateEdge>)
        ensures
            r@.len() == self.edges@.len(),
            forall|k: int| 0 <= k < r@.len() ==> *r@[k] == self.edges@[k].2,
    {
        let mut r: Vec<&StateEdge> = Vec::new();
        for k in 0..self.edges.len()
            invariant
                r@.len() == k,
                forall|j: int| 0 <= j < k ==> *r@[j] == self.edges@[j].2,
        {
            r.push(&self.edges[k].2);
        }
        r
    }

    /// The contents of edge `id`, if there is such an edge.
    pub fn edge_weight(&self, id: usize) -> (r: Option<&StateEdge>)
        ensures
            r == if id < self.edges@.len() {
                Some(&self.edges@[id as int].2)
            } else {
                None
            },
    {
        if id < self.edges.len() {
            Some(&self.edges[id].2)
        } else {
            None
        }
    }

    /// The places and weights of the input arcs of `transition`, in order;
    /// empty when the graph keeps no net.
    pub fn get_transition_resources(&self, transition_id: TransitionId) -> (r: Vec<(PlaceId, usize)>)
        ensures
            match self.net {
                Some(net) => {
                    let arcs = net.arcs@.filter(arc_of_dir(transition_id, ArcDir::Input));
                    &&& r@.len() == arcs.len()
                    &&& forall|k: int| 0 <= k < r@.len() ==> #[trigger] r@[k] == (arcs[k].place, arcs[k].weight)
                },
                None => r@.len() == 0,
            },
    {
        let mut r: Vec<(PlaceId, usize)> = Vec::new();
        match &self.net {
            Some(net) => {
                let arcs = net.arcs_of(transition_id, ArcDir::Input);
                for k in 0..arcs.len()
                    invariant
                        r@.len() == k,
                        forall|j: int| 0 <= j < k ==> #[trigger] r@[j] == (arcs@[j].place, arcs@[j].weight),
                {
                    r.push((arcs[k].place, arcs[k].weight));
                }
            },
            None => {},
        }
        r
    }
}

/// Whether transitions `t1` and `t2` differ and have no place in common.
pub open spec fn independent(net: PtNet, t1: TransitionId, t2: TransitionId) -> bool {
    &&& t1 != t2
    &&& forall|a: int, b: int|
        0 <= a < net.arcs@.len() && 0 <= b < net.arcs@.len() && net.arcs@[a].transition == t1
            && net.arcs@[b].transition == t2 ==> #[trigger] net.arcs@[a].place != #[trigger] net.arcs@[b].place
}

/// Whether transitions `t1` and `t2` differ and have no place in common.
fn transitions_are_independent(net: &PtNet, t1: TransitionId, t2: TransitionId) -> (r: bool)
    requires
        net.wf(),
    ensures
        r == independent(*net, t1, t2),
{
    if t1 == t2 {
        return false;
    }
    let n = net.places.len();
    let mut used: Vec<bool> = Vec::new();
    for p in 0..n
        invariant
            used@.len() == p,
            forall|q: int| 0 <= q < p ==> !used@[q],
    {
        used.push(false);
    }
    for k in 0..net.arcs.len()
        invariant
            net.wf(),
            n == net.places@.len(),
            used@.len() == n,
            forall|q: int|
                0 <= q < n ==> used@[q] == exists|a: int|
                    0 <= a < k && net.arcs@[a].transition == t1 && net.arcs@[a].place.0 == q,
    {
        let arc = net.arcs[k];
        if arc.transition == t1 {
            used.set(arc.place.0, true);
        }
        proof {
            assert forall|q: int| 0 <= q < n implies used@[q] == exists|a: int|
                0 <= a < k + 1 && net.arcs@[a].transition == t1 && net.arcs@[a].place.0 == q by {
                if used@[q] && !(arc.transition == t1 && arc.place.0 == q) {
                    let a = choose|a: int| 0 <= a < k && net.arcs@[a].transition == t1 && net.arcs@[a].place.0 == q;
                }
            }
        }
    }
    for k in 0..net.arcs.len()
        invariant
            net.wf(),
            t1 != t2,
            n == net.places@.len(),
            used@.len() == n,
            forall|q: int|
                0 <= q < n ==> used@[q] == exists|a: int|
                    0 <= a < net.arcs@.len() && net.arcs@[a].transition == t1 && net.arcs@[a].place.0 == q,
            forall|a: int, b: int|
                0 <= a < net.arcs@.len() && 0 <= b < k && net.arcs@[a].transition == t1
                    && net.arcs@[b].transition == t2 ==> #[trigger] net.arcs@[a].place != #[trigger] net.arcs@[b].place,
    {
        let arc = net.arcs[k];
        if arc.transition == t2 && used[arc.place.0] {
            proof {
                let a = choose|a: int|
                    0 <= a < net.arcs@.len() && net.arcs@[a].transition == t1 && net.arcs@[a].place.0 == arc.place.0;
                assert(net.arcs@[a].place == net.arcs@[k as int].place);
            }
            return false;
        }
        proof {
            assert forall|a: int, b: int|
                0 <= a < net.arcs@.len() && 0 <= b < k + 1 && net.arcs@[a].transition == t1
                    && net.arcs@[b].transition == t2 implies #[trigger] net.arcs@[a].place
                    != #[trigger] net.arcs@[b].place by {
                if b == k && net.arcs@[a].place == net.arcs@[b].place {
                    assert(used@[arc.place.0 as int]);
                }
            }
        }
    }
    true
}

/// The number of `true` entries of `s`.
spec fn count_true(s: Seq<bool>) -> nat
    decreases s.len(),
{
    if s.len() == 0 {
        0
    } else {
        count_true(s.drop_last()) + if s.last() {
            1nat
        } else {
            0nat
        }
    }
}

/// The total size of the sleep sets.
spec fn sleep_total(s: Seq<Vec<bool>>) -> nat
    decreases s.len(),
{
    if s.len() == 0 {
        0
    } else {
        sleep_total(s.drop_last()) + count_true(s.last()@)
    }
}

proof fn lemma_count_subset(m: Seq<bool>, o: Seq<bool>)
    requires
        m.len() == o.len(),
        forall|i: int| 0 <= i < m.len() && m[i] ==> o[i],
    ensures
        count_true(m) <= count_true(o),
        m != o ==> count_true(m) < count_true(o),
    decreases m.len(),
{
    if m.len() == 0 {
        assert(m =~= o);
    } else {
        let md = m.drop_last();
        let od = o.drop_last();
        lemma_count_subset(md, od);
        assert(m.last() ==> o.last()) by {
            assert(m[m.len() - 1] ==> o[o.len() - 1]);
        }
        if m != o && md == od {
            if m.last() == o.last() {
                assert(m =~= md.push(m.last()));
                assert(o =~= od.push(o.last()));
            }
        }
    }
}

proof fn lemma_sleep_total_update(s: Seq<Vec<bool>>, i: int, x: Vec<bool>)
    requires
        0 <= i < s.len(),
    ensures
        sleep_total(s.update(i, x)) + count_true(s[i]@) == sleep_total(s) + count_true(x@),
    decreases s.len(),
{
    if i < s.len() - 1 {
        assert(s.update(i, x).drop_last() == s.drop_last().update(i, x));
        lemma_sleep_total_update(s.drop_last(), i, x);
    } else {
        assert(s.update(i, x).drop_last() == s.drop_last());
    }
}

/// Whether two sleep sets are equal.
fn same_bools(a: &Vec<bool>, b: &Vec<bool>) -> (r: bool)
    ensures
        r == (a@ == b@),
{
    if a.len() != b.len() {
        return false;
    }
    for i in 0..a.len()
        invariant
            a@.len() == b@.len(),
            forall|j: int| 0 <= j < i ==> a@[j] == b@[j],
    {
        if a[i] != b[i] {
            return false;
        }
    }
    assert(a@ =~= b@);
    true
}

/// A copy of a sleep set.
fn copy_bools(a: &Vec<bool>) -> (r: Vec<bool>)
    ensures
        r@ == a@,
{
    let mut r: Vec<bool> = Vec::new();
    for i in 0..a.len()
        invariant
            r@ == a@.take(i as int),
    {
        r.push(a[i]);
        assert(a@.take(i + 1) == a@.take(i as int).push(a@[i as int]));
    }
    assert(a@.take(a@.len() as int) == a@);
    r
}

/// Whether one of the first `n` transitions of `en` is `u`, differs from
/// `t` and is independent of it.
pub open spec fn woken_by(net: PtNet, en: Seq<TransitionId>, t: TransitionId, u: int, n: int) -> bool {
    exists|k: int| 0 <= k < n && #[trigger] en[k].0 == u && en[k] != t && independent(net, t, en[k])
}

/// Whether one of the first `n` transitions of `ts` is `u`.
pub open spec fn listed_below(ts: Seq<TransitionId>, u: int, n: int) -> bool {
    exists|k: int| 0 <= k < n && #[trigger] ts[k].0 == u
}

/// The sleep set that `t` leaves behind, fired from a state with sleep set
/// `sleep` after the transitions `fired` were fired from it, into a state
/// whose enabled transitions `next_enabled` tells: a transition asleep
/// before, or fired before `t`, stays asleep while it is independent of `t`
/// and enabled.
pub open spec fn sleep_after(
    net: PtNet,
    sleep: Seq<bool>,
    fired: Seq<TransitionId>,
    t: TransitionId,
    next_enabled: spec_fn(int) -> bool,
) -> Seq<bool> {
    Seq::new(
        sleep.len(),
        |u: int|
            ((sleep[u] && independent(net, t, TransitionId(u as usize))) || woken_by(net, fired, t, u, fired.len() as int))
                && next_enabled(u),
    )
}

/// The sleep set that `t` leaves behind when fired from a state with sleep
/// set `sleep` after the transitions `fired`: the old sleep set together with
/// `fired`, keeping only the transitions independent of `t` that are enabled
/// in the next state, `en_next`.
fn next_sleep(
    net: &PtNet,
    sleep: &Vec<bool>,
    fired: &Vec<TransitionId>,
    t: TransitionId,
    en_next: &Vec<TransitionId>,
) -> (r: Vec<bool>)
    requires
        net.wf(),
        sleep@.len() == net.transitions@.len(),
        forall|j: int| 0 <= j < fired@.len() ==> (#[trigger] fired@[j]).0 < net.transitions@.len(),
        forall|j: int| 0 <= j < en_next@.len() ==> (#[trigger] en_next@[j]).0 < net.transitions@.len(),
    ensures
        r@ == sleep_after(*net, sleep@, fired@, t, |u: int| listed_below(en_next@, u, en_next@.len() as int)),
{
    let ghost tc = net.transitions@.len();
    let mut r = copy_bools(sleep);
    let nt = net.transitions.len();
    for u in 0..nt
        invariant
            net.wf(),
            nt == tc,
            tc == net.transitions@.len(),
            sleep@.len() == tc,
            r@.len() == tc,
            forall|v: int| 0 <= v < u ==> #[trigger] r@[v] == (sleep@[v] && independent(*net, t, TransitionId(v as usize))),
            forall|v: int| u <= v < tc ==> #[trigger] r@[v] == sleep@[v],
    {
        if r[u] && !transitions_are_independent(net, t, TransitionId(u)) {
            r.set(u, false);
        }
    }
    for k in 0..fired.len()
        invariant
            net.wf(),
            tc == net.transitions@.len(),
            sleep@.len() == tc,
            r@.len() == tc,
            forall|j: int| 0 <= j < fired@.len() ==> (#[trigger] fired@[j]).0 < net.transitions@.len(),
            forall|u: int| 0 <= u < tc ==> #[trigger] r@[u] == ((sleep@[u] && independent(*net, t, TransitionId(u as usize)))
                || woken_by(*net, fired@, t, u, k as int)),
    {
        let u = fired[k];
        let ghost before = r@;
        if u != t && transitions_are_independent(net, t, u) {
            r.set(u.0, true);
        }
        proof {
            assert forall|v: int| 0 <= v < tc implies #[trigger] r@[v] == ((sleep@[v] && independent(*net, t, TransitionId(v as usize)))
                || woken_by(*net, fired@, t, v, k + 1)) by {
                assert(before[v] == ((sleep@[v] && independent(*net, t, TransitionId(v as usize))) || woken_by(*net, fired@, t, v, k as int)));
                if woken_by(*net, fired@, t, v, k + 1) && !woken_by(*net, fired@, t, v, k as int) {
                    let kk = choose|kk: int| 0 <= kk < k + 1 && #[trigger] fired@[kk].0 == v && fired@[kk] != t && independent(*net, t, fired@[kk]);
                    assert(kk == k);
                }
                if v == u.0 && u != t && independent(*net, t, u) {
                    assert(fired@[k as int].0 == v);
                }
            }
        }
    }
    let mut in_next: Vec<bool> = Vec::new();
    for u in 0..net.transitions.len()
        invariant
            in_next@.len() == u,
            forall|v: int| 0 <= v < u ==> !in_next@[v],
    {
        in_next.push(false);
    }
    for k in 0..en_next.len()
        invariant
            in_next@.len() == net.transitions@.len(),
            tc == net.transitions@.len(),
            forall|j: int| 0 <= j < en_next@.len() ==> (#[trigger] en_next@[j]).0 < net.transitions@.len(),
            forall|v: int| 0 <= v < tc ==> #[trigger] in_next@[v] == listed_below(en_next@, v, k as int),
    {
        let ghost before = in_next@;
        in_next.set(en_next[k].0, true);
        proof {
            assert forall|v: int| 0 <= v < tc implies #[trigger] in_next@[v] == listed_below(en_next@, v, k + 1) by {
                assert(before[v] == listed_below(en_next@, v, k as int));
                if listed_below(en_next@, v, k + 1) && !listed_below(en_next@, v, k as int) {
                    let kk = choose|kk: int| 0 <= kk < k + 1 && #[trigger] en_next@[kk].0 == v;
                    assert(kk == k);
                }
                if v == en_next@[k as int].0 {
                    assert(listed_below(en_next@, v, k + 1));
                }
            }
        }
    }
    let ghost r0 = r@;
    for u in 0..net.transitions.len()
        invariant
            r@.len() == net.transitions@.len(),
            tc == net.transitions@.len(),
            in_next@.len() == net.transitions@.len(),
            r0.len() == tc,
            forall|v: int| 0 <= v < u ==> #[trigger] r@[v] == (r0[v] && in_next@[v]),
            forall|v: int| u <= v < tc ==> #[trigger] r@[v] == r0[v],
    {
        if r[u] && !in_next[u] {
            r.set(u, false);
        }
    }
    proof {
        assert(r@ =~= sleep_after(*net, sleep@, fired@, t, |u: int| listed_below(en_next@, u, en_next@.len() as int)));
    }
    r
}

/// Whether `v` holds `x`.
fn contains_index(v: &Vec<usize>, x: usize) -> (r: bool)
    ensures
        r == exists|j: int| 0 <= j < v@.len() && v@[j] == x,
{
    for k in 0..v.len()
        invariant
            forall|j: int| 0 <= j < k ==> v@[j] != x,
    {
        if v[k] == x {
            return true;
        }
    }
    false
}

/// The intersection of two sleep sets of the same size.
fn meet_bools(a: &Vec<bool>, b: &Vec<bool>) -> (r: Vec<bool>)
    requires
        a@.len() == b@.len(),
    ensures
        r@.len() == a@.len(),
        forall|i: int| 0 <= i < r@.len() ==> r@[i] == (a@[i] && b@[i]),
{
    let mut r: Vec<bool> = Vec::new();
    for i in 0..a.len()
        invariant
            a@.len() == b@.len(),
            r@.len() == i,
            forall|j: int| 0 <= j < i ==> r@[j] == (a@[j] && b@[j]),
    {
        r.push(a[i] && b[i]);
    }
    r
}

/// A sorted list of the enabled transitions lists exactly those enabled.
proof fn lemma_listed_is_enabled(net: PtNet, m: Seq<usize>, en_next: Seq<TransitionId>)
    requires
        sorted_selection(en_next, net.transitions@.len(), net.enabled_pred(m)),
        net.transitions@.len() <= usize::MAX,
    ensures
        forall|u: int|
            0 <= u < net.transitions@.len() ==> #[trigger] listed_below(en_next, u, en_next.len() as int)
                == net.enabled_in(m, u as usize),
{
    assert forall|u: int| 0 <= u < net.transitions@.len() implies #[trigger] listed_below(
        en_next,
        u,
        en_next.len() as int,
    ) == net.enabled_in(m, u as usize) by {
        if listed_below(en_next, u, en_next.len() as int) {
            let k = choose|k: int| 0 <= k < en_next.len() && #[trigger] en_next[k].0 == u;
            assert(net.enabled_pred(m)(en_next[k].0));
        }
        if net.enabled_in(m, u as usize) {
            assert(net.enabled_pred(m)(u as usize));
            let k = choose|k: int| #![trigger en_next[k]] 0 <= k < en_next.len() && en_next[k].0 == u as usize;
            assert(en_next[k].0 == u);
        }
    }
}

/// The working state of an exploration with sleep sets.
struct PorExplorer {
    markings: Vec<Marking>,
    enabled: Vec<Vec<TransitionId>>,
    sleep_sets: Vec<Vec<bool>>,
    steps: Vec<Step>,
    blocked: Vec<usize>,
    failures: Vec<Failed>,
    truncated: bool,
    queue: VecDeque<(usize, Vec<bool>)>,
}

impl PorExplorer {
    spec fn ms(&self) -> Seq<Seq<usize>> {
        views(self.markings@)
    }

    /// The invariant of the exploration with sleep sets; `done` marks the
    /// states expanded at least once.
    spec fn inv(&self, net: PtNet, m0: Seq<usize>, limit: nat, done: Seq<bool>) -> bool {
        let ms = self.ms();
        let tc = net.transitions@.len();
        &&& net.wf()
        &&& 0 < ms.len() <= limit
        &&& ms[0] == m0
        &&& forall|i: int| 0 <= i < ms.len() ==> (#[trigger] ms[i]).len() == net.places@.len()
        &&& distinct_markings(ms)
        &&& self.enabled@.len() == ms.len()
        &&& done.len() == ms.len()
        &&& forall|i: int|
            0 <= i < ms.len() && done[i] ==> sorted_selection(
                #[trigger] self.enabled@[i]@,
                tc,
                net.enabled_pred(ms[i]),
            )
        &&& forall|k: int| 0 <= k < self.steps@.len() ==> step_ok(net, ms, #[trigger] self.steps@[k])
        &&& forall|k: int|
            0 <= k < self.failures@.len() ==> failed_ok(net, ms, #[trigger] self.failures@[k])
        &&& distinct(self.blocked@)
        &&& forall|k: int|
            0 <= k < self.blocked@.len() ==> #[trigger] self.blocked@[k] < ms.len() && dead(
                net,
                ms[self.blocked@[k] as int],
            ) && done[self.blocked@[k] as int]
        &&& forall|i: int| 0 <= i < ms.len() && done[i] && dead(net, ms[i]) ==> #[trigger] lists(self.blocked@, i)
        &&& self.truncated ==> ms.len() >= limit
        &&& forall|j: int| 0 < j < ms.len() ==> #[trigger] discovered(self.steps@, j)
        &&& self.sleep_sets@.len() == ms.len()
        &&& forall|i: int| 0 <= i < ms.len() ==> (#[trigger] self.sleep_sets@[i])@.len() == tc
        &&& forall|k: int|
            0 <= k < self.queue@.len() ==> (#[trigger] self.queue@[k]).0 < ms.len() && self.queue@[k].1@.len()
                == tc
        &&& forall|i: int|
            0 <= i < ms.len() && !done[i] ==> exists|k: int|
                0 <= k < self.queue@.len() && (#[trigger] self.queue@[k]).0 == i
    }

    /// Whether this exploration is `prev` after a revisit of state `i` by
    /// firing `t` from `source`, leaving the sleep set `ns`: the step is
    /// recorded, the sleep set of `i` shrinks to what both leave asleep, and
    /// `i` is queued again with it when it changed.
    spec fn revisited(self, prev: Self, source: usize, i: int, ns: Seq<bool>, t: TransitionId) -> bool {
        let meet = Seq::new(ns.len(), |u: int| prev.sleep_sets@[i]@[u] && ns[u]);
        &&& self.steps@ == prev.steps@.push(Step { source, target: i as usize, transition: t })
        &&& self.markings@ == prev.markings@
        &&& self.enabled@ == prev.enabled@
        &&& self.truncated == prev.truncated
        &&& self.sleep_sets@.len() == prev.sleep_sets@.len()
        &&& forall|k: int| 0 <= k < prev.sleep_sets@.len() && k != i ==> #[trigger] self.sleep_sets@[k] == prev.sleep_sets@[k]
        &&& self.sleep_sets@[i]@ == meet
        &&& if meet == prev.sleep_sets@[i]@ {
            self.queue@ == prev.queue@
        } else {
            &&& self.queue@.len() == prev.queue@.len() + 1
            &&& self.queue@.take(prev.queue@.len() as int) == prev.queue@
            &&& self.queue@.last().0 == i
            &&& self.queue@.last().1@ == meet
        }
    }

    /// Whether this exploration is `prev` with the new state of marking `m`
    /// reached by firing `t` from `source`, with sleep set `ns`: it is added,
    /// with no enabled transitions listed yet, queued, and the step to it is
    /// recorded.
    spec fn discovered_state(self, prev: Self, source: usize, m: Seq<usize>, ns: Seq<bool>, t: TransitionId) -> bool {
        let j = prev.markings@.len();
        &&& self.ms() == prev.ms().push(m)
        &&& self.enabled@.len() == j + 1
        &&& self.enabled@.take(j as int) == prev.enabled@
        &&& self.enabled@[j as int]@ == Seq::<TransitionId>::empty()
        &&& self.sleep_sets@.len() == j + 1
        &&& self.sleep_sets@.take(j as int) == prev.sleep_sets@
        &&& self.sleep_sets@[j as int]@ == ns
        &&& self.queue@.len() == prev.queue@.len() + 1
        &&& self.queue@.take(prev.queue@.len() as int) == prev.queue@
        &&& self.queue@.last().0 == j
        &&& self.queue@.last().1@ == ns
        &&& self.steps@ == prev.steps@.push(Step { source, target: j as usize, transition: t })
        &&& self.truncated == prev.truncated
    }

    /// Whether this exploration is `prev` after firing `t`, with sleep set
    /// `sleep`, from state `source` whose marking is `cur` and from which the
    /// transitions `fired` were fired before: a failed firing is recorded; a
    /// firing into a known state revisits it; one into a new state adds it unless the
    /// state limit `limit` is reached, which truncates the graph instead.
    spec fn fired_as(
        self,
        prev: Self,
        net: PtNet,
        limit: nat,
        source: usize,
        cur: Seq<usize>,
        fired: Seq<TransitionId>,
        sleep: Seq<bool>,
        t: TransitionId,
    ) -> bool {
        &&& self.blocked@ == prev.blocked@
        &&& match net.fire_result(cur, t.0) {
            Err(e) => {
                &&& self.failures@ == prev.failures@.push(Failed { source, transition: t, error: e })
                &&& self.markings@ == prev.markings@
                &&& self.enabled@ == prev.enabled@
                &&& self.sleep_sets@ == prev.sleep_sets@
                &&& self.steps@ == prev.steps@
                &&& self.queue@ == prev.queue@
                &&& self.truncated == prev.truncated
            },
            Ok(m) => {
                let ns = sleep_after(net, sleep, fired, t, |u: int| net.enabled_in(m, u as usize));
                let known = exists|i: int| 0 <= i < prev.ms().len() && #[trigger] prev.ms()[i] == m;
                &&& self.failures@ == prev.failures@
                &&& known ==> forall|i: int|
                    0 <= i < prev.ms().len() && #[trigger] prev.ms()[i] == m ==> self.revisited(prev, source, i, ns, t)
                &&& (!known && prev.markings@.len() >= limit) ==> {
                    &&& self.truncated
                    &&& self.markings@ == prev.markings@
                    &&& self.enabled@ == prev.enabled@
                    &&& self.sleep_sets@ == prev.sleep_sets@
                    &&& self.steps@ == prev.steps@
                    &&& self.queue@ == prev.queue@
                }
                &&& (!known && prev.markings@.len() < limit) ==> self.discovered_state(prev, source, m, ns, t)
            },
        }
    }

    /// Fires `t`, not asleep, in state `source` with marking `current`: a
    /// failure, a step to a known state (whose sleep set shrinks to what both
    /// paths leave asleep, queueing it again if it changed), a step to a new
    /// state, or the truncation of the graph.
    #[verifier::rlimit(60)]
    #[verifier::spinoff_prover]
    fn fire_one(
        &mut self,
        net: &PtNet,
        limit: usize,
        source: usize,
        current: &Marking,
        fired: &Vec<TransitionId>,
        sleep: &Vec<bool>,
        t: TransitionId,
        Ghost(done): Ghost<Seq<bool>>,
        Ghost(m0): Ghost<Seq<usize>>,
    )
        requires
            old(self).inv(*net, m0, limit as nat, done),
            source < old(self).markings@.len(),
            current@ == old(self).ms()[source as int],
            net.enabled_in(current@, t.0),
            sleep@.len() == net.transitions@.len(),
            forall|j: int| 0 <= j < fired@.len() ==> (#[trigger] fired@[j]).0 < net.transitions@.len(),
        ensures
            final(self).fired_as(*old(self), *net, limit as nat, source, current@, fired@, sleep@, t),
            final(self).inv(
                *net,
                m0,
                limit as nat,
                if final(self).markings@.len() > old(self).markings@.len() {
                    done.push(false)
                } else {
                    done
                },
            ),
            old(self).markings@.len() <= final(self).markings@.len() <= old(self).markings@.len() + 1,
            final(self).ms().len() >= old(self).ms().len(),
            forall|i: int| 0 <= i < old(self).markings@.len() ==> final(self).ms()[i] == old(self).ms()[i],
            forall|i: int|
                0 <= i < old(self).markings@.len() ==> final(self).enabled@[i] == old(self).enabled@[i],
            final(self).blocked@ == old(self).blocked@,
            final(self).queue@.len() >= old(self).queue@.len(),
            final(self).markings@.len() == old(self).markings@.len() ==> sleep_total(
                final(self).sleep_sets@,
            ) + (final(self).queue@.len() - old(self).queue@.len()) <= sleep_total(old(self).sleep_sets@),
    {
        let ghost prev = *self;
        let ghost ms0 = self.ms();
        let ghost steps0 = self.steps@;
        let ghost failures0 = self.failures@;
        let ghost enabled0 = self.enabled@;
        let ghost queue0 = self.queue@;
        let ghost sleep0 = self.sleep_sets@;
        let ghost tc = net.transitions@.len();
        match net.fire(current, t) {
            Err(error) => {
                let f = Failed { source, transition: t, error };
                self.failures.push(f);
                proof {
                    assert(self.ms() =~= ms0);
                    assert forall|k: int| 0 <= k < self.failures@.len() implies failed_ok(
                        *net,
                        ms0,
                        #[trigger] self.failures@[k],
                    ) by {
                        if k < failures0.len() {
                            assert(self.failures@[k] == failures0[k]);
                        }
                    }
                    assert(self.fired_as(prev, *net, limit as nat, source, current@, fired@, sleep@, t));
                }
            },
            Ok(next) => {
                let en_next = net.enabled(&next);
                let new_sleep = next_sleep(net, sleep, fired, t, &en_next);
                let ghost ns = sleep_after(*net, sleep@, fired@, t, |u: int| net.enabled_in(next@, u as usize));
                let tcount = net.transitions.len();
                proof {
                    assert(tcount == net.transitions@.len());
                    lemma_listed_is_enabled(*net, next@, en_next@);
                    assert(new_sleep@ =~= ns);
                }
                match find_marking(&self.markings, &next) {
                    Some(old) => {
                        let ghost sleep_old = self.sleep_sets@[old as int]@;
                        let merged = meet_bools(&self.sleep_sets[old], &new_sleep);
                        let ghost meet = Seq::new(ns.len(), |u: int| sleep_old[u] && ns[u]);
                        assert(merged@ =~= meet);
                        if !same_bools(&merged, &self.sleep_sets[old]) {
                            let ghost old_set = self.sleep_sets@[old as int];
                            self.sleep_sets.set(old, copy_bools(&merged));
                            self.queue.push_back((old, merged));
                            proof {
                                lemma_count_subset(self.sleep_sets@[old as int]@, old_set@);
                                lemma_sleep_total_update(sleep0, old as int, self.sleep_sets@[old as int]);
                                assert(self.sleep_sets@ == sleep0.update(old as int, self.sleep_sets@[old as int]));
                            }
                        }
                        let e = Step { source, target: old, transition: t };
                        self.steps.push(e);
                        proof {
                            assert(self.ms() =~= ms0);
                            assert(self.markings@[old as int]@ == ms0[old as int]);
                            assert(step_ok(*net, ms0, e));
                            assert forall|k: int| 0 <= k < self.steps@.len() implies step_ok(
                                *net,
                                ms0,
                                #[trigger] self.steps@[k],
                            ) by {
                                if k < steps0.len() {
                                    assert(self.steps@[k] == steps0[k]);
                                }
                            }
                            assert forall|jj: int| 0 < jj < ms0.len() implies #[trigger] discovered(
                                self.steps@,
                                jj,
                            ) by {
                                crate::analysis::state_space::lemma_discovered_grows(steps0, self.steps@, jj);
                            }
                            assert forall|k: int| 0 <= k < self.queue@.len() implies (#[trigger] self.queue@[k]).0
                                < ms0.len() && self.queue@[k].1@.len() == tc by {
                                if k < queue0.len() {
                                    assert(self.queue@[k] == queue0[k]);
                                }
                            }
                            assert forall|i: int| 0 <= i < ms0.len() && !done[i] implies exists|k: int|
                                0 <= k < self.queue@.len() && (#[trigger] self.queue@[k]).0 == i by {
                                let k = choose|k: int| 0 <= k < queue0.len() && (#[trigger] queue0[k]).0 == i;
                                assert(self.queue@[k] == queue0[k]);
                            }
                            assert(self.queue@.take(queue0.len() as int) =~= queue0 || self.queue@ == queue0);
                            assert forall|i: int| 0 <= i < ms0.len() && #[trigger] ms0[i] == next@ implies self.revisited(
                                prev,
                                source,
                                i,
                                ns,
                                t,
                            ) by {
                                assert(ms0[old as int] == next@);
                                if i != old {
                                    if i < old {
                                        assert(ms0[i] != ms0[old as int]);
                                    } else {
                                        assert(ms0[old as int] != ms0[i]);
                                    }
                                }
                                assert forall|k: int| 0 <= k < sleep0.len() && k != i implies #[trigger] self.sleep_sets@[k] == sleep0[k] by {
                                }
                            }
                            assert(self.fired_as(prev, *net, limit as nat, source, current@, fired@, sleep@, t));
                        }
                    },
                    None => {
                        if self.markings.len() >= limit {
                            self.truncated = true;
                            proof {
                                assert(self.ms() =~= ms0);
                                assert(!exists|i: int| 0 <= i < ms0.len() && #[trigger] ms0[i] == next@) by {
                                    assert forall|i: int| 0 <= i < ms0.len() implies #[trigger] ms0[i] != next@ by {
                                        assert(self.markings@[i]@ != next@);
                                    }
                                }
                                assert(self.fired_as(prev, *net, limit as nat, source, current@, fired@, sleep@, t));
                            }
                            return;
                        }
                        let j = self.markings.len();
                        self.markings.push(next);
                        self.enabled.push(Vec::new());
                        self.sleep_sets.push(copy_bools(&new_sleep));
                        self.queue.push_back((j, new_sleep));
                        let e = Step { source, target: j, transition: t };
                        self.steps.push(e);
                        proof {
                            let ms1 = self.ms();
                            let done1 = done.push(false);
                            assert(ms1 =~= ms0.push(next@));
                            assert(step_ok(*net, ms1, e));
                            assert forall|k: int| 0 <= k < self.steps@.len() implies step_ok(
                                *net,
                                ms1,
                                #[trigger] self.steps@[k],
                            ) by {
                                if k < steps0.len() {
                                    assert(self.steps@[k] == steps0[k]);
                                    assert(step_ok(*net, ms0, steps0[k]));
                                }
                            }
                            assert forall|k: int| 0 <= k < self.failures@.len() implies failed_ok(
                                *net,
                                ms1,
                                #[trigger] self.failures@[k],
                            ) by {
                                assert(failed_ok(*net, ms0, failures0[k]));
                            }
                            assert forall|i: int|
                                0 <= i < ms1.len() && done1[i] implies sorted_selection(
                                #[trigger] self.enabled@[i]@,
                                tc,
                                net.enabled_pred(ms1[i]),
                            ) by {
                                assert(self.enabled@[i] == enabled0[i]);
                                assert(sorted_selection(enabled0[i]@, tc, net.enabled_pred(ms0[i])));
                            }
                            assert forall|k: int| 0 <= k < self.blocked@.len() implies #[trigger] self.blocked@[k]
                                < ms1.len() && dead(*net, ms1[self.blocked@[k] as int])
                                && done1[self.blocked@[k] as int] by {
                                assert(ms1[self.blocked@[k] as int] == ms0[self.blocked@[k] as int]);
                            }
                            assert forall|i: int|
                                0 <= i < ms1.len() && done1[i] && dead(*net, ms1[i]) implies #[trigger] lists(
                                self.blocked@,
                                i,
                            ) by {
                                assert(ms1[i] == ms0[i]);
                            }
                            assert forall|jj: int| 0 < jj < ms1.len() implies #[trigger] discovered(
                                self.steps@,
                                jj,
                            ) by {
                                if jj < ms0.len() {
                                    crate::analysis::state_space::lemma_discovered_grows(steps0, self.steps@, jj);
                                } else {
                                    let k = steps0.len() as int;
                                    assert(self.steps@[k].target == jj);
                                    assert forall|k2: int| 0 <= k2 < k implies #[trigger] self.steps@[k2].target
                                        != jj by {
                                        assert(self.steps@[k2] == steps0[k2]);
                                        assert(step_ok(*net, ms0, steps0[k2]));
                                    }
                                }
                            }
                            assert forall|a: int, b: int| 0 <= a < b < ms1.len() implies ms1[a] != ms1[b] by {
                                if b == ms0.len() {
                                    assert(self.markings@[a]@ == ms0[a]);
                                }
                            }
                            assert forall|i: int| 0 <= i < ms1.len() implies (#[trigger] ms1[i]).len()
                                == net.places@.len() by {
                                if i < ms0.len() {
                                    assert(ms1[i] == ms0[i]);
                                }
                            }
                            assert forall|i: int| 0 <= i < ms1.len() implies (#[trigger] self.sleep_sets@[i])@.len()
                                == tc by {
                                if i < ms0.len() {
                                    assert(self.sleep_sets@[i] == sleep0[i]);
                                }
                            }
                            assert forall|k: int| 0 <= k < self.queue@.len() implies (#[trigger] self.queue@[k]).0
                                < ms1.len() && self.queue@[k].1@.len() == tc by {
                                if k < queue0.len() {
                                    assert(self.queue@[k] == queue0[k]);
                                }
                            }
                            assert forall|i: int| 0 <= i < ms1.len() && !done1[i] implies exists|k: int|
                                0 <= k < self.queue@.len() && (#[trigger] self.queue@[k]).0 == i by {
                                if i == j {
                                    assert(self.queue@[self.queue@.len() - 1].0 == j);
                                } else {
                                    let k = choose|k: int| 0 <= k < queue0.len() && (#[trigger] queue0[k]).0 == i;
                                    assert(self.queue@[k] == queue0[k]);
                                }
                            }
                            assert(!exists|i: int| 0 <= i < ms0.len() && #[trigger] ms0[i] == next@) by {
                                assert forall|i: int| 0 <= i < ms0.len() implies #[trigger] ms0[i] != next@ by {
                                    assert(ms1[i] == ms0[i]);
                                    assert(ms1[i] != ms1[ms0.len() as int]);
                                }
                            }
                            assert(self.enabled@.take(ms0.len() as int) =~= enabled0);
                            assert(self.sleep_sets@.take(ms0.len() as int) =~= sleep0);
                            assert(self.queue@.take(queue0.len() as int) =~= queue0);
                            assert(self.fired_as(prev, *net, limit as nat, source, current@, fired@, sleep@, t));
                        }
                    },
                }
            },
        }
    }
}

impl StateGraph {
    /// Whether the graph is a sound exploration of `net` from `m0` with at
    /// most `max_states` states (see `sound`), with snapshots that skip empty
    /// places unless `zero`, and a copy of `net`.
    pub open spec fn builds_reduced(&self, net: PtNet, m0: Seq<usize>, max_states: nat, zero: bool) -> bool {
        &&& self.initial == 0
        &&& sound(
            net,
            m0,
            max_states,
            self.markings(),
            self.enabled_ids(),
            self.steps(),
            self.deadlocks@,
            self.failed(net),
            self.truncated,
        )
        &&& forall|i: int| 0 <= i < self.states@.len() ==> #[trigger] self.node_ok(net, zero, i)
        &&& self.details_ok(net)
        &&& self.net matches Some(n) && n.same_as(net)
    }

    /// Explores breadth first from `initial_marking` with sleep sets: a
    /// transition asleep in a state, or fired from it before the one just
    /// fired, stays asleep in the next state while it is independent of the
    /// one just fired and enabled; a state reached again with a smaller
    /// sleep set is expanded again with the intersection.
    fn with_config_por(net: &PtNet, initial_marking: Marking, config: StateGraphConfig) -> (r: Self)
        requires
            net.wf(),
            initial_marking@.len() == net.places@.len(),
        ensures
            r.builds_reduced(
                *net,
                initial_marking@,
                effective_limit(config.state_limit),
                config.include_zero_tokens,
            ),
    {
        let limit: usize = match config.state_limit {
            Some(l) => if l == 0 {
                1
            } else {
                l
            },
            None => usize::MAX,
        };
        let tc = net.transitions.len();
        let mut awake: Vec<bool> = Vec::new();
        for u in 0..tc
            invariant
                awake@.len() == u,
        {
            awake.push(false);
        }
        let mut markings: Vec<Marking> = Vec::new();
        markings.push(initial_marking.clone());
        let mut enabled: Vec<Vec<TransitionId>> = Vec::new();
        enabled.push(Vec::new());
        let mut sleep_sets: Vec<Vec<bool>> = Vec::new();
        sleep_sets.push(copy_bools(&awake));
        let mut queue: VecDeque<(usize, Vec<bool>)> = VecDeque::new();
        queue.push_back((0, awake));
        let mut w = PorExplorer {
            markings,
            enabled,
            sleep_sets,
            steps: Vec::new(),
            blocked: Vec::new(),
            failures: Vec::new(),
            truncated: false,
            queue,
        };
        let ghost m0 = initial_marking@;
        let ghost mut done: Seq<bool> = seq![false];
        proof {
            assert(w.ms() =~= seq![m0]);
            assert(w.queue@[0].0 == 0);
        }
        while w.queue.len() > 0
            invariant
                w.inv(*net, m0, limit as nat, done),
                tc == net.transitions@.len(),
                limit > 0,
            decreases limit - w.markings@.len(), sleep_total(w.sleep_sets@), w.queue@.len(),
        {
            let ghost queue_before = w.queue@;
            let (source, sleep) = match w.queue.pop_front() {
                Some(entry) => entry,
                None => (0, Vec::new()),
            };
            let ghost len0 = w.markings@.len();
            let ghost q0 = w.queue@.len();
            let ghost total0 = sleep_total(w.sleep_sets@);
            proof {
                assert(queue_before[0].0 == source);
                assert forall|k: int| 0 <= k < w.queue@.len() implies (#[trigger] w.queue@[k]).0 < w.ms().len()
                    && w.queue@[k].1@.len() == tc by {
                    assert(w.queue@[k] == queue_before[k + 1]);
                }
                assert forall|i: int| 0 <= i < w.ms().len() && !done[i] && i != source implies exists|k: int|
                    0 <= k < w.queue@.len() && (#[trigger] w.queue@[k]).0 == i by {
                    let k = choose|k: int| 0 <= k < queue_before.len() && (#[trigger] queue_before[k]).0 == i;
                    assert(w.queue@[k - 1] == queue_before[k]);
                }
            }
            assert(w.ms()[source as int] == w.markings@[source as int]@);
            let current = w.markings[source].clone();
            let en = net.enabled(&current);
            let ghost enabled_before = w.enabled@;
            w.enabled.set(source, copy_ids(&en));
            let ghost done_before = done;
            proof {
                let ms = w.ms();
                done = done.update(source as int, true);
                assert forall|i: int|
                    0 <= i < ms.len() && done[i] implies sorted_selection(
                    #[trigger] w.enabled@[i]@,
                    tc as nat,
                    net.enabled_pred(ms[i]),
                ) by {
                    if i != source {
                        assert(w.enabled@[i] == enabled_before[i]);
                        assert(done_before[i]);
                    }
                }
                assert forall|k: int| 0 <= k < w.blocked@.len() implies #[trigger] w.blocked@[k]
                    < ms.len() && dead(*net, ms[w.blocked@[k] as int]) && done[w.blocked@[k] as int] by {
                }
                assert forall|i: int| 0 <= i < ms.len() && !done[i] implies exists|k: int|
                    0 <= k < w.queue@.len() && (#[trigger] w.queue@[k]).0 == i by {
                }
            }
            if en.len() == 0 {
                let listed = contains_index(&w.blocked, source);
                let ghost blocked0 = w.blocked@;
                let ghost queue_now = w.queue@;
                assert(forall|i: int| 0 <= i < w.ms().len() && !done[i] ==> exists|k: int| 0 <= k < queue_now.len() && (#[trigger] queue_now[k]).0 == i);
                if !listed {
                    w.blocked.push(source);
                }
                proof {
                    let ms = w.ms();
                    assert(dead(*net, ms[source as int])) by {
                        assert forall|u: usize| !net.enabled_in(ms[source as int], u) by {
                            if net.enabled_in(ms[source as int], u) {
                                assert(net.enabled_pred(ms[source as int])(u));
                            }
                        }
                    }
                    let done1 = done;
                    assert forall|k: int| 0 <= k < w.blocked@.len() implies #[trigger] w.blocked@[k]
                        < ms.len() && dead(*net, ms[w.blocked@[k] as int]) && done1[w.blocked@[k] as int] by {
                        if k < blocked0.len() {
                            assert(w.blocked@[k] == blocked0[k]);
                        }
                    }
                    assert forall|i: int| 0 <= i < ms.len() && done1[i] && dead(*net, ms[i]) implies #[trigger] lists(
                        w.blocked@,
                        i,
                    ) by {
                        if i == source {
                            if !listed {
                                assert(w.blocked@[w.blocked@.len() - 1] == source);
                            } else {
                                let j = choose|j: int| 0 <= j < blocked0.len() && blocked0[j] == source;
                            }
                        } else {
                            assert(done_before[i]);
                            assert(lists(blocked0, i));
                            let k = choose|k: int| 0 <= k < blocked0.len() && blocked0[k] == i;
                            assert(w.blocked@[k] == blocked0[k]);
                        }
                    }
                    assert forall|a: int, b: int| 0 <= a < b < w.blocked@.len() implies w.blocked@[a]
                        != w.blocked@[b] by {
                        assert(w.blocked@[a] == blocked0[a]);
                        if b < blocked0.len() {
                            assert(w.blocked@[b] == blocked0[b]);
                        }
                    }
                    assert(w.queue@ == queue_now);
                    assert forall|i: int| 0 <= i < ms.len() && !done[i] implies exists|k: int|
                        0 <= k < w.queue@.len() && (#[trigger] w.queue@[k]).0 == i by {
                        let k = choose|k: int| 0 <= k < queue_now.len() && (#[trigger] queue_now[k]).0 == i;
                        assert(w.queue@[k] == queue_now[k]);
                    }
                }
            } else {
                let ghost ms_at_start = w.ms();
                proof {
                    let ms = w.ms();
                    assert(ms[source as int] == current@);
                    assert(net.enabled_pred(current@)(en@[0].0));
                    assert(!dead(*net, ms[source as int]));
                    assert forall|i: int| 0 <= i < ms.len() && done[i] && dead(*net, ms[i]) implies #[trigger] lists(
                        w.blocked@,
                        i,
                    ) by {
                        if i != source {
                            assert(done_before[i]);
                        }
                    }
                }
                let mut fired: Vec<TransitionId> = Vec::new();
                for k in 0..en.len()
                    invariant
                        forall|j: int| 0 <= j < fired@.len() ==> (#[trigger] fired@[j]).0 < net.transitions@.len(),
                        w.inv(*net, m0, limit as nat, done),
                        tc == net.transitions@.len(),
                        source < len0,
                        ms_at_start.len() == len0,
                        len0 <= w.markings@.len(),
                        forall|i: int| 0 <= i < len0 ==> w.ms()[i] == ms_at_start[i],
                        current@ == ms_at_start[source as int],
                        w.enabled@[source as int]@ == en@,
                        sorted_selection(en@, tc as nat, net.enabled_pred(current@)),
                        sleep@.len() == tc,
                        w.queue@.len() >= q0,
                        w.markings@.len() == len0 ==> sleep_total(w.sleep_sets@) + (w.queue@.len() - q0)
                            <= total0,
                {
                    let t = en[k];
                    if !sleep[t.0] {
                        let ghost wq = w.queue@;
                        let ghost grew_before = w.markings@.len();
                        proof {
                            assert(net.enabled_pred(current@)(t.0));
                        }
                        w.fire_one(net, limit, source, &current, &fired, &sleep, t, Ghost(done), Ghost(m0));
                        proof {
                            if w.markings@.len() > grew_before {
                                done = done.push(false);
                            }
                        }
                        fired.push(t);
                    }
                }

            }
        }
        proof {
            assert forall|i: int| 0 <= i < done.len() implies done[i] by {
                if !done[i] {
                    let k = choose|k: int| 0 <= k < w.queue@.len() && (#[trigger] w.queue@[k]).0 == i;
                }
            }
        }
        let found = Search {
            markings: w.markings,
            enabled: w.enabled,
            steps: w.steps,
            blocked: w.blocked,
            failures: w.failures,
            truncated: w.truncated,
        };
        proof {
            assert(found.ms() == w.ms());
            assert forall|i: int| 0 <= i < found.ms().len() implies sorted_selection(
                #[trigger] id_views(found.enabled@)[i],
                tc as nat,
                net.enabled_pred(found.ms()[i]),
            ) by {
                assert(done[i]);
                assert(id_views(found.enabled@)[i] == found.enabled@[i]@);
            }
            assert forall|i: int| 0 <= i < found.ms().len() && dead(*net, found.ms()[i]) implies #[trigger] lists(
                found.blocked@,
                i,
            ) by {
                assert(done[i]);
            }
        }
        Self::assemble(net, found, config.include_zero_tokens, Ghost(m0), Ghost(limit as nat))
    }
}

/// Every state of a reachability graph, with or without reduction, holds a
/// marking reachable from the initial one.
pub proof fn law_state_graph_states_are_reachable(
    g: StateGraph,
    net: PtNet,
    m0: Seq<usize>,
    max_states: nat,
    zero: bool,
    i: int,
)
    requires
        g.builds(net, m0, max_states, zero) || g.builds_reduced(net, m0, max_states, zero),
        0 <= i < g.states@.len(),
    ensures
        net.reachable(m0, g.markings()[i]),
{
    crate::analysis::state_space::law_explored_markings_are_reachable(
        net,
        m0,
        max_states,
        g.markings(),
        g.enabled_ids(),
        g.steps(),
        g.deadlocks@,
        g.failed(net),
        g.truncated,
        i,
    );
}

/// A reachability graph built without reduction and not cut short by the
/// state limit holds every marking reachable from the initial one.
pub proof fn law_state_graph_covers_reachable(
    g: StateGraph,
    net: PtNet,
    m0: Seq<usize>,
    max_states: nat,
    zero: bool,
    w: Seq<TransitionId>,
)
    requires
        g.builds(net, m0, max_states, zero),
        !g.truncated,
        net.run(m0, w) is Some,
    ensures
        exists|i: int| 0 <= i < g.states@.len() && g.markings()[i] == net.run(m0, w)->0,
{
    crate::analysis::state_space::law_complete_search_covers_reachable(
        net,
        m0,
        max_states,
        g.markings(),
        g.enabled_ids(),
        g.steps(),
        g.deadlocks@,
        g.failed(net),
        w,
    );
}

} // verus!
