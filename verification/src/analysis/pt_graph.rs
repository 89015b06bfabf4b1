//! Explicit-state reachability graphs of P/T nets, with per-state place
//! snapshots, per-edge token changes, blocked states and firing failures.
use vstd::prelude::*;

use crate::bug::{BugNet, PlaceMetadata, TransitionMetadata};
use crate::ids::{PlaceId, TransitionId};
use crate::analysis::state_space::{
    copy_ids, discovered, explored, law_complete_search_covers_reachable,
    law_explored_markings_are_reachable, search, Failed, Step,
};
use crate::pt::{arc_of, Marking, PtArc, PtExecutionError, PtModelError, PtNet};

verus! {

/// Index of a state in its graph.
#[derive(Clone, Copy, Debug, PartialEq, Eq, Hash, Structural)]
pub struct PtStateId(pub usize);

/// The order in which discovered states are expanded.
#[derive(Clone, Copy, Debug, PartialEq, Eq, Structural)]
pub enum PtSearchStrategy {
    /// Oldest pending state first.
    BreadthFirst,
    /// Newest pending state first.
    DepthFirst,
}

/// How a graph is explored: the expansion order and the largest number of
/// states kept.
#[derive(Clone, Copy, Debug, PartialEq, Eq, Structural)]
pub struct PtStateGraphConfig {
    pub strategy: PtSearchStrategy,
    pub max_states: usize,
}

impl Default for PtStateGraphConfig {
    fn default() -> (r: Self)
        ensures
            r.strategy == PtSearchStrategy::BreadthFirst,
            r.max_states == 10_000,
    {
        PtStateGraphConfig { strategy: PtSearchStrategy::BreadthFirst, max_states: 10_000 }
    }
}

/// One place as seen in one state.
#[derive(Clone, Debug, PartialEq, Eq)]
pub struct PtPlaceSnapshot {
    pub id: PlaceId,
    pub name: String,
    pub tokens: u64,
    pub metadata: Option<PlaceMetadata>,
}

/// The token count of one place before and after a firing.
#[derive(Clone, Copy, Debug, PartialEq, Eq, Structural)]
pub struct TokenChange {
    pub place: PlaceId,
    pub before: u64,
    pub after: u64,
}

/// A firing from one state to another.
#[derive(Clone, Debug, PartialEq, Eq)]
pub struct PtEdge {
    pub source: PtStateId,
    pub target: PtStateId,
    pub transition: TransitionId,
    pub transition_metadata: Option<TransitionMetadata>,
    pub changes: Vec<TokenChange>,
    pub arcs: Vec<PtArc>,
}

/// A reachable marking with its enabled transitions and place snapshots.
#[derive(Clone, Debug, PartialEq, Eq)]
pub struct PtState {
    pub id: PtStateId,
    pub marking: Marking,
    pub enabled: Vec<TransitionId>,
    pub places: Vec<PtPlaceSnapshot>,
}

/// An enabled transition whose firing failed.
#[derive(Clone, Copy, Debug, PartialEq, Eq, Structural)]
pub struct PtTransitionFailure {
    pub source: PtStateId,
    pub transition: TransitionId,
    pub error: PtExecutionError,
}

/// The explored part of the reachability graph of a net.
#[derive(Clone, Debug, PartialEq, Eq)]
pub struct PtStateGraph {
    pub states: Vec<PtState>,
    pub edges: Vec<PtEdge>,
    pub blocked: Vec<PtStateId>,
    pub failures: Vec<PtTransitionFailure>,
    pub truncated: bool,
    pub initial: PtStateId,
}

/// The token changes between two markings on the first `n` places, in place
/// order.
pub open spec fn changes_upto(before: Seq<usize>, after: Seq<usize>, n: nat) -> Seq<TokenChange>
    decreases n,
{
    if n == 0 {
        Seq::empty()
    } else {
        let prev = changes_upto(before, after, (n - 1) as nat);
        let p = n - 1;
        if before[p] != after[p] {
            prev.push(
                TokenChange { place: PlaceId(p as usize), before: before[p] as u64, after: after[p] as u64 },
            )
        } else {
            prev
        }
    }
}

/// The snapshots of every place of `net` in marking `m`.
pub open spec fn place_snapshots(net: PtNet, pm: Seq<PlaceMetadata>, m: Seq<usize>) -> Seq<PtPlaceSnapshot> {
    Seq::new(
        net.places@.len(),
        |p: int|
            PtPlaceSnapshot {
                id: PlaceId(p as usize),
                name: net.places@[p].name,
                tokens: m[p] as u64,
                metadata: if p < pm.len() {
                    Some(pm[p])
                } else {
                    None
                },
            },
    )
}

/// Whether `md` is the metadata entry of transition `t` in `tm`.
pub open spec fn metadata_entry(tm: Seq<TransitionMetadata>, t: TransitionId, md: Option<TransitionMetadata>) -> bool {
    match md {
        Some(x) => t.0 < tm.len() && x.same_as(tm[t.0 as int]),
        None => t.0 >= tm.len(),
    }
}

/// The place metadata handed to an exploration.
pub open spec fn place_md(metadata: Option<(&[PlaceMetadata], &[TransitionMetadata])>) -> Seq<PlaceMetadata> {
    match metadata {
        Some((p, _)) => p@,
        None => Seq::empty(),
    }
}

/// The transition metadata handed to an exploration.
pub open spec fn transition_md(metadata: Option<(&[PlaceMetadata], &[TransitionMetadata])>) -> Seq<
    TransitionMetadata,
> {
    match metadata {
        Some((_, t)) => t@,
        None => Seq::empty(),
    }
}

/// Whether each metadata list is empty or has one entry per place,
/// respectively per transition.
pub open spec fn metadata_fits(net: PtNet, pm: Seq<PlaceMetadata>, tm: Seq<TransitionMetadata>) -> bool {
    &&& (pm.len() == 0 || pm.len() == net.places@.len())
    &&& (tm.len() == 0 || tm.len() == net.transitions@.len())
}

impl PtStateGraph {
    /// The markings of the states, by state index.
    pub open spec fn markings(&self) -> Seq<Seq<usize>> {
        Seq::new(self.states@.len(), |i: int| self.states@[i].marking@)
    }

    /// The enabled lists of the states, by state index.
    pub open spec fn enabled_lists(&self) -> Seq<Seq<TransitionId>> {
        Seq::new(self.states@.len(), |i: int| self.states@[i].enabled@)
    }

    /// The firings of the edges, by edge index.
    pub open spec fn steps(&self) -> Seq<Step> {
        Seq::new(
            self.edges@.len(),
            |k: int|
                Step {
                    source: self.edges@[k].source.0,
                    target: self.edges@[k].target.0,
                    transition: self.edges@[k].transition,
                },
        )
    }

    /// The failed firings, in the order they were met.
    pub open spec fn failed(&self) -> Seq<Failed> {
        Seq::new(
            self.failures@.len(),
            |k: int|
                Failed {
                    source: self.failures@[k].source.0,
                    transition: self.failures@[k].transition,
                    error: self.failures@[k].error,
                },
        )
    }

    /// The indices of the blocked states.
    pub open spec fn blocked_indices(&self) -> Seq<usize> {
        Seq::new(self.blocked@.len(), |k: int| self.blocked@[k].0)
    }

    /// Whether edge `k` carries the token changes of its firing, the arcs of
    /// its transition and the transition's metadata entry.
    pub open spec fn edge_details_ok(&self, net: PtNet, tm: Seq<TransitionMetadata>, k: int) -> bool {
        let e = self.edges@[k];
        let ms = self.markings();
        &&& e.changes@ == changes_upto(ms[e.source.0 as int], ms[e.target.0 as int], net.places@.len())
        &&& e.arcs@ == net.arcs@.filter(arc_of(e.transition))
        &&& metadata_entry(tm, e.transition, e.transition_metadata)
    }

    /// Whether the graph is an exploration of `net` from its initial marking
    /// that keeps at most `max_states` states (see `explored`), whose states
    /// carry their index and place snapshots and whose edges carry their
    /// details.
    pub open spec fn explores(
        &self,
        net: PtNet,
        pm: Seq<PlaceMetadata>,
        tm: Seq<TransitionMetadata>,
        max_states: nat,
    ) -> bool {
        &&& self.initial == PtStateId(0)
        &&& explored(
            net,
            net.initial(),
            max_states,
            self.markings(),
            self.enabled_lists(),
            self.steps(),
            self.blocked_indices(),
            self.failed(),
            self.truncated,
        )
        &&& forall|i: int|
            0 <= i < self.states@.len() ==> (#[trigger] self.states@[i]).id == PtStateId(i as usize)
                && self.states@[i].places@ == place_snapshots(net, pm, self.states@[i].marking@)
        &&& forall|k: int| 0 <= k < self.edges@.len() ==> #[trigger] self.edge_details_ok(net, tm, k)
    }
}

/// The token changes between `before` and `after` on the places of `net`.
fn token_changes(net: &PtNet, before: &Marking, after: &Marking) -> (r: Vec<TokenChange>)
    requires
        before@.len() == net.places@.len(),
        after@.len() == net.places@.len(),
    ensures
        r@ == changes_upto(before@, after@, net.places@.len()),
{
    let mut r: Vec<TokenChange> = Vec::new();
    for p in 0..net.places.len()
        invariant
            before@.len() == net.places@.len(),
            after@.len() == net.places@.len(),
            r@ == changes_upto(before@, after@, p as nat),
    {
        let b = before.0[p];
        let a = after.0[p];
        if b != a {
            r.push(TokenChange { place: PlaceId(p), before: b as u64, after: a as u64 });
        }
    }
    r
}

/// The snapshots of the places of `net` in marking `m`.
fn place_snapshots_of(net: &PtNet, m: &Marking, pm: &[PlaceMetadata]) -> (r: Vec<PtPlaceSnapshot>)
    requires
        m@.len() == net.places@.len(),
    ensures
        r@ == place_snapshots(*net, pm@, m@),
{
    let mut r: Vec<PtPlaceSnapshot> = Vec::new();
    for p in 0..net.places.len()
        invariant
            m@.len() == net.places@.len(),
            r@.len() == p,
            forall|q: int| 0 <= q < p ==> r@[q] == place_snapshots(*net, pm@, m@)[q],
    {
        let metadata = if p < pm.len() {
            Some(pm[p].clone())
        } else {
            None
        };
        r.push(
            PtPlaceSnapshot {
                id: PlaceId(p),
                name: net.places[p].name.clone(),
                tokens: m.0[p] as u64,
                metadata,
            },
        );
    }
    assert(r@ =~= place_snapshots(*net, pm@, m@));
    r
}

/// The metadata entry of transition `t`, if `tm` has one.
fn transition_metadata_of(tm: &[TransitionMetadata], t: TransitionId) -> (r: Option<TransitionMetadata>)
    ensures
        metadata_entry(tm@, t, r),
{
    if t.0 < tm.len() {
        Some(tm[t.0].clone())
    } else {
        None
    }
}

impl PtStateGraph {
    /// Explores the reachability graph of `net` from its initial marking,
    /// expanding pending states in the configured order and keeping at most
    /// `config.max_states` states. Metadata lists, when given, must be empty
    /// or have one entry per place, respectively per transition.
    pub fn explore(
        net: &PtNet,
        metadata: Option<(&[PlaceMetadata], &[TransitionMetadata])>,
        config: PtStateGraphConfig,
    ) -> (r: Result<Self, PtExecutionError>)
        ensures
            match r {
                Ok(g) => {
                    &&& config.max_states > 0
                    &&& net.wf()
                    &&& metadata_fits(*net, place_md(metadata), transition_md(metadata))
                    &&& g.explores(
                        *net,
                        place_md(metadata),
                        transition_md(metadata),
                        config.max_states as nat,
                    )
                },
                Err(e) => {
                    &&& e == PtExecutionError::Model(
                        if config.max_states == 0 {
                            PtModelError::InvalidConfiguration
                        } else if !net.wf() {
                            PtModelError::InvalidArc
                        } else {
                            PtModelError::MetadataLengthMismatch
                        },
                    )
                    &&& (config.max_states == 0 || !net.wf() || !metadata_fits(
                        *net,
                        place_md(metadata),
                        transition_md(metadata),
                    ))
                },
            },
    {
        if config.max_states == 0 {
            return Err(PtExecutionError::Model(PtModelError::InvalidConfiguration));
        }
        match net.validate() {
            Err(e) => {
                return Err(PtExecutionError::Model(e));
            },
            Ok(()) => {},
        }
        let no_places: Vec<PlaceMetadata> = Vec::new();
        let no_transitions: Vec<TransitionMetadata> = Vec::new();
        let (pm, tm): (&[PlaceMetadata], &[TransitionMetadata]) = match metadata {
            Some((p, t)) => (p, t),
            None => (no_places.as_slice(), no_transitions.as_slice()),
        };
        assert(pm@ == place_md(metadata));
        assert(tm@ == transition_md(metadata));
        if (pm.len() != 0 && pm.len() != net.places.len()) || (tm.len() != 0 && tm.len()
            != net.transitions.len()) {
            return Err(PtExecutionError::Model(PtModelError::MetadataLengthMismatch));
        }
        let initial = net.initial_marking();
        let found = search(
            net,
            &initial,
            config.max_states,
            config.strategy == PtSearchStrategy::DepthFirst,
        );
        let ghost ms = found.ms();
        let n = found.markings.len();
        let mut states: Vec<PtState> = Vec::new();
        for i in 0..n
            invariant
                n == found.markings@.len(),
                ms == found.ms(),
                found.enabled@.len() == n,
                forall|j: int| 0 <= j < n ==> (#[trigger] ms[j]).len() == net.places@.len(),
                states@.len() == i,
                forall|j: int|
                    0 <= j < i ==> {
                        let st = #[trigger] states@[j];
                        &&& st.id == PtStateId(j as usize)
                        &&& st.marking@ == ms[j]
                        &&& st.enabled@ == found.enabled@[j]@
                        &&& st.places@ == place_snapshots(*net, pm@, ms[j])
                    },
        {
            assert(ms[i as int] == found.markings@[i as int]@);
            let places = place_snapshots_of(net, &found.markings[i], pm);
            states.push(
                PtState {
                    id: PtStateId(i),
                    marking: found.markings[i].clone(),
                    enabled: copy_ids(&found.enabled[i]),
                    places,
                },
            );
        }
        let mut edges: Vec<PtEdge> = Vec::new();
        for k in 0..found.steps.len()
            invariant
                n == found.markings@.len(),
                ms == found.ms(),
                found.complete(*net, net.initial(), config.max_states as nat),
                edges@.len() == k,
                forall|j: int|
                    0 <= j < k ==> {
                        let e = #[trigger] edges@[j];
                        let st = found.steps@[j];
                        &&& e.source == PtStateId(st.source)
                        &&& e.target == PtStateId(st.target)
                        &&& e.transition == st.transition
                        &&& e.changes@ == changes_upto(ms[st.source as int], ms[st.target as int], net.places@.len())
                        &&& e.arcs@ == net.arcs@.filter(arc_of(st.transition))
                        &&& metadata_entry(tm@, st.transition, e.transition_metadata)
                    },
        {
            let st = found.steps[k];
            assert(crate::analysis::state_space::step_ok(*net, ms, found.steps@[k as int]));
            assert(ms[st.source as int] == found.markings@[st.source as int]@);
            assert(ms[st.target as int] == found.markings@[st.target as int]@);
            let changes = token_changes(net, &found.markings[st.source], &found.markings[st.target]);
            edges.push(
                PtEdge {
                    source: PtStateId(st.source),
                    target: PtStateId(st.target),
                    transition: st.transition,
                    transition_metadata: transition_metadata_of(tm, st.transition),
                    changes,
                    arcs: net.arcs_for(st.transition),
                },
            );
        }
        let mut blocked: Vec<PtStateId> = Vec::new();
        for k in 0..found.blocked.len()
            invariant
                blocked@.len() == k,
                forall|j: int| 0 <= j < k ==> (#[trigger] blocked@[j]).0 == found.blocked@[j],
        {
            blocked.push(PtStateId(found.blocked[k]));
        }
        let mut failures: Vec<PtTransitionFailure> = Vec::new();
        for k in 0..found.failures.len()
            invariant
                failures@.len() == k,
                forall|j: int|
                    0 <= j < k ==> {
                        let f = #[trigger] failures@[j];
                        let g = found.failures@[j];
                        &&& f.source.0 == g.source
                        &&& f.transition == g.transition
                        &&& f.error == g.error
                    },
        {
            let f = found.failures[k];
            failures.push(PtTransitionFailure { source: PtStateId(f.source), transition: f.transition, error: f.error });
        }
        let g = PtStateGraph { states, edges, blocked, failures, truncated: found.truncated, initial: PtStateId(0) };
        proof {
            assert(g.markings() =~= ms);
            assert(g.enabled_lists() =~= crate::analysis::state_space::id_views(found.enabled@));
            assert(g.steps() =~= found.steps@);
            assert(g.blocked_indices() =~= found.blocked@);
            assert(g.failed() =~= found.failures@);
            assert forall|k: int| 0 <= k < g.edges@.len() implies #[trigger] g.edge_details_ok(*net, tm@, k) by {
                assert(g.edges@[k].source.0 == found.steps@[k].source);
            }
        }
        Ok(g)
    }
}

/// Every state of an explored graph holds a marking reachable from the
/// initial marking of the net.
pub proof fn law_explored_states_are_reachable(
    g: PtStateGraph,
    net: PtNet,
    pm: Seq<PlaceMetadata>,
    tm: Seq<TransitionMetadata>,
    max_states: nat,
    i: int,
)
    requires
        g.explores(net, pm, tm, max_states),
        0 <= i < g.states@.len(),
    ensures
        net.reachable(net.initial(), g.markings()[i]),
{
    law_explored_markings_are_reachable(
        net,
        net.initial(),
        max_states,
        g.markings(),
        g.enabled_lists(),
        g.steps(),
        g.blocked_indices(),
        g.failed(),
        g.truncated,
        i,
    );
}

/// An exploration that the state limit did not cut short holds every
/// marking reachable from the initial marking.
pub proof fn law_complete_exploration_covers_reachable(
    g: PtStateGraph,
    net: PtNet,
    pm: Seq<PlaceMetadata>,
    tm: Seq<TransitionMetadata>,
    max_states: nat,
    w: Seq<TransitionId>,
)
    requires
        g.explores(net, pm, tm, max_states),
        !g.truncated,
        net.run(net.initial(), w) is Some,
    ensures
        exists|i: int| 0 <= i < g.states@.len() && g.markings()[i] == net.run(net.initial(), w)->0,
{
    law_complete_search_covers_reachable(
        net,
        net.initial(),
        max_states,
        g.markings(),
        g.enabled_lists(),
        g.steps(),
        g.blocked_indices(),
        g.failed(),
        w,
    );
}

/// Whether `e` is the first edge of `edges` into its target.
pub open spec fn first_into(edges: Seq<PtEdge>, e: PtEdge) -> bool {
    exists|k: int|
        #![trigger edges[k]]
        0 <= k < edges.len() && edges[k] == e && forall|k2: int|
            0 <= k2 < k ==> #[trigger] edges[k2].target != e.target
}

impl PtStateGraph {
    /// Whether the first edge into every state but the initial one comes
    /// from a state of smaller index, so that following first edges backwards
    /// always ends at the initial state.
    pub open spec fn traceable(&self) -> bool {
        &&& self.initial == PtStateId(0)
        &&& forall|k: int|
            0 <= k < self.edges@.len() ==> (#[trigger] self.edges@[k]).target.0 < self.states@.len()
        &&& forall|j: int| 0 < j < self.states@.len() ==> #[trigger] discovered(self.steps(), j)
    }

    /// The edges of the graph leaving `source`, in the order they were found.
    pub open spec fn outgoing_edges(&self, source: PtStateId) -> Seq<PtEdge> {
        self.edges@.filter(|e: PtEdge| e.source == source)
    }

    /// The edges of the graph entering `target`, in the order they were found.
    pub open spec fn incoming_edges(&self, target: PtStateId) -> Seq<PtEdge> {
        self.edges@.filter(|e: PtEdge| e.target == target)
    }

    /// Explores the reachability graph of the net of `bug_net`, with its
    /// metadata, after checking that the metadata is aligned with the net.
    pub fn explore_bug_net(bug_net: &BugNet, config: PtStateGraphConfig) -> (r: Result<Self, PtExecutionError>)
        ensures
            match r {
                Ok(g) => {
                    &&& config.max_states > 0
                    &&& bug_net.net.wf()
                    &&& bug_net.aligned()
                    &&& g.explores(
                        bug_net.net,
                        bug_net.places@,
                        bug_net.transitions@,
                        config.max_states as nat,
                    )
                },
                Err(e) => {
                    &&& e == PtExecutionError::Model(
                        if !bug_net.net.wf() {
                            PtModelError::InvalidArc
                        } else if !bug_net.aligned() {
                            PtModelError::MetadataLengthMismatch
                        } else {
                            PtModelError::InvalidConfiguration
                        },
                    )
                    &&& (!bug_net.net.wf() || !bug_net.aligned() || config.max_states == 0)
                },
            },
    {
        match bug_net.validate() {
            Err(e) => {
                return Err(PtExecutionError::Model(e));
            },
            Ok(()) => {},
        }
        Self::explore(
            &bug_net.net,
            Some((bug_net.places.as_slice(), bug_net.transitions.as_slice())),
            config,
        )
    }

    /// The state `id`, if the graph has it.
    pub fn state(&self, id: PtStateId) -> (r: Option<&PtState>)
        ensures
            r == if id.0 < self.states@.len() {
                Some(&self.states@[id.0 as int])
            } else {
                None
            },
    {
        if id.0 < self.states.len() {
            Some(&self.states[id.0])
        } else {
            None
        }
    }

    /// The edges leaving `source`, in the order they were found.
    pub fn outgoing(&self, source: PtStateId) -> (r: Vec<&PtEdge>)
        ensures
            r@.len() == self.outgoing_edges(source).len(),
            forall|i: int| 0 <= i < r@.len() ==> *r@[i] == self.outgoing_edges(source)[i],
    {
        let ghost pred = |e: PtEdge| e.source == source;
        let mut r: Vec<&PtEdge> = Vec::new();
        for k in 0..self.edges.len()
            invariant
                pred == (|e: PtEdge| e.source == source),
                r@.len() == self.edges@.take(k as int).filter(pred).len(),
                forall|i: int| 0 <= i < r@.len() ==> *r@[i] == self.edges@.take(k as int).filter(pred)[i],
        {
            proof {
                assert(self.edges@.take(k + 1) == self.edges@.take(k as int).push(self.edges@[k as int]));
                self.edges@.take(k as int).lemma_filter_push(self.edges@[k as int], pred);
            }
            if self.edges[k].source == source {
                r.push(&self.edges[k]);
            }
        }
        assert(self.edges@.take(self.edges@.len() as int) == self.edges@);
        r
    }

    /// The edges entering `target`, in the order they were found.
    pub fn incoming(&self, target: PtStateId) -> (r: Vec<&PtEdge>)
        ensures
            r@.len() == self.incoming_edges(target).len(),
            forall|i: int| 0 <= i < r@.len() ==> *r@[i] == self.incoming_edges(target)[i],
    {
        let ghost pred = |e: PtEdge| e.target == target;
        let mut r: Vec<&PtEdge> = Vec::new();
        for k in 0..self.edges.len()
            invariant
                pred == (|e: PtEdge| e.target == target),
                r@.len() == self.edges@.take(k as int).filter(pred).len(),
                forall|i: int| 0 <= i < r@.len() ==> *r@[i] == self.edges@.take(k as int).filter(pred)[i],
        {
            proof {
                assert(self.edges@.take(k + 1) == self.edges@.take(k as int).push(self.edges@[k as int]));
                self.edges@.take(k as int).lemma_filter_push(self.edges@[k as int], pred);
            }
            if self.edges[k].target == target {
                r.push(&self.edges[k]);
            }
        }
        assert(self.edges@.take(self.edges@.len() as int) == self.edges@);
        r
    }

    /// The index of the first edge into `target`, if there is one.
    fn first_edge_into(&self, target: PtStateId) -> (r: Option<usize>)
        ensures
            match r {
                Some(k) => k < self.edges@.len() && self.edges@[k as int].target == target
                    && forall|k2: int| 0 <= k2 < k ==> #[trigger] self.edges@[k2].target != target,
                None => forall|k2: int| 0 <= k2 < self.edges@.len() ==> #[trigger] self.edges@[k2].target != target,
            },
    {
        for k in 0..self.edges.len()
            invariant
                forall|k2: int| 0 <= k2 < k ==> #[trigger] self.edges@[k2].target != target,
        {
            if self.edges[k].target == target {
                return Some(k);
            }
        }
        None
    }

    /// The path from the initial state to `target` that follows, backwards,
    /// the first edge into each state; `None` if there is no such state.
    #[verifier::rlimit(30)]
    pub fn path_to(&self, target: PtStateId) -> (r: Option<Vec<&PtEdge>>)
        requires
            self.traceable(),
        ensures
            match r {
                None => target.0 >= self.states@.len(),
                Some(path) => {
                    &&& target.0 < self.states@.len()
                    &&& path@.len() == 0 ==> target == self.initial
                    &&& path@.len() > 0 ==> path@[0].source == self.initial && path@[path@.len()
                        - 1].target == target
                    &&& forall|i: int|
                        0 <= i < path@.len() - 1 ==> (#[trigger] path@[i]).target == path@[i + 1].source
                    &&& forall|i: int| 0 <= i < path@.len() ==> first_into(self.edges@, *#[trigger] path@[i])
                    &&& forall|i: int| 0 <= i < path@.len() ==> self.edges@.contains(*#[trigger] path@[i])
                },
            },
    {
        if target.0 >= self.states.len() {
            return None;
        }
        let mut back: Vec<&PtEdge> = Vec::new();
        let mut current = target;
        while current != self.initial
            invariant
                self.traceable(),
                current.0 < self.states@.len(),
                back@.len() == 0 ==> current == target,
                back@.len() > 0 ==> back@[0].target == target && back@[back@.len() - 1].source
                    == current,
                forall|i: int| 0 <= i < back@.len() - 1 ==> (#[trigger] back@[i]).source == back@[i + 1].target,
                forall|i: int| 0 <= i < back@.len() ==> first_into(self.edges@, *#[trigger] back@[i]),
            decreases current.0,
        {
            proof {
                assert(discovered(self.steps(), current.0 as int));
            }
            let k = match self.first_edge_into(current) {
                Some(k) => k,
                None => {
                    return None;
                },
            };
            let edge = &self.edges[k];
            proof {
                let steps = self.steps();
                let kd = choose|kd: int|
                    #![trigger steps[kd]]
                    0 <= kd < steps.len() && steps[kd].target == current.0 && steps[kd].source
                        < current.0 && forall|k2: int|
                        0 <= k2 < kd ==> #[trigger] steps[k2].target != current.0;
                assert(kd == k) by {
                    if kd < k {
                        assert(self.edges@[kd].target == current);
                    } else if k < kd {
                        assert(steps[k as int].target == current.0);
                    }
                }
                assert(first_into(self.edges@, *edge));
            }
            back.push(edge);
            current = edge.source;
        }
        let mut path: Vec<&PtEdge> = Vec::new();
        let n = back.len();
        for i in 0..n
            invariant
                n == back@.len(),
                path@.len() == i,
                forall|j: int| 0 <= j < i ==> path@[j] == back@[n - 1 - j],
        {
            path.push(back[n - 1 - i]);
        }
        assert forall|i: int| 0 <= i < path@.len() implies self.edges@.contains(*#[trigger] path@[i]) by {
            lemma_first_into_member(self.edges@, *path@[i]);
        }
        Some(path)
    }
}

/// The first edge into a state is an edge of the graph.
proof fn lemma_first_into_member(edges: Seq<PtEdge>, e: PtEdge)
    requires
        first_into(edges, e),
    ensures
        edges.contains(e),
{
    let k = choose|k: int|
        #![trigger edges[k]]
        0 <= k < edges.len() && edges[k] == e && forall|k2: int| 0 <= k2 < k ==> #[trigger] edges[k2].target != e.target;
    assert(edges[k] == e);
}

/// An explored graph can be traced back from any state to the initial one.
pub proof fn lemma_explored_graph_is_traceable(
    g: PtStateGraph,
    net: PtNet,
    pm: Seq<PlaceMetadata>,
    tm: Seq<TransitionMetadata>,
    max_states: nat,
)
    requires
        g.explores(net, pm, tm, max_states),
    ensures
        g.traceable(),
{
    assert forall|k: int| 0 <= k < g.edges@.len() implies (#[trigger] g.edges@[k]).target.0 < g.states@.len() by {
        assert(crate::analysis::state_space::step_ok(net, g.markings(), g.steps()[k]));
    }
}

} // verus!
