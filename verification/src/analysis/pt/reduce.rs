//! Structural reduction of P/T nets: removal of token-free simple loops and
//! elimination of intermediate places, with a trace back to the original
//! nodes.
use vstd::prelude::*;

use crate::bug::TransitionType;
use crate::ids::{PlaceId, TransitionId};
use crate::pt::{Marking, PtNet, PtPlace};
use crate::text::{push_str, string_of};

pub mod graph;
pub mod intermediate_place;
pub mod loop_removal;

pub use graph::ReductionTrace;

use graph::{lemma_live_places_bound, lemma_live_places_index, lemma_live_places_present, live_places, MaterializedNet, ReductionGraph};
use loop_removal::is_resource;

verus! {

/// One reduction performed.
#[derive(Debug, Clone)]
pub enum ReductionStep {
    /// A simple loop of empty places was removed.
    LoopRemoved { removed_places: Vec<PlaceId>, removed_transitions: Vec<TransitionId> },
    /// A linear sequence was merged.
    SequenceMerged {
        head_places: Vec<PlaceId>,
        tail_places: Vec<PlaceId>,
        merged_transitions: Vec<TransitionId>,
        removed_places: Vec<PlaceId>,
    },
    /// An intermediate place was eliminated and its two transitions merged.
    IntermediatePlaceEliminated { places: Vec<PlaceId>, merged_transitions: Vec<TransitionId> },
}

/// Whether transitions of type `t` are seen by detection, so that reduction
/// must keep them as nodes of their own.
pub open spec fn preserves_type(t: TransitionType) -> bool {
    t is UnsafeAccess || t is UnsafeRead || t is UnsafeWrite
}

/// Whether transitions of type `t` must survive reduction as nodes of their
/// own.
pub fn preserves_transition_type(t: &TransitionType) -> (r: bool)
    ensures
        r == preserves_type(*t),
{
    matches!(t, TransitionType::UnsafeAccess(_) | TransitionType::UnsafeRead(_) | TransitionType::UnsafeWrite(_))
}

/// Whether `a` and `b` are the same transition type, names compared by
/// their characters.
pub open spec fn same_kind(a: TransitionType, b: TransitionType) -> bool {
    match (a, b) {
        (TransitionType::Other(x), TransitionType::Other(y)) => x@ == y@,
        _ => a == b,
    }
}

/// Whether `a` and `b` are the same transition type; neither may be one that
/// reduction preserves.
pub fn same_kind_of(a: &TransitionType, b: &TransitionType) -> (r: bool)
    requires
        !preserves_type(*a),
        !preserves_type(*b),
    ensures
        r == same_kind(*a, *b),
{
    match (a, b) {
        (TransitionType::Start { thread: x }, TransitionType::Start { thread: y }) => *x == *y,
        (TransitionType::Goto, TransitionType::Goto) => true,
        (TransitionType::Switch, TransitionType::Switch) => true,
        (TransitionType::Return { thread: x }, TransitionType::Return { thread: y }) => *x == *y,
        (TransitionType::Lock { resource: x }, TransitionType::Lock { resource: y }) => *x == *y,
        (TransitionType::Unlock { resource: x }, TransitionType::Unlock { resource: y }) => *x == *y,
        (TransitionType::RwLockRead { resource: x }, TransitionType::RwLockRead { resource: y }) => *x == *y,
        (TransitionType::RwLockWrite { resource: x }, TransitionType::RwLockWrite { resource: y }) => *x == *y,
        (TransitionType::Wait { resource: x }, TransitionType::Wait { resource: y }) => *x == *y,
        (TransitionType::Notify { resource: x }, TransitionType::Notify { resource: y }) => *x == *y,
        (TransitionType::Spawn { thread: x }, TransitionType::Spawn { thread: y }) => *x == *y,
        (TransitionType::Join { thread: x }, TransitionType::Join { thread: y }) => *x == *y,
        (
            TransitionType::AtomicLoad { alias: a1, ordering: o1, thread: t1 },
            TransitionType::AtomicLoad { alias: a2, ordering: o2, thread: t2 },
        ) => *a1 == *a2 && *o1 == *o2 && *t1 == *t2,
        (
            TransitionType::AtomicStore { alias: a1, ordering: o1, thread: t1 },
            TransitionType::AtomicStore { alias: a2, ordering: o2, thread: t2 },
        ) => *a1 == *a2 && *o1 == *o2 && *t1 == *t2,
        (
            TransitionType::AtomicCmpXchg { alias: a1, success: s1, failure: f1, thread: t1 },
            TransitionType::AtomicCmpXchg { alias: a2, success: s2, failure: f2, thread: t2 },
        ) => *a1 == *a2 && *s1 == *s2 && *f1 == *f2 && *t1 == *t2,
        (TransitionType::Function, TransitionType::Function) => true,
        (TransitionType::Normal, TransitionType::Normal) => true,
        (TransitionType::Inhibitor, TransitionType::Inhibitor) => true,
        (TransitionType::Reset, TransitionType::Reset) => true,
        (TransitionType::Other(x), TransitionType::Other(y)) => *x == *y,
        _ => false,
    }
}

/// The nets after each stage of a reduction.
#[derive(Debug, Clone)]
pub struct ReductionStageNets {
    pub after_loop: PtNet,
    pub after_sequence: PtNet,
    pub after_intermediate: PtNet,
}

/// Why a reduction failed.
#[derive(Debug)]
pub enum ReductionError {
    /// A validator rejected an intermediate net, with its message.
    ValidationFailed(String),
}

impl ReductionError {
    /// The text of the error.
    pub fn message(&self) -> (r: String)
        ensures
            match self {
                ReductionError::ValidationFailed(msg) => r@ == "validator rejected reduced net: "@ + msg@,
            },
    {
        match self {
            ReductionError::ValidationFailed(msg) => {
                let mut r = string_of("validator rejected reduced net: ");
                push_str(&mut r, msg.as_str());
                r
            },
        }
    }
}

/// Whether `e` reports a validator's rejection with message `inner`.
pub open spec fn rejected_with(e: ReductionError, inner: Seq<char>) -> bool {
    match e {
        ReductionError::ValidationFailed(m) => m@ == "validator rejected reduced net: "@ + inner,
    }
}

/// A check that a reduction runs on the net and marking after each stage
/// that changed the net.
pub trait ReductionValidator {
    /// Accepts or rejects a net in a marking.
    fn check(&self, net: &PtNet, marking: &Marking) -> Result<(), ReductionError>;
}

/// The checks a reduction runs.
pub struct ReductionOptions<V> {
    /// Invariant checks, run after each stage that changed the net.
    pub invariant_checker: Option<V>,
    /// Property checks, run after each stage that changed the net.
    pub property_checker: Option<V>,
}

impl<V> Default for ReductionOptions<V> {
    fn default() -> (r: Self)
        ensures
            r.invariant_checker is None,
            r.property_checker is None,
    {
        ReductionOptions { invariant_checker: None, property_checker: None }
    }
}

/// A reduced net with its marking, its trace back to the original nodes,
/// the reductions performed and the net after each stage.
#[derive(Debug)]
pub struct ReductionResult {
    pub net: PtNet,
    pub marking: Marking,
    pub trace: ReductionTrace,
    pub steps: Vec<ReductionStep>,
    pub stage_nets: ReductionStageNets,
}

/// Runs the reduction stages with the given checks.
pub struct Reducer<V> {
    options: ReductionOptions<V>,
}

/// Place `q` holding `tokens` tokens.
pub open spec fn with_tokens(q: PtPlace, tokens: usize) -> PtPlace {
    PtPlace { tokens, ..q }
}

/// Whether `net`, `marking` and `trace` reduce `orig` in `m0`: the net is
/// well formed and marked; each of its places stands for exactly one place
/// of `orig`, is that place with its tokens in `m0`, and holds them; and
/// every place of `orig` that holds a token in `m0` or stands for a resource
/// is kept.
pub open spec fn reduces(net: PtNet, marking: Seq<usize>, trace: ReductionTrace, orig: PtNet, m0: Seq<usize>) -> bool {
    let n = orig.places@.len();
    &&& net.wf()
    &&& marking.len() == net.places@.len()
    &&& trace.place_mapping@.len() == net.places@.len()
    &&& trace.transition_mapping@.len() == net.transitions@.len()
    &&& forall|i: int|
        0 <= i < net.places@.len() ==> {
            let o = (#[trigger] trace.place_mapping@[i])@;
            &&& o.len() == 1
            &&& o[0].0 < n
            &&& net.places@[i] == with_tokens(orig.places@[o[0].0 as int], m0[o[0].0 as int])
            &&& marking[i] == m0[o[0].0 as int]
        }
    &&& forall|p: int|
        0 <= p < n && (m0[p] > 0 || is_resource(orig.places@[p].place_type)) ==> exists|i: int|
            0 <= i < net.places@.len() && (#[trigger] trace.place_mapping@[i])@ == seq![PlaceId(p as usize)]
}

/// Whether graph `g` is the working graph of `net` in `m0`, as far as its
/// places go.
pub open spec fn places_of(g: ReductionGraph, net: PtNet, m0: Seq<usize>) -> bool {
    &&& g.places@.len() == net.places@.len()
    &&& m0.len() == net.places@.len()
    &&& forall|p: int|
        0 <= p < g.places@.len() ==> {
            let q = #[trigger] g.places@[p];
            &&& q.place == with_tokens(net.places@[p], m0[p])
            &&& q.originals@ == seq![PlaceId(p as usize)]
            &&& !q.removed
        }
}

/// A graph that kept the nodes of one that kept the nodes of `a` keeps the
/// nodes of `a`, and removed only empty places from it if both steps did.
proof fn lemma_keeps_chain(a: ReductionGraph, b: ReductionGraph, c: ReductionGraph)
    requires
        b.keeps_nodes(a),
        c.keeps_nodes(b),
        b.removed_only_empty_places(a),
        c.removed_only_empty_places(b),
    ensures
        c.keeps_nodes(a),
        c.removed_only_empty_places(a),
{
    assert forall|p: int|
        0 <= p < a.places@.len() && !a.places@[p].removed && (#[trigger] c.places@[p]).removed
            implies a.places@[p].place.tokens == 0 && !is_resource(a.places@[p].place.place_type) by {
        if !b.places@[p].removed {
            assert(b.places@[p].place == a.places@[p].place);
        }
    }
    assert forall|t: int| 0 <= t < a.transitions@.len() implies (#[trigger] c.transitions@[t]).transition
        == a.transitions@[t].transition && c.transitions@[t].originals@ == a.transitions@[t].originals@
        && (a.transitions@[t].removed ==> c.transitions@[t].removed) by {
        assert(b.transitions@[t].transition == a.transitions@[t].transition);
    }
}

/// What a working graph shows, after it kept the places of the working graph
/// of `orig` in `m0` and removed only empty ones, reduces `orig` in `m0`.
proof fn lemma_shows_reduces(g0: ReductionGraph, g: ReductionGraph, orig: PtNet, m0: Seq<usize>, m: MaterializedNet)
    requires
        places_of(g0, orig, m0),
        orig.places@.len() <= usize::MAX,
        g.keeps_nodes(g0),
        g.removed_only_empty_places(g0),
        g.shows(m),
    ensures
        reduces(m.net, m.marking@, m.trace, orig, m0),
{
    let ps = g.places@;
    let n = ps.len();
    let lp = live_places(ps, n);
    lemma_live_places_bound(ps, n);
    assert forall|i: int| 0 <= i < m.net.places@.len() implies {
        let o = (#[trigger] m.trace.place_mapping@[i])@;
        &&& o.len() == 1
        &&& o[0].0 < orig.places@.len()
        &&& m.net.places@[i] == with_tokens(orig.places@[o[0].0 as int], m0[o[0].0 as int])
        &&& m.marking@[i] == m0[o[0].0 as int]
    } by {
        let q = lp[i];
        assert(0 <= q < n);
        assert(ps[q].originals@ == g0.places@[q].originals@);
        assert(ps[q].place == g0.places@[q].place);
        assert(g0.places@[q].originals@ == seq![PlaceId(q as usize)]);
        assert(m.trace.place_mapping@[i]@[0].0 == q);
    }
    assert forall|p: int|
        0 <= p < orig.places@.len() && (m0[p] > 0 || is_resource(orig.places@[p].place_type)) implies exists|i: int|
            0 <= i < m.net.places@.len() && (#[trigger] m.trace.place_mapping@[i])@ == seq![PlaceId(p as usize)] by {
        assert(g0.places@[p].place == with_tokens(orig.places@[p], m0[p]));
        assert(!ps[p].removed);
        lemma_live_places_index(ps, n, p);
        let i = live_places(ps, p as nat).len() as int;
        assert(ps[p].originals@ == g0.places@[p].originals@);
        assert(m.trace.place_mapping@[i]@ == seq![PlaceId(p as usize)]);
    }
}

impl<V: ReductionValidator> Reducer<V> {
    /// A reducer running the given checks.
    pub fn new(options: ReductionOptions<V>) -> (r: Self)
        ensures
            r.options() == options,
    {
        Reducer { options }
    }

    /// The checks this reducer runs.
    pub closed spec fn options(&self) -> ReductionOptions<V> {
        self.options
    }

    /// Runs the checks on what `graph` shows; succeeds at once when there
    /// are none. A rejection is reported as the checker's own message after
    /// the words that say a validator rejected the reduced net.
    fn validate(&self, graph: &ReductionGraph) -> (r: Result<(), ReductionError>)
        requires
            graph.wf(),
        ensures
            self.options.invariant_checker is None && self.options.property_checker is None ==> r is Ok,
            r is Err ==> exists|inner: Seq<char>|
                #[trigger] rejected_with(r->Err_0, inner),
    {
        if self.options.invariant_checker.is_none() && self.options.property_checker.is_none() {
            return Ok(());
        }
        let materialized = graph.materialize();
        match &self.options.invariant_checker {
            Some(checker) => match checker.check(&materialized.net, &materialized.marking) {
                Ok(()) => {},
                Err(e) => {
                    let msg = e.message();
                    let rejection: Result<(), ReductionError> = Err(ReductionError::ValidationFailed(msg));
                    proof {
                        let inner = match e {
                            ReductionError::ValidationFailed(m) => m@,
                        };
                        assert(rejected_with(rejection->Err_0, inner));
                    }
                    return rejection;
                },
            },
            None => {},
        }
        match &self.options.property_checker {
            Some(checker) => match checker.check(&materialized.net, &materialized.marking) {
                Ok(()) => {},
                Err(e) => {
                    let msg = e.message();
                    let rejection: Result<(), ReductionError> = Err(ReductionError::ValidationFailed(msg));
                    proof {
                        let inner = match e {
                            ReductionError::ValidationFailed(m) => m@,
                        };
                        assert(rejected_with(rejection->Err_0, inner));
                    }
                    return rejection;
                },
            },
            None => {},
        }
        Ok(())
    }

    /// Reduces `net` in `marking`: removes token-free simple loops, then
    /// eliminates intermediate places, running the checks after each stage
    /// that changed the net. The result keeps every place that holds a
    /// token or stands for a resource, and traces each place back to the
    /// one place of `net` it is.
    pub fn reduce(&self, net: &PtNet, marking: &Marking) -> (r: Result<ReductionResult, ReductionError>)
        requires
            net.wf(),
            marking@.len() == net.places@.len(),
            net.transitions@.len() + net.places@.len() < usize::MAX,
        ensures
            self.options().invariant_checker is None && self.options().property_checker is None ==> r is Ok,
            match r {
                Ok(res) => {
                    &&& reduces(res.net, res.marking@, res.trace, *net, marking@)
                    &&& res.stage_nets.after_intermediate.same_as(res.net)
                    &&& forall|k: int|
                        0 <= k < res.steps@.len() ==> (#[trigger] res.steps@[k]) is LoopRemoved
                            || res.steps@[k] is IntermediatePlaceEliminated
                },
                Err(e) => e is ValidationFailed,
            },
    {
        let mut graph = ReductionGraph::from_net(net, marking);
        let ghost g0 = graph;
        assert(places_of(g0, *net, marking@));
        let mut steps: Vec<ReductionStep> = Vec::new();

        let mut loop_steps = graph.remove_simple_loops();
        let ghost g1 = graph;
        if loop_steps.len() > 0 {
            steps.append(&mut loop_steps);
            match self.validate(&graph) {
                Ok(()) => {},
                Err(e) => {
                    return Err(e);
                },
            }
        }
        let after_loop = graph.materialize().net;

        // No linear sequence is merged: the sequence stage leaves the net as
        // the loop stage left it.
        let after_sequence = graph.materialize().net;

        let mut intermediate_steps = graph.eliminate_intermediate_places();
        let ghost g2 = graph;
        if intermediate_steps.len() > 0 {
            steps.append(&mut intermediate_steps);
            match self.validate(&graph) {
                Ok(()) => {},
                Err(e) => {
                    return Err(e);
                },
            }
        }
        let after_intermediate = graph.materialize().net;
        let m = graph.materialize();
        proof {
            assert(after_intermediate.places@ =~= m.net.places@);
            assert forall|i: int| 0 <= i < m.net.transitions@.len() implies (#[trigger] after_intermediate.transitions@[i]).name
                == m.net.transitions@[i].name && after_intermediate.transitions@[i].transition_type.same_as(
                m.net.transitions@[i].transition_type) by {
                let lt = graph::live_transitions(graph.transitions@, graph.transitions@.len());
                let x = graph.transitions@[lt[i]].transition.transition_type;
                assert(after_intermediate.transitions@[i].transition_type.same_as(x));
                assert(m.net.transitions@[i].transition_type.same_as(x));
            }
            lemma_keeps_chain(g0, g1, g2);
            lemma_shows_reduces(g0, g2, *net, marking@, m);
        }
        let MaterializedNet { net: reduced_net, marking: reduced_marking, trace } = m;
        Ok(
            ReductionResult {
                net: reduced_net,
                marking: reduced_marking,
                trace,
                steps,
                stage_nets: ReductionStageNets { after_loop, after_sequence, after_intermediate },
            },
        )
    }
}

/// Reduces `net` in `marking` with the given checks.
pub fn reduce<V: ReductionValidator>(net: &PtNet, marking: &Marking, options: ReductionOptions<V>) -> (r: Result<
    ReductionResult,
    ReductionError,
>)
    requires
        net.wf(),
        marking@.len() == net.places@.len(),
        net.transitions@.len() + net.places@.len() < usize::MAX,
    ensures
        options.invariant_checker is None && options.property_checker is None ==> r is Ok,
        match r {
            Ok(res) => {
                &&& reduces(res.net, res.marking@, res.trace, *net, marking@)
                &&& res.stage_nets.after_intermediate.same_as(res.net)
                &&& forall|k: int|
                    0 <= k < res.steps@.len() ==> (#[trigger] res.steps@[k]) is LoopRemoved
                        || res.steps@[k] is IntermediatePlaceEliminated
            },
            Err(e) => e is ValidationFailed,
        },
{
    Reducer::new(options).reduce(net, marking)
}

/// Reduces `net` in `marking` with the given checks; the same as [`reduce`].
pub fn reduce_in_place<V: ReductionValidator>(net: &PtNet, marking: &Marking, options: ReductionOptions<V>) -> (r: Result<
    ReductionResult,
    ReductionError,
>)
    requires
        net.wf(),
        marking@.len() == net.places@.len(),
        net.transitions@.len() + net.places@.len() < usize::MAX,
    ensures
        options.invariant_checker is None && options.property_checker is None ==> r is Ok,
        match r {
            Ok(res) => {
                &&& reduces(res.net, res.marking@, res.trace, *net, marking@)
                &&& res.stage_nets.after_intermediate.same_as(res.net)
                &&& forall|k: int|
                    0 <= k < res.steps@.len() ==> (#[trigger] res.steps@[k]) is LoopRemoved
                        || res.steps@[k] is IntermediatePlaceEliminated
            },
            Err(e) => e is ValidationFailed,
        },
{
    reduce(net, marking, options)
}

} // verus!
