//! Search orders and configuration of reachability exploration, and the
//! worklist that serves pending states in either order.
use std::collections::VecDeque;
use vstd::prelude::*;

use crate::ids::TransitionId;
use crate::pt::{Marking, PtExecutionError, PtNet};
use vstd::std_specs::cmp::PartialEqSpec;

verus! {

/// The order in which discovered states are expanded.
#[derive(Clone, Copy, Debug, PartialEq, Eq, Structural)]
pub enum SearchStrategy {
    /// Oldest pending state first.
    BreadthFirst,
    /// Newest pending state first.
    DepthFirst,
}

/// How an exploration is run: its order and the largest number of states.
#[derive(Clone, Copy, Debug, PartialEq, Eq, Structural)]
pub struct ExploreConfig {
    pub strategy: SearchStrategy,
    pub max_states: usize,
}

impl Default for ExploreConfig {
    fn default() -> (r: Self)
        ensures
            r.strategy == SearchStrategy::BreadthFirst,
            r.max_states == 10_000,
    {
        ExploreConfig { strategy: SearchStrategy::BreadthFirst, max_states: 10_000 }
    }
}

/// Index of a state in an explored graph.
#[derive(Clone, Copy, Debug, PartialEq, Eq, Hash, Structural)]
pub struct StateId(pub usize);

/// A firing between two states, with the binding it used.
#[derive(Clone, Debug)]
pub struct Edge<B> {
    pub source: StateId,
    pub target: StateId,
    pub transition: TransitionId,
    pub binding: B,
}

/// Why an exploration stopped.
#[derive(Clone, Copy, Debug, PartialEq, Eq, Structural)]
pub enum AnalysisError {
    /// The state limit is zero.
    InvalidConfiguration { max_states: usize },
    /// The initial state could not be built.
    Initial { source: PtExecutionError },
    /// The enabled transitions of a state could not be listed.
    Enabled { state: StateId, source: PtExecutionError },
    /// A transition could not be fired.
    Fire { state: StateId, transition: TransitionId, source: PtExecutionError },
}

/// The pending states of an exploration, served oldest first or newest
/// first.
pub struct Worklist {
    pending: VecDeque<StateId>,
    strategy: SearchStrategy,
}

impl Worklist {
    /// The pending states, oldest first.
    pub closed spec fn pending(&self) -> Seq<StateId> {
        self.pending@
    }

    /// The order in which states are served.
    pub closed spec fn strategy(&self) -> SearchStrategy {
        self.strategy
    }

    /// The worklist holding only `root`.
    pub fn new(strategy: SearchStrategy, root: StateId) -> (r: Self)
        ensures
            r.pending() == seq![root],
            r.strategy() == strategy,
    {
        let mut pending = VecDeque::new();
        pending.push_back(root);
        Worklist { pending, strategy }
    }

    /// Serves the oldest pending state breadth first, the newest depth
    /// first; `None` when nothing is pending.
    pub fn pop(&mut self) -> (r: Option<StateId>)
        ensures
            final(self).strategy() == old(self).strategy(),
            old(self).pending().len() == 0 ==> r is None && final(self).pending() == old(self).pending(),
            old(self).pending().len() > 0 ==> match old(self).strategy() {
                SearchStrategy::BreadthFirst => r == Some(old(self).pending()[0])
                    && final(self).pending() == old(self).pending().drop_first(),
                SearchStrategy::DepthFirst => r == Some(old(self).pending().last())
                    && final(self).pending() == old(self).pending().drop_last(),
            },
    {
        match self.strategy {
            SearchStrategy::BreadthFirst => self.pending.pop_front(),
            SearchStrategy::DepthFirst => self.pending.pop_back(),
        }
    }

    /// Adds `state` as the newest pending state.
    pub fn push(&mut self, state: StateId)
        ensures
            final(self).strategy() == old(self).strategy(),
            final(self).pending() == old(self).pending().push(state),
    {
        self.pending.push_back(state);
    }
}

/// A firing: the state it reached and the transition that fired.
pub struct Execution<S> {
    pub state: S,
    pub fired: TransitionId,
}

/// The firing semantics of a kind of net, for its users to implement: the
/// initial state of a model, the transitions (with their bindings) enabled in
/// a state, and the firing of one of them, each stated over the views of the
/// states. Each operation may fail.
pub trait Semantics {
    type Model;
    type State: PartialEq + View;
    type Binding;

    /// The initial state of `model`, or why there is none.
    spec fn initial_spec(&self, model: Self::Model) -> Result<<Self::State as View>::V, PtExecutionError>;

    /// The enabled transitions of `state` with their bindings, in order, or
    /// why they cannot be listed.
    spec fn enabled_spec(&self, model: Self::Model, state: <Self::State as View>::V) -> Result<
        Seq<(TransitionId, Self::Binding)>,
        PtExecutionError,
    >;

    /// The state reached and the transition fired by firing `t` with
    /// `binding` in `state`, or why it fails.
    spec fn fire_spec(
        &self,
        model: Self::Model,
        state: <Self::State as View>::V,
        t: TransitionId,
        binding: Self::Binding,
    ) -> Result<(<Self::State as View>::V, TransitionId), PtExecutionError>;

    /// The initial state of `model`.
    fn initial_state(&self, model: &Self::Model) -> (r: Result<Self::State, PtExecutionError>)
        ensures
            match r {
                Ok(s) => self.initial_spec(*model) == Ok::<<Self::State as View>::V, PtExecutionError>(s@),
                Err(e) => self.initial_spec(*model) == Err::<<Self::State as View>::V, PtExecutionError>(e),
            },
    ;

    /// The enabled transitions of `state` with their bindings.
    fn enabled(&self, model: &Self::Model, state: &Self::State) -> (r: Result<
        Vec<(TransitionId, Self::Binding)>,
        PtExecutionError,
    >)
        ensures
            match r {
                Ok(v) => self.enabled_spec(*model, state@) == Ok::<Seq<(TransitionId, Self::Binding)>, PtExecutionError>(
                    v@,
                ),
                Err(e) => self.enabled_spec(*model, state@) == Err::<Seq<(TransitionId, Self::Binding)>, PtExecutionError>(
                    e,
                ),
            },
    ;

    /// Fires `t` with `binding` in `state`.
    fn fire(&self, model: &Self::Model, state: &Self::State, t: TransitionId, binding: &Self::Binding) -> (r: Result<
        Execution<Self::State>,
        PtExecutionError,
    >)
        ensures
            match r {
                Ok(x) => self.fire_spec(*model, state@, t, *binding) == Ok::<
                    (<Self::State as View>::V, TransitionId),
                    PtExecutionError,
                >((x.state@, x.fired)),
                Err(e) => self.fire_spec(*model, state@, t, *binding) == Err::<
                    (<Self::State as View>::V, TransitionId),
                    PtExecutionError,
                >(e),
            },
    ;
}

/// The transitions below `n` enabled in `m`, each without binding.
pub open spec fn pt_enabled(net: PtNet, m: Seq<usize>, n: nat) -> Seq<(TransitionId, ())>
    decreases n,
{
    if n == 0 {
        Seq::empty()
    } else {
        let prev = pt_enabled(net, m, (n - 1) as nat);
        if net.enabled_in(m, (n - 1) as usize) {
            prev.push((TransitionId((n - 1) as usize), ()))
        } else {
            prev
        }
    }
}

/// The firing semantics of P/T nets: markings as states, no bindings. A
/// marking of the wrong length, or a net whose arcs name missing nodes,
/// enables nothing.
pub struct PtSemantics;

impl Semantics for PtSemantics {
    type Model = PtNet;
    type State = Marking;
    type Binding = ();

    open spec fn initial_spec(&self, model: PtNet) -> Result<Seq<usize>, PtExecutionError> {
        Ok(model.initial())
    }

    open spec fn enabled_spec(&self, model: PtNet, state: Seq<usize>) -> Result<Seq<(TransitionId, ())>, PtExecutionError> {
        if model.wf() && state.len() == model.places@.len() {
            Ok(pt_enabled(model, state, model.transitions@.len()))
        } else {
            Ok(Seq::empty())
        }
    }

    open spec fn fire_spec(&self, model: PtNet, state: Seq<usize>, t: TransitionId, binding: ()) -> Result<
        (Seq<usize>, TransitionId),
        PtExecutionError,
    > {
        if model.wf() && state.len() == model.places@.len() {
            match model.fire_result(state, t.0) {
                Ok(m) => Ok((m, t)),
                Err(e) => Err(e),
            }
        } else {
            Err(PtExecutionError::NotEnabled)
        }
    }

    fn initial_state(&self, model: &PtNet) -> (r: Result<Marking, PtExecutionError>) {
        Ok(model.initial_marking())
    }

    fn enabled(&self, model: &PtNet, state: &Marking) -> (r: Result<Vec<(TransitionId, ())>, PtExecutionError>) {
        if model.validate().is_err() || state.len() != model.places.len() {
            return Ok(Vec::new());
        }
        let mut r: Vec<(TransitionId, ())> = Vec::new();
        let nt = model.transitions.len();
        let mut t: usize = 0;
        while t < nt
            invariant
                t <= nt,
                nt == model.transitions@.len(),
                model.wf(),
                state@.len() == model.places@.len(),
                r@ == pt_enabled(*model, state@, t as nat),
            decreases nt - t,
        {
            if model.is_enabled(state, TransitionId(t)) {
                r.push((TransitionId(t), ()));
            }
            t = t + 1;
        }
        Ok(r)
    }

    fn fire(&self, model: &PtNet, state: &Marking, t: TransitionId, binding: &()) -> (r: Result<
        Execution<Marking>,
        PtExecutionError,
    >) {
        if model.validate().is_err() || state.len() != model.places.len() {
            return Err(PtExecutionError::NotEnabled);
        }
        match model.fire(state, t) {
            Ok(m) => Ok(Execution { state: m, fired: t }),
            Err(e) => Err(e),
        }
    }
}

/// The states reached by an exploration, the firings between them, the
/// states where nothing is enabled, and whether the state limit cut the
/// exploration short.
pub struct ReachabilityGraph<S, B> {
    pub states: Vec<S>,
    pub edges: Vec<Edge<B>>,
    pub blocked: Vec<StateId>,
    pub truncated: bool,
}

/// The edges of `edges` leaving `source`, in order.
pub open spec fn edges_from<B>(edges: Seq<Edge<B>>, source: StateId) -> Seq<Edge<B>> {
    edges.filter(|e: Edge<B>| e.source == source)
}

impl<S, B> ReachabilityGraph<S, B> {
    /// State `id`, if there is one.
    pub fn state(&self, id: StateId) -> (r: Option<&S>)
        ensures
            r == if (id.0 as int) < self.states@.len() {
                Some(&self.states@[id.0 as int])
            } else {
                None::<&S>
            },
    {
        if id.0 < self.states.len() {
            Some(&self.states[id.0])
        } else {
            None
        }
    }

    /// The edges leaving `source`, in order.
    pub fn outgoing(&self, source: StateId) -> (r: Vec<&Edge<B>>)
        ensures
            r@.len() == edges_from(self.edges@, source).len(),
            forall|i: int| 0 <= i < r@.len() ==> *r@[i] == edges_from(self.edges@, source)[i],
    {
        let ghost pred = |e: Edge<B>| e.source == source;
        let mut r: Vec<&Edge<B>> = Vec::new();
        let n = self.edges.len();
        let mut k: usize = 0;
        while k < n
            invariant
                k <= n,
                n == self.edges@.len(),
                pred == (|e: Edge<B>| e.source == source),
                r@.len() == self.edges@.take(k as int).filter(pred).len(),
                forall|i: int| 0 <= i < r@.len() ==> *r@[i] == self.edges@.take(k as int).filter(pred)[i],
            decreases n - k,
        {
            proof {
                assert(self.edges@.take(k + 1) == self.edges@.take(k as int).push(self.edges@[k as int]));
                self.edges@.take(k as int).lemma_filter_push(self.edges@[k as int], pred);
            }
            if self.edges[k].source == source {
                r.push(&self.edges[k]);
            }
            k = k + 1;
        }
        assert(self.edges@.take(n as int) == self.edges@);
        r
    }
}

/// Whether equality of states of type `S` is equality of their views.
pub open spec fn eq_is_view_eq<S: PartialEq + View>() -> bool {
    &&& S::obeys_eq_spec()
    &&& forall|a: S, b: S| #[trigger] a.eq_spec(&b) <==> a@ == b@
}

/// The first state of `states` equal to `x`.
pub(crate) fn position<S: PartialEq + View>(states: &Vec<S>, x: &S) -> (r: Option<usize>)
    requires
        eq_is_view_eq::<S>(),
    ensures
        match r {
            Some(i) => i < states@.len() && states@[i as int]@ == x@ && forall|j: int|
                0 <= j < i ==> (#[trigger] states@[j])@ != x@,
            None => forall|j: int| 0 <= j < states@.len() ==> (#[trigger] states@[j])@ != x@,
        },
{
    let n = states.len();
    let mut i: usize = 0;
    while i < n
        invariant
            i <= n,
            n == states@.len(),
            eq_is_view_eq::<S>(),
            forall|j: int| 0 <= j < i ==> (#[trigger] states@[j])@ != x@,
        decreases n - i,
    {
        let same = states[i] == *x;
        assert(states@[i as int].eq_spec(x) <==> states@[i as int]@ == x@);
        if same {
            return Some(i);
        }
        i = i + 1;
    }
    None
}

/// Whether `e` is a firing of `sema` in `model` between two of `states`: the
/// transition is enabled in the source with the edge's binding, and firing it
/// reaches the target and reports the edge's transition.
pub open spec fn edge_ok<Sema: Semantics>(
    sema: Sema,
    model: Sema::Model,
    states: Seq<Sema::State>,
    e: Edge<Sema::Binding>,
) -> bool {
    &&& e.source.0 < states.len()
    &&& e.target.0 < states.len()
    &&& exists|t: TransitionId|
        #![trigger sema.fire_spec(model, states[e.source.0 as int]@, t, e.binding)]
        sema.enabled_spec(model, states[e.source.0 as int]@) matches Ok(list) && list.contains((t, e.binding))
            && sema.fire_spec(model, states[e.source.0 as int]@, t, e.binding) == Ok::<
            (<Sema::State as View>::V, TransitionId),
            PtExecutionError,
        >((states[e.target.0 as int]@, e.transition))
}

/// Whether firing entry `j` of the enabled list `list` of state `i` succeeds
/// and has an edge out of `i` to a state with the view reached.
pub open spec fn entry_handled<Sema: Semantics>(
    sema: Sema,
    model: Sema::Model,
    states: Seq<Sema::State>,
    edges: Seq<Edge<Sema::Binding>>,
    i: int,
    list: Seq<(TransitionId, Sema::Binding)>,
    j: int,
) -> bool {
    sema.fire_spec(model, states[i]@, list[j].0, list[j].1) matches Ok(res) && exists|k: int|
        0 <= k < edges.len() && (#[trigger] edges[k]).source == StateId(i as usize) && edges[k].transition == res.1
            && edges[k].binding == list[j].1 && edges[k].target.0 < states.len()
            && states[edges[k].target.0 as int]@ == res.0
}

/// Whether state `i` was fully explored: its enabled transitions could be
/// listed, it is recorded blocked when there are none, and each of them
/// fires into a recorded edge.
pub open spec fn state_handled<Sema: Semantics>(
    sema: Sema,
    model: Sema::Model,
    states: Seq<Sema::State>,
    edges: Seq<Edge<Sema::Binding>>,
    blocked: Seq<StateId>,
    i: int,
) -> bool {
    sema.enabled_spec(model, states[i]@) matches Ok(list) && (list.len() == 0 ==> blocked.contains(
        StateId(i as usize),
    )) && forall|j: int| 0 <= j < list.len() ==> entry_handled(sema, model, states, edges, i, list, j)
}

/// Whether `g` is a sound exploration of `sema` in `model` from `init`: its
/// first state has the initial view, no two states share a view, every edge
/// is a firing, and every blocked state enables nothing.
pub open spec fn graph_sound<Sema: Semantics>(
    sema: Sema,
    model: Sema::Model,
    init: <Sema::State as View>::V,
    g: ReachabilityGraph<Sema::State, Sema::Binding>,
) -> bool {
    let st = g.states@;
    &&& st.len() >= 1
    &&& st[0]@ == init
    &&& forall|a: int, b: int| 0 <= a < b < st.len() ==> (#[trigger] st[a])@ != (#[trigger] st[b])@
    &&& forall|k: int| 0 <= k < g.edges@.len() ==> edge_ok(sema, model, st, #[trigger] g.edges@[k])
    &&& forall|k: int|
        0 <= k < g.blocked@.len() ==> (#[trigger] g.blocked@[k]).0 < st.len() && sema.enabled_spec(
            model,
            st[g.blocked@[k].0 as int]@,
        ) == Ok::<Seq<(TransitionId, Sema::Binding)>, PtExecutionError>(Seq::empty())
}

/// Handled states stay handled when states, edges and blocked states are
/// only appended.
proof fn lemma_handled_grows<Sema: Semantics>(
    sema: Sema,
    model: Sema::Model,
    st: Seq<Sema::State>,
    ed: Seq<Edge<Sema::Binding>>,
    bl: Seq<StateId>,
    st2: Seq<Sema::State>,
    ed2: Seq<Edge<Sema::Binding>>,
    bl2: Seq<StateId>,
    i: int,
)
    requires
        0 <= i < st.len(),
        state_handled(sema, model, st, ed, bl, i),
        st.len() <= st2.len(),
        forall|v: int| 0 <= v < st.len() ==> (#[trigger] st2[v])@ == st[v]@,
        ed.len() <= ed2.len(),
        forall|k: int| 0 <= k < ed.len() ==> #[trigger] ed2[k] == ed[k],
        bl.len() <= bl2.len(),
        forall|k: int| 0 <= k < bl.len() ==> #[trigger] bl2[k] == bl[k],
    ensures
        state_handled(sema, model, st2, ed2, bl2, i),
{
    assert(st2[i]@ == st[i]@);
    let list = sema.enabled_spec(model, st[i]@)->Ok_0;
    if list.len() == 0 {
        let k = choose|k: int| 0 <= k < bl.len() && bl[k] == StateId(i as usize);
        assert(bl2[k] == bl[k]);
    }
    assert forall|j: int| 0 <= j < list.len() implies entry_handled(sema, model, st2, ed2, i, list, j) by {
        assert(entry_handled(sema, model, st, ed, i, list, j));
        let res = sema.fire_spec(model, st[i]@, list[j].0, list[j].1)->Ok_0;
        let k = choose|k: int|
            0 <= k < ed.len() && (#[trigger] ed[k]).source == StateId(i as usize) && ed[k].transition == res.1
                && ed[k].binding == list[j].1 && ed[k].target.0 < st.len() && st[ed[k].target.0 as int]@ == res.0;
        assert(ed2[k] == ed[k]);
        assert(st2[ed[k].target.0 as int]@ == st[ed[k].target.0 as int]@);
    }
}

/// The ids of the states `from` up to (not including) `to`.
pub open spec fn ids_between(from: nat, to: nat) -> Seq<StateId> {
    Seq::new((to - from) as nat, |k: int| StateId((from + k) as usize))
}

/// Whether entry `j` of the enabled list `list` of the state with view `s`
/// is the first whose firing fails.
pub open spec fn fire_fails_first<Sema: Semantics>(
    sema: Sema,
    model: Sema::Model,
    s: <Sema::State as View>::V,
    list: Seq<(TransitionId, Sema::Binding)>,
    j: int,
) -> bool {
    &&& #[trigger] sema.fire_spec(model, s, list[j].0, list[j].1) is Err
    &&& forall|i: int| 0 <= i < j ==> #[trigger] sema.fire_spec(model, s, list[i].0, list[i].1) is Ok
}

/// Explores state `source`: lists its enabled transitions (recording it
/// blocked when there are none) and fires each of them, adding an edge to
/// the state reached, which is added and queued when new and the state limit
/// allows it (otherwise the graph is marked truncated). It fails when the
/// enabled transitions cannot be listed, or with the first of them, in list
/// order, whose firing fails.
fn expand<Sema: Semantics>(
    semantics: &Sema,
    model: &Sema::Model,
    graph: &mut ReachabilityGraph<Sema::State, Sema::Binding>,
    worklist: &mut Worklist,
    source: StateId,
    max_states: usize,
    Ghost(init): Ghost<<Sema::State as View>::V>,
) -> (r: Result<(), AnalysisError>)
    requires
        eq_is_view_eq::<Sema::State>(),
        graph_sound(*semantics, *model, init, *old(graph)),
        source.0 < old(graph).states@.len(),
        old(graph).states@.len() <= max_states,
        old(graph).truncated ==> old(graph).states@.len() == max_states,
    ensures
        semantics.enabled_spec(*model, old(graph).states@[source.0 as int]@) matches Err(e) ==> r == Err::<
            (),
            AnalysisError,
        >(AnalysisError::Enabled { state: source, source: e }),
        semantics.enabled_spec(*model, old(graph).states@[source.0 as int]@) matches Ok(list) ==> {
            &&& r is Ok <==> forall|j: int|
                0 <= j < list.len() ==> #[trigger] semantics.fire_spec(
                    *model,
                    old(graph).states@[source.0 as int]@,
                    list[j].0,
                    list[j].1,
                ) is Ok
            &&& r is Err ==> exists|j: int|
                0 <= j < list.len() && fire_fails_first(
                    *semantics,
                    *model,
                    old(graph).states@[source.0 as int]@,
                    list,
                    j,
                ) && r == Err::<(), AnalysisError>(
                    AnalysisError::Fire {
                        state: source,
                        transition: list[j].0,
                        source: semantics.fire_spec(
                            *model,
                            old(graph).states@[source.0 as int]@,
                            list[j].0,
                            list[j].1,
                        )->Err_0,
                    },
                )
        },
        r is Ok ==> {
            &&& graph_sound(*semantics, *model, init, *final(graph))
            &&& old(graph).states@.len() <= final(graph).states@.len() <= max_states
            &&& forall|v: int| 0 <= v < old(graph).states@.len() ==> (#[trigger] final(graph).states@[v])@ == old(
                graph,
            ).states@[v]@
            &&& old(graph).edges@.len() <= final(graph).edges@.len()
            &&& forall|k: int| 0 <= k < old(graph).edges@.len() ==> #[trigger] final(graph).edges@[k] == old(
                graph,
            ).edges@[k]
            &&& old(graph).blocked@.len() <= final(graph).blocked@.len()
            &&& forall|k: int| 0 <= k < old(graph).blocked@.len() ==> #[trigger] final(graph).blocked@[k] == old(
                graph,
            ).blocked@[k]
            &&& final(worklist).strategy() == old(worklist).strategy()
            &&& final(worklist).pending() == old(worklist).pending() + ids_between(
                old(graph).states@.len(),
                final(graph).states@.len(),
            )
            &&& old(graph).truncated ==> final(graph).truncated
            &&& final(graph).truncated ==> final(graph).states@.len() == max_states
            &&& !final(graph).truncated ==> state_handled(
                *semantics,
                *model,
                final(graph).states@,
                final(graph).edges@,
                final(graph).blocked@,
                source.0 as int,
            )
        },
{
    let ghost st0 = graph.states@;
    let ghost ed0 = graph.edges@;
    let ghost bl0 = graph.blocked@;
    let ghost pend0 = worklist.pending();
    let ghost tr0 = graph.truncated;
    let enabled = match semantics.enabled(model, &graph.states[source.0]) {
        Ok(v) => v,
        Err(e) => {
            return Err(AnalysisError::Enabled { state: source, source: e });
        },
    };
    let ghost list = enabled@;
    if enabled.len() == 0 {
        graph.blocked.push(source);
        proof {
            assert(list =~= Seq::<(TransitionId, Sema::Binding)>::empty());
            assert(graph.blocked@[graph.blocked@.len() - 1] == source);
            assert(ids_between(st0.len(), st0.len()) =~= Seq::<StateId>::empty());
            assert(worklist.pending() =~= pend0 + ids_between(st0.len(), st0.len()));
        }
        return Ok(());
    }
    let mut rest = enabled;
    let mut rev: Vec<(TransitionId, Sema::Binding)> = Vec::new();
    while rest.len() > 0
        invariant
            rest@ == list.take(rest@.len() as int),
            rev@.len() + rest@.len() == list.len(),
            forall|i: int| 0 <= i < rev@.len() ==> #[trigger] rev@[i] == list[list.len() - 1 - i],
        decreases rest@.len(),
    {
        let ghost before = rest@;
        match rest.pop() {
            Some(x) => {
                assert(x == list[before.len() - 1]);
                assert(rest@ == list.take(rest@.len() as int));
                rev.push(x);
            },
            None => {},
        }
    }
    let src = source.0;
    while rev.len() > 0
        invariant
            eq_is_view_eq::<Sema::State>(),
            src == source.0,
            src < st0.len(),
            st0 == old(graph).states@,
            rev@.len() <= list.len(),
            forall|i: int| 0 <= i < rev@.len() ==> #[trigger] rev@[i] == list[list.len() - 1 - i],
            semantics.enabled_spec(*model, st0[src as int]@) == Ok::<
                Seq<(TransitionId, Sema::Binding)>,
                PtExecutionError,
            >(list),
            graph_sound(*semantics, *model, init, *graph),
            st0.len() <= graph.states@.len() <= max_states,
            forall|v: int| 0 <= v < st0.len() ==> (#[trigger] graph.states@[v])@ == st0[v]@,
            ed0.len() <= graph.edges@.len(),
            forall|k: int| 0 <= k < ed0.len() ==> #[trigger] graph.edges@[k] == ed0[k],
            graph.blocked@ == bl0,
            worklist.strategy() == old(worklist).strategy(),
            worklist.pending() == pend0 + ids_between(st0.len(), graph.states@.len()),
            tr0 ==> graph.truncated,
            graph.truncated ==> graph.states@.len() == max_states,
            forall|j: int|
                0 <= j < list.len() - rev@.len() ==> #[trigger] semantics.fire_spec(
                    *model,
                    st0[src as int]@,
                    list[j].0,
                    list[j].1,
                ) is Ok,
            !graph.truncated ==> forall|j: int|
                0 <= j < list.len() - rev@.len() ==> entry_handled(
                    *semantics,
                    *model,
                    graph.states@,
                    graph.edges@,
                    src as int,
                    list,
                    j,
                ),
        decreases rev@.len(),
    {
        let ghost done = list.len() - rev@.len();
        let ghost st1 = graph.states@;
        let ghost ed1 = graph.edges@;
        let (transition, binding) = match rev.pop() {
            Some(x) => x,
            None => {
                return Ok(());
            },
        };
        assert((transition, binding) == list[done]);
        let execution = match semantics.fire(model, &graph.states[src], transition, &binding) {
            Ok(x) => x,
            Err(e) => {
                proof {
                    assert(fire_fails_first(*semantics, *model, st0[src as int]@, list, done));
                }
                return Err(AnalysisError::Fire { state: source, transition, source: e });
            },
        };
        let Execution { state: target_state, fired } = execution;
        let found = position(&graph.states, &target_state);
        let target = match found {
            Some(i) => StateId(i),
            None => {
                if graph.states.len() >= max_states {
                    graph.truncated = true;
                    continue;
                }
                let t = StateId(graph.states.len());
                graph.states.push(target_state);
                worklist.push(t);
                proof {
                    assert(ids_between(st0.len(), graph.states@.len()) =~= ids_between(st0.len(), st1.len()).push(t));
                }
                t
            },
        };
        graph.edges.push(Edge { source, target, transition: fired, binding });
        proof {
            let e = graph.edges@[graph.edges@.len() - 1];
            assert(list.contains((transition, e.binding))) by {
                assert(list[done] == (transition, e.binding));
            }
            assert(edge_ok(*semantics, *model, graph.states@, e));
            assert forall|j: int|
                0 <= j < list.len() - rev@.len() && !graph.truncated implies entry_handled(
                    *semantics,
                    *model,
                    graph.states@,
                    graph.edges@,
                    src as int,
                    list,
                    j,
                ) by {
                if j < done {
                    assert(entry_handled(*semantics, *model, st1, ed1, src as int, list, j));
                    let res = semantics.fire_spec(*model, st1[src as int]@, list[j].0, list[j].1)->Ok_0;
                    let k = choose|k: int|
                        0 <= k < ed1.len() && (#[trigger] ed1[k]).source == StateId(src) && ed1[k].transition == res.1
                            && ed1[k].binding == list[j].1 && ed1[k].target.0 < st1.len()
                            && st1[ed1[k].target.0 as int]@ == res.0;
                    assert(graph.edges@[k] == ed1[k]);
                } else {
                    let k = graph.edges@.len() - 1;
                    assert(graph.edges@[k].source == StateId(src));
                }
            }
        }
    }
    Ok(())
}

/// Whether `e` is an error that an exploration of `model` under `sema`
/// with state limit `max_states` may return: an invalid configuration only
/// for a zero limit; the failure of the initial state only when it fails;
/// and the failure to list the enabled transitions of a state, or to fire
/// one of them, only when that happens in a state of some sound
/// exploration from the initial state.
pub open spec fn explore_error<Sema: Semantics>(sema: Sema, model: Sema::Model, max_states: usize, e: AnalysisError) -> bool {
    match e {
        AnalysisError::InvalidConfiguration { max_states: m } => max_states == 0 && m == 0,
        AnalysisError::Initial { source } => max_states > 0 && sema.initial_spec(model) == Err::<
            <Sema::State as View>::V,
            PtExecutionError,
        >(source),
        AnalysisError::Enabled { state, source } => {
            &&& max_states > 0
            &&& sema.initial_spec(model) is Ok
            &&& exists|g: ReachabilityGraph<Sema::State, Sema::Binding>|
                #[trigger] graph_sound(sema, model, sema.initial_spec(model)->Ok_0, g) && state.0 < g.states@.len()
                    && sema.enabled_spec(model, g.states@[state.0 as int]@) == Err::<
                    Seq<(TransitionId, Sema::Binding)>,
                    PtExecutionError,
                >(source)
        },
        AnalysisError::Fire { state, transition, source } => {
            &&& max_states > 0
            &&& sema.initial_spec(model) is Ok
            &&& exists|g: ReachabilityGraph<Sema::State, Sema::Binding>, b: Sema::Binding|
                #![trigger graph_sound(sema, model, sema.initial_spec(model)->Ok_0, g), sema.fire_spec(model, g.states@[state.0 as int]@, transition, b)]
                graph_sound(sema, model, sema.initial_spec(model)->Ok_0, g) && state.0 < g.states@.len()
                    && (sema.enabled_spec(model, g.states@[state.0 as int]@) matches Ok(list) && list.contains(
                    (transition, b),
                )) && sema.fire_spec(model, g.states@[state.0 as int]@, transition, b) == Err::<
                    (<Sema::State as View>::V, TransitionId),
                    PtExecutionError,
                >(source)
        },
    }
}

/// What an exploration of `model` under `sema` with state limit
/// `max_states` returns: an invalid configuration for a zero limit, the
/// failure of the initial state, or a sound graph within the limit that is
/// complete unless the limit cut it short.
pub open spec fn explore_result<Sema: Semantics>(
    sema: Sema,
    model: Sema::Model,
    max_states: usize,
    r: Result<ReachabilityGraph<Sema::State, Sema::Binding>, AnalysisError>,
) -> bool {
    &&& max_states == 0 ==> r == Err::<ReachabilityGraph<Sema::State, Sema::Binding>, AnalysisError>(
        AnalysisError::InvalidConfiguration { max_states: 0 },
    )
    &&& (max_states > 0 && sema.initial_spec(model) is Err) ==> r == Err::<
        ReachabilityGraph<Sema::State, Sema::Binding>,
        AnalysisError,
    >(AnalysisError::Initial { source: sema.initial_spec(model)->Err_0 })
    &&& match r {
        Ok(g) => {
            &&& sema.initial_spec(model) is Ok
            &&& graph_sound(sema, model, sema.initial_spec(model)->Ok_0, g)
            &&& g.states@.len() <= max_states
            &&& g.truncated ==> g.states@.len() == max_states
            &&& !g.truncated ==> forall|i: int|
                0 <= i < g.states@.len() ==> state_handled(sema, model, g.states@, g.edges@, g.blocked@, i)
        },
        Err(e) => explore_error(sema, model, max_states, e),
    }
}

/// Explores the states of `model` under `semantics` from its initial state,
/// in the order of `config`, keeping at most `config.max_states` states.
/// Every edge is a firing, no state is kept twice, every blocked state
/// enables nothing, and, unless the limit cut the exploration short, every
/// enabled transition of every state has its edge.
pub fn explore<Sema: Semantics>(semantics: &Sema, model: &Sema::Model, config: ExploreConfig) -> (r: Result<
    ReachabilityGraph<Sema::State, Sema::Binding>,
    AnalysisError,
>)
    requires
        eq_is_view_eq::<Sema::State>(),
    ensures
        explore_result(*semantics, *model, config.max_states, r),
{
    if config.max_states == 0 {
        return Err(AnalysisError::InvalidConfiguration { max_states: config.max_states });
    }
    let initial = match semantics.initial_state(model) {
        Ok(s) => s,
        Err(e) => {
            return Err(AnalysisError::Initial { source: e });
        },
    };
    let ghost init = initial@;
    let mut states: Vec<Sema::State> = Vec::new();
    states.push(initial);
    let mut graph = ReachabilityGraph { states, edges: Vec::new(), blocked: Vec::new(), truncated: false };
    let mut worklist = Worklist::new(config.strategy, StateId(0));
    let max_states = config.max_states;
    assert(worklist.pending()[0] == StateId(0));
    loop
        invariant
            eq_is_view_eq::<Sema::State>(),
            max_states == config.max_states,
            max_states > 0,
            semantics.initial_spec(*model) == Ok::<<Sema::State as View>::V, PtExecutionError>(init),
            graph_sound(*semantics, *model, init, graph),
            graph.states@.len() <= max_states,
            graph.truncated ==> graph.states@.len() == max_states,
            forall|k: int| 0 <= k < worklist.pending().len() ==> (#[trigger] worklist.pending()[k]).0 < graph.states@.len(),
            !graph.truncated ==> forall|i: int|
                0 <= i < graph.states@.len() ==> worklist.pending().contains(StateId(i as usize)) || state_handled(
                    *semantics,
                    *model,
                    graph.states@,
                    graph.edges@,
                    graph.blocked@,
                    i,
                ),
        ensures
            graph_sound(*semantics, *model, init, graph),
            graph.states@.len() <= max_states,
            graph.truncated ==> graph.states@.len() == max_states,
            !graph.truncated ==> forall|i: int|
                0 <= i < graph.states@.len() ==> state_handled(
                    *semantics,
                    *model,
                    graph.states@,
                    graph.edges@,
                    graph.blocked@,
                    i,
                ),
        decreases max_states - graph.states@.len(), worklist.pending().len(),
    {
        let ghost pend = worklist.pending();
        let ghost st0 = graph.states@;
        let ghost ed0 = graph.edges@;
        let ghost bl0 = graph.blocked@;
        let source = match worklist.pop() {
            Some(s) => s,
            None => {
                break;
            },
        };
        let ghost popped = worklist.pending();
        proof {
            assert(pend.contains(source)) by {
                if worklist.strategy() == SearchStrategy::BreadthFirst {
                    assert(pend[0] == source);
                } else {
                    assert(pend[pend.len() - 1] == source);
                }
            }
            assert forall|x: StateId| #[trigger] pend.contains(x) && x != source implies popped.contains(x) by {
                let k = choose|k: int| 0 <= k < pend.len() && pend[k] == x;
                if worklist.strategy() == SearchStrategy::BreadthFirst {
                    assert(popped[k - 1] == x);
                } else {
                    assert(popped[k] == x);
                }
            }
        }
        let ghost before = graph;
        let step = expand(semantics, model, &mut graph, &mut worklist, source, max_states, Ghost(init));
        match step {
            Ok(()) => {},
            Err(e) => {
                proof {
                    let sv = before.states@[source.0 as int]@;
                    match semantics.enabled_spec(*model, sv) {
                        Ok(list) => {
                            let j = choose|j: int|
                                0 <= j < list.len() && fire_fails_first(*semantics, *model, sv, list, j) && step
                                    == Err::<(), AnalysisError>(
                                    AnalysisError::Fire {
                                        state: source,
                                        transition: list[j].0,
                                        source: semantics.fire_spec(*model, sv, list[j].0, list[j].1)->Err_0,
                                    },
                                );
                            assert(list.contains((list[j].0, list[j].1))) by {
                                assert(list[j] == (list[j].0, list[j].1));
                            }
                            assert(graph_sound(*semantics, *model, semantics.initial_spec(*model)->Ok_0, before));
                            assert(semantics.fire_spec(*model, before.states@[source.0 as int]@, list[j].0, list[j].1) is Err);
                            assert(explore_error(*semantics, *model, max_states, e));
                        },
                        Err(err) => {
                            assert(graph_sound(*semantics, *model, semantics.initial_spec(*model)->Ok_0, before));
                            assert(e == AnalysisError::Enabled { state: source, source: err });
                            assert(explore_error(*semantics, *model, max_states, e));
                        },
                    }
                }
                return Err(e);
            },
        }
        proof {
            let st1 = graph.states@;
            let p1 = worklist.pending();
            assert forall|k: int| 0 <= k < p1.len() implies (#[trigger] p1[k]).0 < st1.len() by {
                if k >= popped.len() {
                    assert(p1[k] == ids_between(st0.len(), st1.len())[k - popped.len()]);
                } else {
                    assert(p1[k] == popped[k]);
                    assert(pend.contains(popped[k])) by {
                        if worklist.strategy() == SearchStrategy::BreadthFirst {
                            assert(popped[k] == pend[k + 1]);
                        } else {
                            assert(popped[k] == pend[k]);
                        }
                    }
                }
            }
            if !graph.truncated {
                assert forall|i: int| 0 <= i < st1.len() implies p1.contains(StateId(i as usize)) || state_handled(
                    *semantics,
                    *model,
                    st1,
                    graph.edges@,
                    graph.blocked@,
                    i,
                ) by {
                    if i >= st0.len() {
                        assert(p1[popped.len() + i - st0.len()] == StateId(i as usize));
                    } else if i != source.0 {
                        if pend.contains(StateId(i as usize)) {
                            let k = choose|k: int| 0 <= k < popped.len() && popped[k] == StateId(i as usize);
                            assert(p1[k] == StateId(i as usize));
                        } else {
                            lemma_handled_grows(
                                *semantics,
                                *model,
                                st0,
                                ed0,
                                bl0,
                                st1,
                                graph.edges@,
                                graph.blocked@,
                                i,
                            );
                        }
                    }
                }
            }
        }
    }
    Ok(graph)
}

/// The blocked states of `graph` that `is_normal_termination` does not
/// accept, in order.
pub fn find_deadlocks<S, B, F: Fn(&S) -> bool>(graph: &ReachabilityGraph<S, B>, is_normal_termination: F) -> (r: Vec<
    StateId,
>)
    requires
        forall|k: int|
            0 <= k < graph.blocked@.len() ==> (#[trigger] graph.blocked@[k]).0 < graph.states@.len()
                && is_normal_termination.requires((&graph.states@[graph.blocked@[k].0 as int],)),
    ensures
        r@.len() <= graph.blocked@.len(),
        forall|k: int|
            0 <= k < r@.len() ==> graph.blocked@.contains(#[trigger] r@[k]) && is_normal_termination.ensures(
                (&graph.states@[r@[k].0 as int],),
                false,
            ),
        forall|k: int|
            0 <= k < graph.blocked@.len() && !r@.contains(#[trigger] graph.blocked@[k]) ==> is_normal_termination.ensures(
                (&graph.states@[graph.blocked@[k].0 as int],),
                true,
            ),
{
    let mut r: Vec<StateId> = Vec::new();
    let n = graph.blocked.len();
    let mut k: usize = 0;
    while k < n
        invariant
            k <= n,
            n == graph.blocked@.len(),
            r@.len() <= k,
            forall|k2: int|
                0 <= k2 < graph.blocked@.len() ==> (#[trigger] graph.blocked@[k2]).0 < graph.states@.len()
                    && is_normal_termination.requires((&graph.states@[graph.blocked@[k2].0 as int],)),
            forall|j: int|
                0 <= j < r@.len() ==> graph.blocked@.contains(#[trigger] r@[j]) && is_normal_termination.ensures(
                    (&graph.states@[r@[j].0 as int],),
                    false,
                ),
            forall|j: int|
                0 <= j < k && !r@.contains(#[trigger] graph.blocked@[j]) ==> is_normal_termination.ensures(
                    (&graph.states@[graph.blocked@[j].0 as int],),
                    true,
                ),
        decreases n - k,
    {
        let id = graph.blocked[k];
        let normal = is_normal_termination(&graph.states[id.0]);
        let ghost old_r = r@;
        if !normal {
            r.push(id);
            assert(graph.blocked@.contains(id)) by {
                assert(graph.blocked@[k as int] == id);
            }
            assert(r@[r@.len() - 1] == id);
        }
        proof {
            assert forall|j: int|
                0 <= j < k + 1 && !r@.contains(#[trigger] graph.blocked@[j]) implies is_normal_termination.ensures(
                    (&graph.states@[graph.blocked@[j].0 as int],),
                    true,
                ) by {
                if j < k {
                    if old_r.contains(graph.blocked@[j]) {
                        let a = choose|a: int| 0 <= a < old_r.len() && old_r[a] == graph.blocked@[j];
                        assert(r@[a] == graph.blocked@[j]);
                    }
                }
            }
        }
        k = k + 1;
    }
    r
}

/// Markings are equal exactly when their token counts are.
pub proof fn lemma_marking_eq_is_view_eq()
    ensures
        eq_is_view_eq::<Marking>(),
{
}

} // verus!
