//! The firing contract a net offers to the analyses, and the reachability
//! exploration over it: states, firings, blocked states, and for every state
//! the firing that first reached it, from which a path from the initial state
//! is rebuilt.
use vstd::prelude::*;

use crate::ids::TransitionId;
use crate::pt::{Marking, PtNet};
use vstd::std_specs::cmp::PartialEqSpec;

use super::generic::{eq_is_view_eq, ids_between, position, StateId, Worklist};

verus! {

/// The firing contract of a net, for each kind of net to implement: its
/// sizes, the transitions enabled in a state, and the state reached by
/// firing one, stated over the views of the states.
pub trait NetLike {
    type State: PartialEq + View;

    /// The transitions enabled in `state`, in order.
    spec fn enabled_spec(&self, state: <Self::State as View>::V) -> Seq<TransitionId>;

    /// The state reached by firing `t` in `state`, if it can fire.
    spec fn fire_spec(&self, state: <Self::State as View>::V, t: TransitionId) -> Option<<Self::State as View>::V>;

    /// How many places the net has.
    spec fn places_spec(&self) -> nat;

    /// How many transitions the net has.
    spec fn transitions_spec(&self) -> nat;

    /// The number of places.
    fn num_places(&self) -> (r: usize)
        ensures
            r == self.places_spec(),
    ;

    /// The number of transitions.
    fn num_transitions(&self) -> (r: usize)
        ensures
            r == self.transitions_spec(),
    ;

    /// The transitions enabled in `state`.
    fn enabled(&self, state: &Self::State) -> (r: Vec<TransitionId>)
        ensures
            r@ == self.enabled_spec(state@),
    ;

    /// The state reached by firing `transition` in `state`, if it can fire.
    fn fire(&self, state: &Self::State, transition: TransitionId) -> (r: Option<Self::State>)
        ensures
            match r {
                Some(s) => self.fire_spec(state@, transition) == Some(s@),
                None => self.fire_spec(state@, transition) is None,
            },
    ;
}

impl NetLike for PtNet {
    type State = Marking;

    open spec fn enabled_spec(&self, state: Seq<usize>) -> Seq<TransitionId> {
        if self.wf() && state.len() == self.places@.len() {
            self.transitions_enabled(state, self.transitions@.len())
        } else {
            Seq::empty()
        }
    }

    open spec fn fire_spec(&self, state: Seq<usize>, t: TransitionId) -> Option<Seq<usize>> {
        if self.wf() && state.len() == self.places@.len() {
            match self.fire_result(state, t.0) {
                Ok(m) => Some(m),
                Err(_) => None,
            }
        } else {
            None
        }
    }

    open spec fn places_spec(&self) -> nat {
        self.places@.len()
    }

    open spec fn transitions_spec(&self) -> nat {
        self.transitions@.len()
    }

    fn num_places(&self) -> (r: usize) {
        self.places.len()
    }

    fn num_transitions(&self) -> (r: usize) {
        self.transitions.len()
    }

    fn enabled(&self, state: &Marking) -> (r: Vec<TransitionId>) {
        if self.validate().is_err() || state.len() != self.places.len() {
            return Vec::new();
        }
        let mut r: Vec<TransitionId> = Vec::new();
        let nt = self.transitions.len();
        let mut t: usize = 0;
        while t < nt
            invariant
                t <= nt,
                nt == self.transitions@.len(),
                self.wf(),
                state@.len() == self.places@.len(),
                r@ == self.transitions_enabled(state@, t as nat),
            decreases nt - t,
        {
            if self.is_enabled(state, TransitionId(t)) {
                r.push(TransitionId(t));
            }
            t = t + 1;
        }
        r
    }

    fn fire(&self, state: &Marking, transition: TransitionId) -> (r: Option<Marking>) {
        if self.validate().is_err() || state.len() != self.places.len() {
            return None;
        }
        match PtNet::fire(self, state, transition) {
            Ok(m) => Some(m),
            Err(_) => None,
        }
    }
}

impl PtNet {
    /// The transitions below `n` enabled in `m`, in order.
    pub open spec fn transitions_enabled(&self, m: Seq<usize>, n: nat) -> Seq<TransitionId>
        decreases n,
    {
        if n == 0 {
            Seq::empty()
        } else {
            let prev = self.transitions_enabled(m, (n - 1) as nat);
            if self.enabled_in(m, (n - 1) as usize) {
                prev.push(TransitionId((n - 1) as usize))
            } else {
                prev
            }
        }
    }
}

/// The order in which states are expanded.
#[derive(Clone, Copy, Debug, PartialEq, Eq, Structural)]
pub enum SearchStrategy {
    /// Oldest pending state first.
    Bfs,
    /// Newest pending state first.
    Dfs,
}

/// How an exploration is run.
#[derive(Clone, Copy, Debug, PartialEq, Eq, Structural)]
pub struct AnalysisConfig {
    pub strategy: SearchStrategy,
    pub max_states: usize,
}

impl Default for AnalysisConfig {
    fn default() -> (r: Self)
        ensures
            r.strategy == SearchStrategy::Bfs,
            r.max_states == 100_000,
    {
        AnalysisConfig { strategy: SearchStrategy::Bfs, max_states: 100_000 }
    }
}

/// One firing of a counterexample, with the source anchors it maps back to.
#[derive(Clone, Debug, PartialEq, Eq)]
pub struct FiringStep {
    pub transition: TransitionId,
    pub anchors: Vec<String>,
}

/// The property a counterexample violates.
#[derive(Clone, Debug, PartialEq, Eq)]
pub enum PropertyViolation {
    Deadlock,
    DeadTransition { transition: TransitionId, anchors: Vec<String> },
    GoalUnmet { goal: String },
}

/// A counterexample: a firing sequence, the state it ends in, and the
/// property it violates.
#[derive(Debug)]
pub struct Counterexample<S> {
    pub kind: PropertyViolation,
    pub trace: Vec<FiringStep>,
    pub final_state: S,
}

/// The reachability graph of a net: its states, the firings between them
/// `(source, target, transition)`, the initial state, the states where
/// nothing is enabled, whether the state limit cut the exploration short, and
/// for each state the firing that first reached it.
pub struct ReachabilityGraph<S> {
    pub states: Vec<S>,
    pub edges: Vec<(usize, usize, TransitionId)>,
    pub initial: usize,
    pub blocked: Vec<usize>,
    pub truncated: bool,
    /// For each state, the edge `(source, transition)` that first reached
    /// it; none for the initial state.
    pub preds: Vec<Option<(usize, TransitionId)>>,
}

/// Whether `edges` holds the edge `(u, v, t)`.
pub open spec fn has_edge(edges: Seq<(usize, usize, TransitionId)>, u: int, v: int, t: TransitionId) -> bool {
    exists|k: int| 0 <= k < edges.len() && (#[trigger] edges[k]).0 == u && edges[k].1 == v && edges[k].2 == t
}

/// Whether `path` leads from state `from` to state `to` along `edges`.
pub open spec fn path_along(edges: Seq<(usize, usize, TransitionId)>, from: int, to: int, path: Seq<TransitionId>) -> bool
    decreases path.len(),
{
    if path.len() == 0 {
        from == to
    } else {
        exists|mid: int| #[trigger] has_edge(edges, mid, to, path.last()) && path_along(edges, from, mid, path.drop_last())
    }
}

/// Whether `pred` names an edge of `edges` from a state before `v` into
/// `v`.
pub open spec fn first_reached_by(
    edges: Seq<(usize, usize, TransitionId)>,
    v: int,
    pred: Option<(usize, TransitionId)>,
) -> bool {
    match pred {
        Some(e) => e.0 < v && has_edge(edges, e.0 as int, v, e.1),
        None => false,
    }
}

impl<S> ReachabilityGraph<S> {
    /// Whether every state other than the initial one was first reached by
    /// a recorded edge from a state found before it, and the initial state
    /// by none.
    pub open spec fn traceable(&self) -> bool {
        let p = self.preds@;
        &&& p.len() == self.states@.len()
        &&& self.initial == 0
        &&& p.len() > 0 ==> p[0] is None
        &&& forall|v: int| 0 < v < p.len() ==> first_reached_by(self.edges@, v, #[trigger] p[v])
    }

    /// The number of states.
    pub fn state_count(&self) -> (r: usize)
        ensures
            r == self.states@.len(),
    {
        self.states.len()
    }

    /// The number of edges.
    pub fn edge_count(&self) -> (r: usize)
        ensures
            r == self.edges@.len(),
    {
        self.edges.len()
    }

    /// The transitions that fired on some edge, each once, in the order they
    /// first fired.
    pub fn fired_transitions(&self) -> (r: Vec<TransitionId>)
        ensures
            r@.no_duplicates(),
            forall|t: TransitionId| #[trigger] r@.contains(t) <==> exists|k: int|
                0 <= k < self.edges@.len() && (#[trigger] self.edges@[k]).2 == t,
    {
        let mut r: Vec<TransitionId> = Vec::new();
        let n = self.edges.len();
        let mut k: usize = 0;
        while k < n
            invariant
                k <= n,
                n == self.edges@.len(),
                r@.no_duplicates(),
                forall|t: TransitionId| #[trigger] r@.contains(t) <==> exists|j: int|
                    0 <= j < k && (#[trigger] self.edges@[j]).2 == t,
            decreases n - k,
        {
            let t = self.edges[k].2;
            let mut seen = false;
            let mut j: usize = 0;
            while j < r.len()
                invariant
                    j <= r@.len(),
                    seen == r@.take(j as int).contains(t),
                decreases r@.len() - j,
            {
                proof {
                    assert(r@.take(j + 1) == r@.take(j as int).push(r@[j as int]));
                }
                let ghost before_seen = seen;
                if r[j] == t {
                    seen = true;
                }
                proof {
                    let a = r@.take(j as int);
                    let b = r@.take(j + 1);
                    if a.contains(t) {
                        let i = choose|i: int| 0 <= i < a.len() && a[i] == t;
                        assert(b[i] == t);
                    }
                    if r@[j as int] == t {
                        assert(b[j as int] == t);
                    }
                    if b.contains(t) {
                        let i = choose|i: int| 0 <= i < b.len() && b[i] == t;
                        if i < j {
                            assert(a[i] == t);
                        }
                    }
                }
                j = j + 1;
            }
            assert(r@.take(r@.len() as int) == r@);
            let ghost before = r@;
            if !seen {
                r.push(t);
                assert(r@[r@.len() - 1] == t);
            }
            assert forall|x: TransitionId| #[trigger] r@.contains(x) <==> exists|j: int|
                0 <= j < k + 1 && (#[trigger] self.edges@[j]).2 == x by {
                if r@.contains(x) && !before.contains(x) {
                    let a = choose|a: int| 0 <= a < r@.len() && r@[a] == x;
                    assert(a == before.len());
                    assert(self.edges@[k as int].2 == x);
                }
                if before.contains(x) {
                    let a = choose|a: int| 0 <= a < before.len() && before[a] == x;
                    assert(r@[a] == x);
                }
                if x == t {
                    if seen {
                        assert(before.contains(x));
                    }
                }
            }
            k = k + 1;
        }
        r
    }

    /// The transitions of the path from the initial state to `target` along
    /// the edges that first reached each state.
    pub fn trace_to(&self, target: usize) -> (r: Vec<TransitionId>)
        requires
            self.traceable(),
            target < self.states@.len(),
        ensures
            path_along(self.edges@, 0, target as int, r@),
    {
        let mut rev: Vec<TransitionId> = Vec::new();
        let mut current = target;
        let ghost mut tail: Seq<TransitionId> = Seq::empty();
        while current > 0
            invariant
                self.traceable(),
                current < self.states@.len(),
                rev@.len() == tail.len(),
                forall|i: int| 0 <= i < rev@.len() ==> #[trigger] rev@[i] == tail[tail.len() - 1 - i],
                forall|p: Seq<TransitionId>| path_along(self.edges@, 0, current as int, p) ==> path_along(
                    self.edges@,
                    0,
                    target as int,
                    #[trigger] (p + tail),
                ),
            decreases current,
        {
            let (parent, t) = match self.preds[current] {
                Some(e) => e,
                None => {
                    assert(false);
                    (0, TransitionId(0))
                },
            };
            rev.push(t);
            proof {
                assert(first_reached_by(self.edges@, current as int, self.preds@[current as int]));
                let old_tail = tail;
                tail = seq![t] + old_tail;
                assert forall|p: Seq<TransitionId>| path_along(self.edges@, 0, parent as int, p) implies path_along(
                    self.edges@,
                    0,
                    target as int,
                    #[trigger] (p + tail),
                ) by {
                    let q = p.push(t);
                    assert(q.drop_last() == p);
                    assert(q.last() == t);
                    assert(has_edge(self.edges@, parent as int, current as int, t));
                    assert(path_along(self.edges@, 0, current as int, q));
                    assert(q + old_tail == p + tail);
                }
            }
            current = parent;
        }
        let mut r: Vec<TransitionId> = Vec::new();
        let n = rev.len();
        let mut i: usize = 0;
        while i < n
            invariant
                i <= n,
                n == rev@.len(),
                n == tail.len(),
                forall|j: int| 0 <= j < rev@.len() ==> #[trigger] rev@[j] == tail[tail.len() - 1 - j],
                r@ == tail.take(i as int),
            decreases n - i,
        {
            r.push(rev[n - 1 - i]);
            assert(tail.take(i + 1) == tail.take(i as int).push(tail[i as int]));
            i = i + 1;
        }
        assert(tail.take(n as int) == tail);
        assert(path_along(self.edges@, 0, 0, Seq::<TransitionId>::empty()));
        assert(Seq::<TransitionId>::empty() + tail == tail);
        r
    }
}


/// Edges only appended keep every edge they held.
proof fn lemma_has_edge_grows(
    e1: Seq<(usize, usize, TransitionId)>,
    e2: Seq<(usize, usize, TransitionId)>,
    u: int,
    v: int,
    t: TransitionId,
)
    requires
        has_edge(e1, u, v, t),
        e1.len() <= e2.len(),
        forall|k: int| 0 <= k < e1.len() ==> #[trigger] e2[k] == e1[k],
    ensures
        has_edge(e2, u, v, t),
{
    let k = choose|k: int| 0 <= k < e1.len() && (#[trigger] e1[k]).0 == u && e1[k].1 == v && e1[k].2 == t;
    assert(e2[k] == e1[k]);
}

/// Whether the edge `e` is a firing of `net` between two of `states`: its
/// transition is enabled in the source and firing it reaches the target.
pub open spec fn firing_edge<N: NetLike>(net: N, states: Seq<N::State>, e: (usize, usize, TransitionId)) -> bool {
    &&& e.0 < states.len()
    &&& e.1 < states.len()
    &&& net.enabled_spec(states[e.0 as int]@).contains(e.2)
    &&& net.fire_spec(states[e.0 as int]@, e.2) == Some(states[e.1 as int]@)
}

/// Whether firing `t` in state `i` is recorded: when it reaches a state, an
/// edge labelled `t` leads from `i` to a state with that view.
pub open spec fn firing_recorded<N: NetLike>(
    net: N,
    states: Seq<N::State>,
    edges: Seq<(usize, usize, TransitionId)>,
    i: int,
    t: TransitionId,
) -> bool {
    net.fire_spec(states[i]@, t) is Some ==> exists|k: int|
        0 <= k < edges.len() && (#[trigger] edges[k]).0 == i as usize && edges[k].2 == t && edges[k].1
            < states.len() && states[edges[k].1 as int]@ == net.fire_spec(states[i]@, t)->Some_0
}

/// Whether state `i` was expanded: it is recorded blocked when nothing is
/// enabled in it, and every enabled firing is recorded.
pub open spec fn expanded<N: NetLike>(
    net: N,
    states: Seq<N::State>,
    edges: Seq<(usize, usize, TransitionId)>,
    blocked: Seq<usize>,
    i: int,
) -> bool {
    let list = net.enabled_spec(states[i]@);
    &&& list.len() == 0 ==> blocked.contains(i as usize)
    &&& forall|j: int| 0 <= j < list.len() ==> #[trigger] firing_recorded(net, states, edges, i, list[j])
}

/// Whether `g` is a sound exploration of `net` from a state with view
/// `init`: its initial state comes first with that view, no two states share
/// a view, every edge is a firing, every blocked state enables nothing, and
/// every other state was first reached by a recorded edge.
pub open spec fn explored_from<N: NetLike>(net: N, init: <N::State as View>::V, g: ReachabilityGraph<N::State>) -> bool {
    let st = g.states@;
    &&& st.len() >= 1
    &&& st[0]@ == init
    &&& g.traceable()
    &&& forall|a: int, b: int| 0 <= a < b < st.len() ==> (#[trigger] st[a])@ != (#[trigger] st[b])@
    &&& forall|k: int| 0 <= k < g.edges@.len() ==> firing_edge(net, st, #[trigger] g.edges@[k])
    &&& forall|k: int|
        0 <= k < g.blocked@.len() ==> (#[trigger] g.blocked@[k]) < st.len() && net.enabled_spec(
            st[g.blocked@[k] as int]@,
        ).len() == 0
}

/// Expanded states stay expanded when states, edges and blocked states are
/// only appended.
proof fn lemma_expanded_grows<N: NetLike>(
    net: N,
    st: Seq<N::State>,
    ed: Seq<(usize, usize, TransitionId)>,
    bl: Seq<usize>,
    st2: Seq<N::State>,
    ed2: Seq<(usize, usize, TransitionId)>,
    bl2: Seq<usize>,
    i: int,
)
    requires
        0 <= i < st.len(),
        expanded(net, st, ed, bl, i),
        st.len() <= st2.len(),
        forall|v: int| 0 <= v < st.len() ==> #[trigger] st2[v] == st[v],
        ed.len() <= ed2.len(),
        forall|k: int| 0 <= k < ed.len() ==> #[trigger] ed2[k] == ed[k],
        bl.len() <= bl2.len(),
        forall|k: int| 0 <= k < bl.len() ==> #[trigger] bl2[k] == bl[k],
    ensures
        expanded(net, st2, ed2, bl2, i),
{
    assert(st2[i] == st[i]);
    let list = net.enabled_spec(st[i]@);
    if list.len() == 0 {
        let k = choose|k: int| 0 <= k < bl.len() && bl[k] == i as usize;
        assert(bl2[k] == bl[k]);
    }
    assert forall|j: int| 0 <= j < list.len() implies #[trigger] firing_recorded(net, st2, ed2, i, list[j]) by {
        assert(firing_recorded(net, st, ed, i, list[j]));
        if net.fire_spec(st[i]@, list[j]) is Some {
            let s = net.fire_spec(st[i]@, list[j])->Some_0;
            let k = choose|k: int|
                0 <= k < ed.len() && (#[trigger] ed[k]).0 == i as usize && ed[k].2 == list[j] && ed[k].1 < st.len()
                    && st[ed[k].1 as int]@ == s;
            assert(ed2[k] == ed[k]);
            assert(st2[ed[k].1 as int] == st[ed[k].1 as int]);
        }
    }
}

/// Expands state `src`: records it blocked when nothing is enabled in it,
/// and otherwise fires each enabled transition, adding an edge to the state
/// reached, which is added, queued and given this edge as its first when it
/// is new and the state limit allows (otherwise the graph is marked
/// truncated).
fn expand_state<N: NetLike>(
    net: &N,
    graph: &mut ReachabilityGraph<N::State>,
    worklist: &mut Worklist,
    src: usize,
    max_states: usize,
    Ghost(init): Ghost<<N::State as View>::V>,
)
    requires
        eq_is_view_eq::<N::State>(),
        explored_from(*net, init, *old(graph)),
        src < old(graph).states@.len(),
        old(graph).states@.len() <= max_states,
        old(graph).truncated ==> old(graph).states@.len() == max_states,
    ensures
        explored_from(*net, init, *final(graph)),
        old(graph).states@.len() <= final(graph).states@.len() <= max_states,
        forall|v: int| 0 <= v < old(graph).states@.len() ==> #[trigger] final(graph).states@[v] == old(graph).states@[v],
        old(graph).edges@.len() <= final(graph).edges@.len(),
        forall|k: int| 0 <= k < old(graph).edges@.len() ==> #[trigger] final(graph).edges@[k] == old(graph).edges@[k],
        old(graph).blocked@.len() <= final(graph).blocked@.len(),
        forall|k: int|
            0 <= k < old(graph).blocked@.len() ==> #[trigger] final(graph).blocked@[k] == old(graph).blocked@[k],
        final(worklist).strategy() == old(worklist).strategy(),
        final(worklist).pending() == old(worklist).pending() + ids_between(
            old(graph).states@.len(),
            final(graph).states@.len(),
        ),
        old(graph).truncated ==> final(graph).truncated,
        final(graph).truncated ==> final(graph).states@.len() == max_states,
        !final(graph).truncated ==> expanded(
            *net,
            final(graph).states@,
            final(graph).edges@,
            final(graph).blocked@,
            src as int,
        ),
{
    let ghost st0 = graph.states@;
    let ghost ed0 = graph.edges@;
    let ghost bl0 = graph.blocked@;
    let ghost pend0 = worklist.pending();
    let ghost tr0 = graph.truncated;
    let enabled = net.enabled(&graph.states[src]);
    let ghost list = enabled@;
    if enabled.len() == 0 {
        graph.blocked.push(src);
        proof {
            assert(graph.blocked@[graph.blocked@.len() - 1] == src);
            assert(ids_between(st0.len(), st0.len()) =~= Seq::<StateId>::empty());
            assert(worklist.pending() =~= pend0 + ids_between(st0.len(), st0.len()));
        }
        return;
    }
    let n = enabled.len();
    let mut j: usize = 0;
    proof {
        assert(ids_between(st0.len(), st0.len()) =~= Seq::<StateId>::empty());
        assert(worklist.pending() =~= pend0 + ids_between(st0.len(), st0.len()));
    }
    while j < n
        invariant
            eq_is_view_eq::<N::State>(),
            j <= n,
            n == list.len(),
            enabled@ == list,
            src < st0.len(),
            list == net.enabled_spec(st0[src as int]@),
            explored_from(*net, init, *graph),
            st0.len() <= graph.states@.len() <= max_states,
            forall|v: int| 0 <= v < st0.len() ==> #[trigger] graph.states@[v] == st0[v],
            ed0.len() <= graph.edges@.len(),
            forall|k: int| 0 <= k < ed0.len() ==> #[trigger] graph.edges@[k] == ed0[k],
            graph.blocked@ == bl0,
            worklist.strategy() == old(worklist).strategy(),
            worklist.pending() == pend0 + ids_between(st0.len(), graph.states@.len()),
            tr0 ==> graph.truncated,
            graph.truncated ==> graph.states@.len() == max_states,
            !graph.truncated ==> forall|jj: int|
                0 <= jj < j ==> #[trigger] firing_recorded(*net, graph.states@, graph.edges@, src as int, list[jj]),
        decreases n - j,
    {
        let ghost st1 = graph.states@;
        let ghost ed1 = graph.edges@;
        let ghost pr1 = graph.preds@;
        let t = enabled[j];
        assert(graph.states@[src as int] == st0[src as int]);
        let next = net.fire(&graph.states[src], t);
        match next {
            None => {},
            Some(next_state) => {
                let found = position(&graph.states, &next_state);
                let mut added = true;
                let mut target: usize = 0;
                match found {
                    Some(i) => {
                        target = i;
                    },
                    None => {
                        if graph.states.len() >= max_states {
                            graph.truncated = true;
                            added = false;
                        } else {
                            target = graph.states.len();
                            graph.states.push(next_state);
                            graph.preds.push(Some((src, t)));
                            worklist.push(StateId(target));
                            proof {
                                assert(ids_between(st0.len(), graph.states@.len()) =~= ids_between(
                                    st0.len(),
                                    st1.len(),
                                ).push(StateId(target)));
                            }
                        }
                    },
                }
                if added {
                    graph.edges.push((src, target, t));
                    proof {
                        let st2 = graph.states@;
                        let ed2 = graph.edges@;
                        let p = graph.preds@;
                        assert(ed2[ed2.len() - 1] == (src, target, t));
                        assert(has_edge(ed2, src as int, target as int, t));
                        assert(list.contains(t)) by {
                            assert(list[j as int] == t);
                        }
                        assert(firing_edge(*net, st2, ed2[ed2.len() - 1]));
                        assert forall|k: int| 0 <= k < ed2.len() implies firing_edge(*net, st2, #[trigger] ed2[k]) by {
                            if k < ed1.len() {
                                assert(ed2[k] == ed1[k]);
                                assert(firing_edge(*net, st1, ed1[k]));
                                assert(st2[ed1[k].0 as int] == st1[ed1[k].0 as int]);
                                assert(st2[ed1[k].1 as int] == st1[ed1[k].1 as int]);
                            }
                        }
                        assert forall|v: int| 0 < v < p.len() implies first_reached_by(ed2, v, #[trigger] p[v]) by {
                            if v < pr1.len() {
                                assert(p[v] == pr1[v]);
                                let e = pr1[v]->Some_0;
                                lemma_has_edge_grows(ed1, ed2, e.0 as int, v, e.1);
                            }
                        }
                        assert forall|a: int, b: int| 0 <= a < b < st2.len() implies (#[trigger] st2[a])@ != (
                        #[trigger] st2[b])@ by {
                            if b >= st1.len() {
                                assert(st2[a] == st1[a]);
                            } else {
                                assert(st2[a] == st1[a]);
                                assert(st2[b] == st1[b]);
                            }
                        }
                        assert forall|k: int| 0 <= k < graph.blocked@.len() implies (#[trigger] graph.blocked@[k])
                            < st2.len() && net.enabled_spec(st2[graph.blocked@[k] as int]@).len() == 0 by {
                            assert(st2[graph.blocked@[k] as int] == st1[graph.blocked@[k] as int]);
                        }
                        if !graph.truncated {
                            assert forall|jj: int| 0 <= jj < j + 1 implies #[trigger] firing_recorded(
                                *net,
                                st2,
                                ed2,
                                src as int,
                                list[jj],
                            ) by {
                                assert(st2[src as int] == st1[src as int]);
                                if jj < j {
                                    assert(firing_recorded(*net, st1, ed1, src as int, list[jj]));
                                    if net.fire_spec(st1[src as int]@, list[jj]) is Some {
                                        let s = net.fire_spec(st1[src as int]@, list[jj])->Some_0;
                                        let k = choose|k: int|
                                            0 <= k < ed1.len() && (#[trigger] ed1[k]).0 == src && ed1[k].2 == list[jj]
                                                && ed1[k].1 < st1.len() && st1[ed1[k].1 as int]@ == s;
                                        assert(ed2[k] == ed1[k]);
                                        assert(st2[ed1[k].1 as int] == st1[ed1[k].1 as int]);
                                    }
                                } else {
                                    let k = ed2.len() - 1;
                                    assert(ed2[k].0 == src);
                                }
                            }
                        }
                    }
                }
            },
        }
        proof {
            if !graph.truncated && next is None {
                assert(firing_recorded(*net, graph.states@, graph.edges@, src as int, list[j as int]));
            }
        }
        j = j + 1;
    }
}

/// Explores the states of `net` reachable from `initial`, expanding the
/// oldest pending state first or the newest, as `config` says, and keeping
/// at most `config.max_states` states. Every edge is a firing, no state is
/// kept twice, every blocked state enables nothing, every state but the
/// initial one records the edge that first reached it, and, unless the limit
/// cut the exploration short, every enabled firing of every state has its
/// edge.
pub fn explore<N: NetLike>(net: &N, initial: N::State, config: &AnalysisConfig) -> (r: ReachabilityGraph<N::State>)
    requires
        eq_is_view_eq::<N::State>(),
        config.max_states > 0,
    ensures
        explored_from(*net, initial@, r),
        r.states@.len() <= config.max_states,
        r.truncated ==> r.states@.len() == config.max_states,
        !r.truncated ==> forall|i: int|
            0 <= i < r.states@.len() ==> expanded(*net, r.states@, r.edges@, r.blocked@, i),
{
    let ghost init = initial@;
    let mut states: Vec<N::State> = Vec::new();
    states.push(initial);
    let mut preds: Vec<Option<(usize, TransitionId)>> = Vec::new();
    preds.push(None);
    let mut graph = ReachabilityGraph {
        states,
        edges: Vec::new(),
        initial: 0,
        blocked: Vec::new(),
        truncated: false,
        preds,
    };
    let order = match config.strategy {
        SearchStrategy::Bfs => super::generic::SearchStrategy::BreadthFirst,
        SearchStrategy::Dfs => super::generic::SearchStrategy::DepthFirst,
    };
    let mut worklist = Worklist::new(order, StateId(0));
    let max_states = config.max_states;
    assert(worklist.pending()[0] == StateId(0));
    loop
        invariant
            eq_is_view_eq::<N::State>(),
            max_states == config.max_states,
            max_states > 0,
            explored_from(*net, init, graph),
            graph.states@.len() <= max_states,
            graph.truncated ==> graph.states@.len() == max_states,
            forall|k: int| 0 <= k < worklist.pending().len() ==> (#[trigger] worklist.pending()[k]).0 < graph.states@.len(),
            !graph.truncated ==> forall|i: int|
                0 <= i < graph.states@.len() ==> worklist.pending().contains(StateId(i as usize)) || expanded(
                    *net,
                    graph.states@,
                    graph.edges@,
                    graph.blocked@,
                    i,
                ),
        ensures
            explored_from(*net, init, graph),
            graph.states@.len() <= max_states,
            graph.truncated ==> graph.states@.len() == max_states,
            !graph.truncated ==> forall|i: int|
                0 <= i < graph.states@.len() ==> expanded(*net, graph.states@, graph.edges@, graph.blocked@, i),
        decreases max_states - graph.states@.len(), worklist.pending().len(),
    {
        let ghost pend = worklist.pending();
        let ghost st0 = graph.states@;
        let ghost ed0 = graph.edges@;
        let ghost bl0 = graph.blocked@;
        let source = match worklist.pop() {
            Some(s) => s,
            None => {
                break;
            },
        };
        let ghost popped = worklist.pending();
        proof {
            assert(pend.contains(source)) by {
                if worklist.strategy() == super::generic::SearchStrategy::BreadthFirst {
                    assert(pend[0] == source);
                } else {
                    assert(pend[pend.len() - 1] == source);
                }
            }
            assert forall|x: StateId| #[trigger] pend.contains(x) && x != source implies popped.contains(x) by {
                let k = choose|k: int| 0 <= k < pend.len() && pend[k] == x;
                if worklist.strategy() == super::generic::SearchStrategy::BreadthFirst {
                    assert(popped[k - 1] == x);
                } else {
                    assert(popped[k] == x);
                }
            }
        }
        expand_state(net, &mut graph, &mut worklist, source.0, max_states, Ghost(init));
        proof {
            let st1 = graph.states@;
            let p1 = worklist.pending();
            assert forall|k: int| 0 <= k < p1.len() implies (#[trigger] p1[k]).0 < st1.len() by {
                if k >= popped.len() {
                    assert(p1[k] == ids_between(st0.len(), st1.len())[k - popped.len()]);
                } else {
                    assert(p1[k] == popped[k]);
                    assert(pend.contains(popped[k])) by {
                        if worklist.strategy() == super::generic::SearchStrategy::BreadthFirst {
                            assert(popped[k] == pend[k + 1]);
                        } else {
                            assert(popped[k] == pend[k]);
                        }
                    }
                }
            }
            if !graph.truncated {
                assert forall|i: int| 0 <= i < st1.len() implies p1.contains(StateId(i as usize)) || expanded(
                    *net,
                    st1,
                    graph.edges@,
                    graph.blocked@,
                    i,
                ) by {
                    if i >= st0.len() {
                        assert(p1[popped.len() + i - st0.len()] == StateId(i as usize));
                    } else if i != source.0 {
                        if pend.contains(StateId(i as usize)) {
                            let k = choose|k: int| 0 <= k < popped.len() && popped[k] == StateId(i as usize);
                            assert(p1[k] == StateId(i as usize));
                        } else {
                            lemma_expanded_grows(*net, st0, ed0, bl0, st1, graph.edges@, graph.blocked@, i);
                        }
                    }
                }
            }
        }
    }
    graph
}

/// The blocked states of `graph` that `is_deadlock` accepts, in order.
pub fn find_deadlocks<S, F: Fn(&S) -> bool>(graph: &ReachabilityGraph<S>, is_deadlock: F) -> (r: Vec<usize>)
    requires
        forall|k: int|
            0 <= k < graph.blocked@.len() ==> (#[trigger] graph.blocked@[k]) < graph.states@.len()
                && is_deadlock.requires((&graph.states@[graph.blocked@[k] as int],)),
    ensures
        r@.len() <= graph.blocked@.len(),
        forall|k: int|
            0 <= k < r@.len() ==> graph.blocked@.contains(#[trigger] r@[k]) && is_deadlock.ensures(
                (&graph.states@[r@[k] as int],),
                true,
            ),
        forall|k: int|
            0 <= k < graph.blocked@.len() && !r@.contains(#[trigger] graph.blocked@[k]) ==> is_deadlock.ensures(
                (&graph.states@[graph.blocked@[k] as int],),
                false,
            ),
{
    let mut r: Vec<usize> = Vec::new();
    let n = graph.blocked.len();
    let mut k: usize = 0;
    while k < n
        invariant
            k <= n,
            n == graph.blocked@.len(),
            r@.len() <= k,
            forall|k2: int|
                0 <= k2 < graph.blocked@.len() ==> (#[trigger] graph.blocked@[k2]) < graph.states@.len()
                    && is_deadlock.requires((&graph.states@[graph.blocked@[k2] as int],)),
            forall|j: int|
                0 <= j < r@.len() ==> graph.blocked@.contains(#[trigger] r@[j]) && is_deadlock.ensures(
                    (&graph.states@[r@[j] as int],),
                    true,
                ),
            forall|j: int|
                0 <= j < k && !r@.contains(#[trigger] graph.blocked@[j]) ==> is_deadlock.ensures(
                    (&graph.states@[graph.blocked@[j] as int],),
                    false,
                ),
        decreases n - k,
    {
        let id = graph.blocked[k];
        let dead = is_deadlock(&graph.states[id]);
        let ghost old_r = r@;
        if dead {
            r.push(id);
            assert(graph.blocked@.contains(id)) by {
                assert(graph.blocked@[k as int] == id);
            }
            assert(r@[r@.len() - 1] == id);
        }
        proof {
            assert forall|j: int|
                0 <= j < k + 1 && !r@.contains(#[trigger] graph.blocked@[j]) implies is_deadlock.ensures(
                    (&graph.states@[graph.blocked@[j] as int],),
                    false,
                ) by {
                if j < k {
                    if old_r.contains(graph.blocked@[j]) {
                        let a = choose|a: int| 0 <= a < old_r.len() && old_r[a] == graph.blocked@[j];
                        assert(r@[a] == graph.blocked@[j]);
                    }
                }
            }
        }
        k = k + 1;
    }
    r
}

/// The view reached from `s` by firing the transitions of `path` in turn,
/// each enabled where it fires; none when one of them is not.
pub open spec fn run<N: NetLike>(net: N, s: <N::State as View>::V, path: Seq<TransitionId>) -> Option<
    <N::State as View>::V,
>
    decreases path.len(),
{
    if path.len() == 0 {
        Some(s)
    } else {
        match run(net, s, path.drop_last()) {
            Some(m) => if net.enabled_spec(m).contains(path.last()) {
                net.fire_spec(m, path.last())
            } else {
                None
            },
            None => None,
        }
    }
}

/// Following edges of a sound exploration replays firings: a path of edges
/// from the initial state to state `target` fires, from the initial view,
/// into the view of `target`. With `trace_to`, the trace of every state
/// replays to it.
pub proof fn law_path_replays<N: NetLike>(
    net: N,
    init: <N::State as View>::V,
    g: ReachabilityGraph<N::State>,
    target: int,
    path: Seq<TransitionId>,
)
    requires
        explored_from(net, init, g),
        0 <= target < g.states@.len(),
        path_along(g.edges@, 0, target, path),
    ensures
        run(net, init, path) == Some(g.states@[target]@),
    decreases path.len(),
{
    if path.len() > 0 {
        let t = path.last();
        let mid = choose|mid: int| #[trigger] has_edge(g.edges@, mid, target, t) && path_along(
            g.edges@,
            0,
            mid,
            path.drop_last(),
        );
        let k = choose|k: int|
            0 <= k < g.edges@.len() && (#[trigger] g.edges@[k]).0 == mid && g.edges@[k].1 == target && g.edges@[k].2 == t;
        assert(firing_edge(net, g.states@, g.edges@[k]));
        law_path_replays(net, init, g, mid, path.drop_last());
    }
}

/// A complete exploration misses no reachable state: when every state of a
/// sound exploration from `init` is expanded, whatever view a sequence of
/// firings reaches from `init` is the view of one of its states.
pub proof fn law_explore_complete<N: NetLike>(
    net: N,
    init: <N::State as View>::V,
    g: ReachabilityGraph<N::State>,
    path: Seq<TransitionId>,
)
    requires
        explored_from(net, init, g),
        forall|i: int| 0 <= i < g.states@.len() ==> expanded(net, g.states@, g.edges@, g.blocked@, i),
        run(net, init, path) is Some,
    ensures
        exists|i: int| 0 <= i < g.states@.len() && (#[trigger] g.states@[i])@ == run(net, init, path)->Some_0,
    decreases path.len(),
{
    if path.len() == 0 {
        assert(g.states@[0]@ == init);
    } else {
        let t = path.last();
        law_explore_complete(net, init, g, path.drop_last());
        let m = run(net, init, path.drop_last())->Some_0;
        let i = choose|i: int| 0 <= i < g.states@.len() && (#[trigger] g.states@[i])@ == m;
        assert(expanded(net, g.states@, g.edges@, g.blocked@, i));
        let list = net.enabled_spec(m);
        let j = choose|j: int| 0 <= j < list.len() && list[j] == t;
        assert(firing_recorded(net, g.states@, g.edges@, i, list[j]));
        let k = choose|k: int|
            0 <= k < g.edges@.len() && (#[trigger] g.edges@[k]).0 == i as usize && g.edges@[k].2 == t
                && g.edges@[k].1 < g.states@.len() && g.states@[g.edges@[k].1 as int]@ == net.fire_spec(m, t)->Some_0;
        assert(g.states@[g.edges@[k].1 as int]@ == run(net, init, path)->Some_0);
    }
}

} // verus!
