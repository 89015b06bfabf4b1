//! The state-class reachability graph of a priority timed net: from each
//! class, let time elapse on its zone, then branch on every
//! priority-enabled transition that can fire.
use vstd::prelude::*;
use std::collections::HashMap;

use crate::ids::{PlaceId, TransitionId};
use crate::pt::{lemma_reachable_refl, lemma_reachable_step, Marking, PtExecutionError, PtNet};
use crate::text::{decimal, push_char, push_decimal, push_str, string_of};
use crate::timed::{TimeInterval, TimedNet, INF};

use super::canonicalization::{can_merge_into, can_merge_spec, check_equality, CanonicalizationMode};
use super::dbm::{
    cell, closure, extrapolate_changes, extrapolate_pass, in_range, init_cell, lemma_matrix_ext, lemma_matrix_of,
    matrix_of, tighten_matrix, tighten_ok, DBM, INF_TIME,
};
use super::scheduling::{
    enabled_below, lemma_enabled_below, priority_filter, suspended_of, Scheduling,
};
use super::state_class::{
    contains, hash_state_class, hashed_values, mix_all, same_class, ClockKind, ClockVar, FiringEdge, StateClass,
};

verus! {

/// Counts of a construction.
#[derive(Debug, Clone)]
pub struct Statistics {
    pub total_states: usize,
    pub total_transitions: usize,
    pub dedup_hits: usize,
    pub truncated: bool,
}

impl Default for Statistics {
    fn default() -> (r: Self)
        ensures
            r.total_states == 0,
            r.total_transitions == 0,
            r.dedup_hits == 0,
            !r.truncated,
    {
        Statistics { total_states: 0, total_transitions: 0, dedup_hits: 0, truncated: false }
    }
}

/// A state-class graph: the classes, the edges `(source, target, firing)`,
/// the initial class and the counts of the construction.
pub struct StateClassGraph {
    pub states: Vec<StateClass>,
    pub edges: Vec<(usize, usize, FiringEdge)>,
    pub initial: usize,
    pub stats: Statistics,
}

impl Default for StateClassGraph {
    fn default() -> (r: Self)
        ensures
            r.states@.len() == 0,
            r.edges@.len() == 0,
            r.initial == 0,
            r.stats.total_states == 0,
            r.stats.total_transitions == 0,
            r.stats.dedup_hits == 0,
            !r.stats.truncated,
    {
        StateClassGraph { states: Vec::new(), edges: Vec::new(), initial: 0, stats: Statistics::default() }
    }
}

/// How classes are explored: how they are matched, whether zones are
/// extrapolated, and the parallelism bound of each core (none for a core
/// without entry, or with a bound of zero or less).
pub struct TimedReachabilityConfig {
    pub canonicalization: CanonicalizationMode,
    pub extrapolation: bool,
    pub core_parallelism: HashMap<i32, i32>,
}

impl Default for TimedReachabilityConfig {
    fn default() -> (r: Self)
        ensures
            r.canonicalization == CanonicalizationMode::Equality,
            !r.extrapolation,
            r.core_parallelism@ == Map::<i32, i32>::empty(),
    {
        TimedReachabilityConfig {
            canonicalization: CanonicalizationMode::Equality,
            extrapolation: false,
            core_parallelism: HashMap::new(),
        }
    }
}

/// Whether a zone over the clocks of all transitions of `net` fits in
/// memory and its indices in an `i32`.
pub open spec fn fits(net: TimedNet) -> bool {
    let n = 2 * net.net.transitions@.len() + 1;
    &&& n * n <= usize::MAX
    &&& n <= i32::MAX
}

/// The number of transitions of a net that fits is below `usize::MAX`.
pub proof fn lemma_fits(net: TimedNet)
    requires
        fits(net),
    ensures
        net.net.transitions@.len() < usize::MAX,
        2 * net.net.transitions@.len() + 1 <= i32::MAX,
{
    let n = 2 * net.net.transitions@.len() + 1;
    assert(n <= n * n) by (nonlinear_arith)
        requires
            n >= 1,
    ;
}

/// Whether two classes hold the same values but for their zones.
pub open spec fn same_but_zone(a: StateClass, b: StateClass) -> bool {
    &&& a.marking@ == b.marking@
    &&& a.clock_vars@ == b.clock_vars@
    &&& a.exec_clock_of_transition@ == b.exec_clock_of_transition@
    &&& a.susp_clock_of_transition@ == b.susp_clock_of_transition@
    &&& a.struct_enabled@ == b.struct_enabled@
    &&& a.priority_enabled@ == b.priority_enabled@
    &&& a.suspended@ == b.suspended@
    &&& a.elapsed_time == b.elapsed_time
    &&& a.id == b.id
}

/// The clock layout of a class whose enabled transitions are `se` and
/// suspended ones `susp`: the reference clock, then, for each enabled
/// transition in order, its execution clock, followed by its suspension
/// clock when it is suspended.
pub open spec fn layout_of(se: Seq<usize>, susp: Seq<usize>) -> Seq<ClockVar>
    decreases se.len(),
{
    if se.len() == 0 {
        seq![ClockVar { kind: ClockKind::Zero, transition: 0 }]
    } else {
        let t = se.last();
        let prev = layout_of(se.drop_last(), susp).push(ClockVar { kind: ClockKind::Execution, transition: t });
        if susp.contains(t) {
            prev.push(ClockVar { kind: ClockKind::Suspension, transition: t })
        } else {
            prev
        }
    }
}

/// Whether the clock indices of `s` agree with its layout over `nt`
/// transitions: index 0 is the reference clock, every other index is the
/// execution or suspension clock of one transition and is recorded for it,
/// and a transition has an execution clock exactly when it is enabled and a
/// suspension clock exactly when it is suspended.
pub open spec fn layout_ok(s: StateClass, nt: nat) -> bool {
    let n = s.clock_vars@.len();
    &&& n >= 1
    &&& s.clock_vars@[0].kind == ClockKind::Zero
    &&& s.exec_clock_of_transition@.len() == nt
    &&& s.susp_clock_of_transition@.len() == nt
    &&& forall|t: int|
        0 <= t < nt ==> (#[trigger] s.exec_clock_of_transition@[t] == -1 || (1 <= s.exec_clock_of_transition@[t] < n
            && s.clock_vars@[s.exec_clock_of_transition@[t] as int] == ClockVar {
            kind: ClockKind::Execution,
            transition: t as usize,
        }))
    &&& forall|t: int|
        0 <= t < nt ==> (#[trigger] s.susp_clock_of_transition@[t] == -1 || (1 <= s.susp_clock_of_transition@[t] < n
            && s.clock_vars@[s.susp_clock_of_transition@[t] as int] == ClockVar {
            kind: ClockKind::Suspension,
            transition: t as usize,
        }))
    &&& forall|t: int| 0 <= t < nt ==> (s.exec_clock_of_transition@[t] > 0 <==> #[trigger] s.struct_enabled@.contains(t as usize))
    &&& forall|t: int| 0 <= t < nt ==> (s.susp_clock_of_transition@[t] > 0 <==> #[trigger] s.suspended@.contains(t as usize))
    &&& forall|i: int|
        1 <= i < n ==> {
            let v = #[trigger] s.clock_vars@[i];
            &&& v.kind != ClockKind::Zero
            &&& v.transition < nt
            &&& v.kind == ClockKind::Execution ==> s.exec_clock_of_transition@[v.transition as int] == i
            &&& v.kind == ClockKind::Suspension ==> s.susp_clock_of_transition@[v.transition as int] == i
        }
}

/// Whether `s` is a class of `net` under parallelism bounds `cp`: its sets
/// are those of its marking, its clocks laid out for them, and its zone
/// over exactly those clocks.
pub open spec fn class_ok(s: StateClass, net: TimedNet, cp: Map<i32, i32>) -> bool {
    let nt = net.net.transitions@.len();
    &&& s.marking@.len() == net.net.places@.len()
    &&& s.struct_enabled@ == enabled_below(net.net, s.marking@, nt)
    &&& s.priority_enabled@ == priority_filter(s.struct_enabled@, net, cp)
    &&& s.suspended@ == suspended_of(s.struct_enabled@, s.priority_enabled@, net)
    &&& s.clock_vars@ == layout_of(s.struct_enabled@, s.suspended@)
    &&& layout_ok(s, nt)
    &&& s.zone.wf()
    &&& s.zone.dim() == s.clock_vars@.len()
}

/// The firing interval of transition `t` (`[0, 0]` without timing).
pub open spec fn interval_of(net: TimedNet, t: int) -> TimeInterval {
    match net.timing_of(t) {
        Some(x) => x.interval,
        None => TimeInterval { earliest: 0, latest: 0 },
    }
}

/// The earliest firing time of transition `t` (zero without timing).
pub open spec fn earliest_of(net: TimedNet, t: int) -> i32 {
    match net.timing_of(t) {
        Some(x) => x.interval.earliest_spec(),
        None => 0,
    }
}

/// The deadline of transition `t` (`INF` without timing).
pub open spec fn deadline_of(net: TimedNet, t: int) -> i32 {
    match net.timing_of(t) {
        Some(x) => x.interval.latest_spec(),
        None => INF,
    }
}

/// The largest finite bound of the first `n` firing intervals, at least zero.
pub open spec fn bound_upto(net: TimedNet, n: nat) -> i32
    decreases n,
{
    if n == 0 {
        0
    } else {
        let prev = bound_upto(net, (n - 1) as nat);
        let i = interval_of(net, n - 1);
        let a = if i.earliest_spec() > prev {
            i.earliest_spec()
        } else {
            prev
        };
        if i.latest_spec() != INF_TIME && i.latest_spec() > a {
            i.latest_spec()
        } else {
            a
        }
    }
}

/// The extrapolation bound: the largest finite bound of any firing interval
/// when extrapolation is on, `-1` otherwise.
pub open spec fn extrapolation_spec(net: TimedNet, enabled: bool) -> i32 {
    if enabled {
        bound_upto(net, net.net.transitions@.len())
    } else {
        -1i32
    }
}

fn extrapolation_bound(net: &TimedNet, enabled: bool) -> (r: i32)
    ensures
        r == extrapolation_spec(*net, enabled),
{
    if !enabled {
        return -1;
    }
    let mut k: i32 = 0;
    let nt = net.num_transitions();
    let mut t: usize = 0;
    while t < nt
        invariant
            t <= nt,
            nt == net.net.transitions@.len(),
            k == bound_upto(*net, t as nat),
        decreases nt - t,
    {
        let interval = match net.transition(TransitionId(t)) {
            Some(tr) => tr.interval,
            None => TimeInterval::closed(0, 0),
        };
        assert(interval == interval_of(*net, t as int));
        let e = interval.effective_earliest();
        if e > k {
            k = e;
        }
        let latest = interval.effective_latest();
        if latest != INF_TIME && latest > k {
            k = latest;
        }
        t = t + 1;
    }
    k
}

/// Builds the state-class reachability graph of a timed net.
pub struct StateClassReachabilityGraph<'a> {
    net: &'a TimedNet,
    initial_marking: Marking,
    config: TimedReachabilityConfig,
    graph: StateClassGraph,
    extrapolation_k: i32,
    next_id: usize,
    hashes: Vec<u64>,
}

impl<'a> StateClassReachabilityGraph<'a> {
    /// The net explored.
    pub closed spec fn net_spec(&self) -> TimedNet {
        *self.net
    }

    /// The marking exploration starts from.
    pub closed spec fn initial_spec(&self) -> Seq<usize> {
        self.initial_marking@
    }

    /// The parallelism bounds of the cores.
    pub closed spec fn cores(&self) -> Map<i32, i32> {
        self.config.core_parallelism@
    }

    /// How classes are matched.
    pub closed spec fn mode(&self) -> CanonicalizationMode {
        self.config.canonicalization
    }

    /// Whether zones are extrapolated.
    pub closed spec fn extrapolates(&self) -> bool {
        self.config.extrapolation
    }

    /// The bound zones are extrapolated with.
    pub closed spec fn bound_k(&self) -> i32 {
        self.extrapolation_k
    }

    /// The graph built so far.
    pub closed spec fn graph_spec(&self) -> &StateClassGraph {
        &self.graph
    }

    /// A builder over `net` from `initial_marking` with the default
    /// configuration.
    pub fn new(net: &'a TimedNet, initial_marking: Marking) -> (r: Self)
        ensures
            r.net_spec() == *net,
            r.initial_spec() == initial_marking@,
            r.cores() == Map::<i32, i32>::empty(),
            r.mode() == CanonicalizationMode::Equality,
            !r.extrapolates(),
            r.graph_spec().states@.len() == 0,
            r.graph_spec().edges@.len() == 0,
    {
        Self::with_config(net, initial_marking, TimedReachabilityConfig::default())
    }

    /// A builder over `net` from `initial_marking` with `config`.
    pub fn with_config(net: &'a TimedNet, initial_marking: Marking, config: TimedReachabilityConfig) -> (r: Self)
        ensures
            r.net_spec() == *net,
            r.initial_spec() == initial_marking@,
            r.cores() == config.core_parallelism@,
            r.mode() == config.canonicalization,
            r.extrapolates() == config.extrapolation,
            r.graph_spec().states@.len() == 0,
            r.graph_spec().edges@.len() == 0,
    {
        let extrapolation_k = extrapolation_bound(net, config.extrapolation);
        StateClassReachabilityGraph {
            net,
            initial_marking,
            config,
            graph: StateClassGraph::default(),
            extrapolation_k,
            next_id: 0,
            hashes: Vec::new(),
        }
    }

    /// The graph built so far.
    pub fn get_graph(&self) -> (r: &StateClassGraph)
        ensures
            r == self.graph_spec(),
    {
        &self.graph
    }
}

/// The entry of the zone in which every clock equals the reference clock.
pub open spec fn pinned_cell(i: int, j: int) -> i32 {
    if i == j || i == 0 || j == 0 {
        0
    } else {
        INF_TIME
    }
}

/// `n` copies of -1.
fn minus_ones(n: usize) -> (r: Vec<i32>)
    ensures
        r@.len() == n,
        forall|i: int| 0 <= i < n ==> r@[i] == -1,
{
    let mut r: Vec<i32> = Vec::new();
    for i in 0..n
        invariant
            r@.len() == i,
            forall|j: int| 0 <= j < i ==> r@[j] == -1,
    {
        r.push(-1);
    }
    r
}

proof fn lemma_increasing_len(s: Seq<usize>, n: nat)
    requires
        forall|a: int, b: int| 0 <= a < b < s.len() ==> s[a] < s[b],
        forall|a: int| 0 <= a < s.len() ==> (#[trigger] s[a]) < n,
    ensures
        s.len() <= n,
    decreases s.len(),
{
    if s.len() > 0 {
        let l = s.last();
        assert forall|a: int| 0 <= a < s.drop_last().len() implies (#[trigger] s.drop_last()[a]) < l as nat by {
            assert(s[a] < s[s.len() - 1]);
        }
        lemma_increasing_len(s.drop_last(), l as nat);
    }
}

proof fn lemma_layout_len(se: Seq<usize>, susp: Seq<usize>)
    ensures
        1 <= layout_of(se, susp).len() <= 1 + 2 * se.len(),
        layout_of(se, susp)[0] == (ClockVar { kind: ClockKind::Zero, transition: 0 }),
    decreases se.len(),
{
    if se.len() > 0 {
        lemma_layout_len(se.drop_last(), susp);
    }
}

impl<'a> StateClassReachabilityGraph<'a> {
    /// Sets the enabled, priority-enabled and suspended transitions of
    /// `state` from its marking.
    fn recompute_sets(&self, state: &mut StateClass)
        requires
            self.net.wf(),
            old(state).marking@.len() == self.net.net.places@.len(),
        ensures
            final(state).marking@ == old(state).marking@,
            final(state).zone.dim() == old(state).zone.dim(),
            final(state).zone.m() == old(state).zone.m(),
            final(state).zone.frozen() == old(state).zone.frozen(),
            final(state).clock_vars@ == old(state).clock_vars@,
            final(state).exec_clock_of_transition@ == old(state).exec_clock_of_transition@,
            final(state).susp_clock_of_transition@ == old(state).susp_clock_of_transition@,
            final(state).elapsed_time == old(state).elapsed_time,
            final(state).id == old(state).id,
            final(state).struct_enabled@ == enabled_below(
                self.net.net,
                old(state).marking@,
                self.net.net.transitions@.len(),
            ),
            final(state).priority_enabled@ == priority_filter(
                final(state).struct_enabled@,
                *self.net,
                self.config.core_parallelism@,
            ),
            final(state).suspended@ == suspended_of(
                final(state).struct_enabled@,
                final(state).priority_enabled@,
                *self.net,
            ),
    {
        let (struct_enabled, priority_enabled, suspended) = Scheduling::compute_sets(
            self.net,
            &state.marking,
            &self.config.core_parallelism,
        );
        state.struct_enabled = struct_enabled;
        state.priority_enabled = priority_enabled;
        state.suspended = suspended;
    }

    /// Lays out the clocks of `state` for its enabled and suspended
    /// transitions.
    fn build_layout(&self, state: &mut StateClass)
        requires
            self.net.wf(),
            fits(*self.net),
            forall|a: int, b: int|
                0 <= a < b < old(state).struct_enabled@.len() ==> old(state).struct_enabled@[a]
                    < old(state).struct_enabled@[b],
            forall|a: int|
                0 <= a < old(state).struct_enabled@.len() ==> (#[trigger] old(state).struct_enabled@[a])
                    < self.net.net.transitions@.len(),
            forall|t: usize| #[trigger] old(state).suspended@.contains(t) ==> old(state).struct_enabled@.contains(t),
        ensures
            final(state).marking@ == old(state).marking@,
            final(state).zone.dim() == old(state).zone.dim(),
            final(state).zone.m() == old(state).zone.m(),
            final(state).zone.frozen() == old(state).zone.frozen(),
            final(state).struct_enabled@ == old(state).struct_enabled@,
            final(state).priority_enabled@ == old(state).priority_enabled@,
            final(state).suspended@ == old(state).suspended@,
            final(state).elapsed_time == old(state).elapsed_time,
            final(state).id == old(state).id,
            final(state).clock_vars@ == layout_of(old(state).struct_enabled@, old(state).suspended@),
            layout_ok(*final(state), self.net.net.transitions@.len()),
    {
        let nt = self.net.num_transitions();
        let ghost se = state.struct_enabled@;
        let ghost susp = state.suspended@;
        state.clock_vars = Vec::new();
        state.clock_vars.push(ClockVar { kind: ClockKind::Zero, transition: 0 });
        state.exec_clock_of_transition = minus_ones(nt);
        state.susp_clock_of_transition = minus_ones(nt);
        assert(se.take(0) =~= Seq::<usize>::empty());
        assert forall|u: usize| !(#[trigger] se.take(0).contains(u)) by {}
        assert(state.clock_vars@ == layout_of(se.take(0), susp));
        let len = state.struct_enabled.len();
        let ghost s0 = *old(state);
        proof {
            lemma_increasing_len(se, nt as nat);
        }
        let mut k: usize = 0;
        while k < len
            invariant
                k <= len,
                len <= nt,
                self.net.wf(),
                fits(*self.net),
                nt == self.net.net.transitions@.len(),
                len == se.len(),
                se == state.struct_enabled@,
                susp == state.suspended@,
                state.marking@ == s0.marking@,
                state.zone.dim() == s0.zone.dim(),
                state.zone.m() == s0.zone.m(),
                state.zone.frozen() == s0.zone.frozen(),
                state.priority_enabled@ == s0.priority_enabled@,
                state.elapsed_time == s0.elapsed_time,
                state.id == s0.id,
                forall|a: int, b: int| 0 <= a < b < se.len() ==> se[a] < se[b],
                forall|a: int| 0 <= a < se.len() ==> (#[trigger] se[a]) < nt,
                state.clock_vars@ == layout_of(se.take(k as int), susp),
                state.clock_vars@.len() <= 1 + 2 * k,
                state.clock_vars@[0].kind == ClockKind::Zero,
                state.exec_clock_of_transition@.len() == nt,
                state.susp_clock_of_transition@.len() == nt,
                forall|t: int|
                    0 <= t < nt ==> (#[trigger] state.exec_clock_of_transition@[t] == -1 || (1
                        <= state.exec_clock_of_transition@[t] < state.clock_vars@.len()
                        && state.clock_vars@[state.exec_clock_of_transition@[t] as int] == ClockVar {
                        kind: ClockKind::Execution,
                        transition: t as usize,
                    })),
                forall|t: int|
                    0 <= t < nt ==> (#[trigger] state.susp_clock_of_transition@[t] == -1 || (1
                        <= state.susp_clock_of_transition@[t] < state.clock_vars@.len()
                        && state.clock_vars@[state.susp_clock_of_transition@[t] as int] == ClockVar {
                        kind: ClockKind::Suspension,
                        transition: t as usize,
                    })),
                forall|t: int|
                    0 <= t < nt ==> (state.exec_clock_of_transition@[t] > 0 <==> #[trigger] se.take(
                        k as int,
                    ).contains(t as usize)),
                forall|t: int|
                    0 <= t < nt ==> (state.susp_clock_of_transition@[t] > 0 <==> (#[trigger] se.take(
                        k as int,
                    ).contains(t as usize) && susp.contains(t as usize))),
                forall|i: int|
                    1 <= i < state.clock_vars@.len() ==> {
                        let v = #[trigger] state.clock_vars@[i];
                        &&& v.kind != ClockKind::Zero
                        &&& v.transition < nt
                        &&& v.kind == ClockKind::Execution ==> state.exec_clock_of_transition@[v.transition as int] == i
                        &&& v.kind == ClockKind::Suspension ==> state.susp_clock_of_transition@[v.transition as int]
                            == i
                    },
            decreases len - k,
        {
            let t = state.struct_enabled[k];
            proof {
                assert(se.take(k + 1).drop_last() == se.take(k as int));
                assert(se.take(k + 1).last() == t);
                assert(!se.take(k as int).contains(t)) by {
                    if se.take(k as int).contains(t) {
                        let a = choose|a: int| 0 <= a < k && #[trigger] se.take(k as int)[a] == t;
                        assert(se[a] < se[k as int]);
                    }
                }
                assert(forall|u: usize| #[trigger] se.take(k + 1).contains(u) <==> (se.take(k as int).contains(u) || u == t)) by {
                    assert forall|u: usize| #[trigger] se.take(k + 1).contains(u) implies (se.take(k as int).contains(u) || u == t) by {
                        let a = choose|a: int| 0 <= a < k + 1 && #[trigger] se.take(k + 1)[a] == u;
                        if a < k {
                            assert(se.take(k as int)[a] == u);
                        }
                    }
                    assert forall|u: usize| (se.take(k as int).contains(u) || u == t) implies #[trigger] se.take(k + 1).contains(u) by {
                        if u == t {
                            assert(se.take(k + 1)[k as int] == t);
                        } else {
                            let a = choose|a: int| 0 <= a < k && #[trigger] se.take(k as int)[a] == u;
                            assert(se.take(k + 1)[a] == u);
                        }
                    }
                }
            }
            let exec_idx = state.clock_vars.len();
            state.clock_vars.push(ClockVar { kind: ClockKind::Execution, transition: t });
            state.exec_clock_of_transition.set(t, exec_idx as i32);
            if contains(&state.suspended, t) {
                let susp_idx = state.clock_vars.len();
                state.clock_vars.push(ClockVar { kind: ClockKind::Suspension, transition: t });
                state.susp_clock_of_transition.set(t, susp_idx as i32);
            }
            k = k + 1;
        }
        assert(se.take(len as int) == se);
        assert forall|t: int| 0 <= t < nt implies (state.susp_clock_of_transition@[t] > 0 <==> #[trigger] susp.contains(
            t as usize,
        )) by {
            assert(se.take(len as int).contains(t as usize) == se.contains(t as usize));
            if susp.contains(t as usize) {
                assert(old(state).suspended@.contains(t as usize));
            }
        }
        assert forall|t: int| 0 <= t < nt implies (state.exec_clock_of_transition@[t] > 0 <==> #[trigger] se.contains(
            t as usize,
        )) by {
            assert(se.take(len as int).contains(t as usize) == se.contains(t as usize));
        }
    }

    /// The initial class: the initial marking, its sets and clock layout,
    /// and the zone in which every clock is zero.
    pub fn compute_initial_class(&self) -> (r: StateClass)
        requires
            self.net_spec().wf(),
            fits(self.net_spec()),
            self.initial_spec().len() == self.net_spec().net.places@.len(),
        ensures
            class_ok(r, self.net_spec(), self.cores()),
            r.marking@ == self.initial_spec(),
            r.zone.m() == closure(matrix_of(r.zone.dim(), |i: int, j: int| pinned_cell(i, j)), r.zone.dim()),
            r.zone.frozen() == Seq::<usize>::empty(),
            r.elapsed_time == 0,
            r.id == 0,
    {
        let mut state = StateClass::default();
        state.marking = self.initial_marking.clone();
        state.elapsed_time = 0;
        self.recompute_sets(&mut state);
        proof {
            lemma_enabled_below(self.net.net, state.marking@, self.net.net.transitions@.len());
            assert forall|t: usize| #[trigger] state.suspended@.contains(t) implies state.struct_enabled@.contains(t) by {
                let pred = |t: usize| !state.priority_enabled@.contains(t) && super::scheduling::suspendable_of(*self.net, t as int);
                state.struct_enabled@.lemma_filter_contains_rev(pred, t);
            }
        }
        self.build_layout(&mut state);
        proof {
            lemma_layout_len(state.struct_enabled@, state.suspended@);
            lemma_increasing_len(state.struct_enabled@, self.net.net.transitions@.len());
        }
        let n = state.clock_vars.len();
        assert(n * n <= usize::MAX) by (nonlinear_arith)
            requires
                n <= 2 * self.net.net.transitions@.len() + 1,
                (2 * self.net.net.transitions@.len() + 1) * (2 * self.net.net.transitions@.len() + 1) <= usize::MAX,
        ;
        let mut zone = DBM::new(n);
        for i in 1..n
            invariant
                zone.wf(),
                zone.dim() == n,
                zone.frozen() == Seq::<usize>::empty(),
                forall|a: int, b: int|
                    #![trigger zone.bound(a, b)]
                    in_range(n as nat, a, b) ==> zone.bound(a, b) == if (a == 0 || b == 0) && (a < i && b < i) {
                        pinned_cell(a, b)
                    } else {
                        init_cell(a, b)
                    },
        {
            zone.set_constraint(0, i, 0);
            zone.set_constraint(i, 0, 0);
        }
        proof {
            lemma_matrix_of(n as nat, |i: int, j: int| pinned_cell(i, j));
            assert forall|a: int, b: int|
                #![trigger cell(zone.m(), n as nat, a, b)]
                in_range(n as nat, a, b) implies cell(zone.m(), n as nat, a, b) == cell(
                    matrix_of(n as nat, |i: int, j: int| pinned_cell(i, j)),
                    n as nat,
                    a,
                    b,
                ) by {
                assert(zone.bound(a, b) == pinned_cell(a, b));
            }
            lemma_matrix_ext(n as nat, zone.m(), matrix_of(n as nat, |i: int, j: int| pinned_cell(i, j)));
        }
        zone.minimize();
        state.zone = zone;
        state
    }
}

/// Whether clock `i` of `s` runs while time elapses: a suspension clock, or
/// the execution clock of a priority-enabled transition.
pub open spec fn running(s: StateClass, i: int) -> bool {
    &&& 1 <= i < s.clock_vars@.len()
    &&& (s.clock_vars@[i].kind == ClockKind::Suspension || (s.clock_vars@[i].kind == ClockKind::Execution
        && s.priority_enabled@.contains(s.clock_vars@[i].transition)))
}

/// Bound `(i, j)` of `s` once the upper bound of each running clock relative
/// to every clock that stands still is released.
pub open spec fn released_cell(s: StateClass, i: int, j: int) -> i32 {
    if running(s, i) && !running(s, j) && i != j {
        INF_TIME
    } else {
        s.zone.bound(i, j)
    }
}

/// Bound `(i, j)` of `s` after time elapses, before closure: released, and
/// the execution clock of each priority-enabled transition with a deadline
/// capped at that deadline.
pub open spec fn capped_cell(s: StateClass, net: TimedNet, i: int, j: int) -> i32 {
    let r = released_cell(s, i, j);
    let v = s.clock_vars@[i];
    let d = deadline_of(net, v.transition as int);
    if j == 0 && 1 <= i < s.clock_vars@.len() && v.kind == ClockKind::Execution && s.priority_enabled@.contains(
        v.transition,
    ) && d != INF_TIME && (r == INF_TIME || d < r) {
        d
    } else {
        r
    }
}

/// The zone of `s` after time elapses.
pub open spec fn elapse_zone(s: StateClass, net: TimedNet) -> Seq<i32> {
    closure(matrix_of(s.zone.dim(), |i: int, j: int| capped_cell(s, net, i, j)), s.zone.dim())
}

/// A filter of a strictly increasing sequence is strictly increasing and
/// holds only values of the sequence.
proof fn lemma_filter_increasing(s: Seq<usize>, p: spec_fn(usize) -> bool)
    requires
        forall|a: int, b: int| 0 <= a < b < s.len() ==> s[a] < s[b],
    ensures
        forall|a: int, b: int| 0 <= a < b < s.filter(p).len() ==> s.filter(p)[a] < s.filter(p)[b],
        forall|x: usize| #[trigger] s.filter(p).contains(x) ==> s.contains(x),
    decreases s.len(),
{
    broadcast use vstd::seq_lib::group_filter_ensures;

    if s.len() > 0 {
        let d = s.drop_last();
        let l = s.last();
        lemma_filter_increasing(d, p);
        assert(s == d.push(l));
        d.lemma_filter_push(l, p);
        assert forall|x: usize| #[trigger] d.filter(p).contains(x) implies x < l by {
            let a = choose|a: int| 0 <= a < d.len() && d[a] == x;
            assert(s[a] < s[s.len() - 1]);
        }
        assert forall|x: usize| #[trigger] s.filter(p).contains(x) implies s.contains(x) by {
            s.lemma_filter_contains_rev(p, x);
        }
        if p(l) {
            assert forall|a: int, b: int| 0 <= a < b < s.filter(p).len() implies s.filter(p)[a] < s.filter(p)[b] by {
                if b == s.filter(p).len() - 1 {
                    assert(d.filter(p).contains(s.filter(p)[a]));
                }
            }
        }
    }
}

impl<'a> StateClassReachabilityGraph<'a> {
    /// Lets time elapse in `state`: running clocks advance while the others
    /// stand still, and no running execution clock passes its transition's
    /// deadline.
    #[verifier::rlimit(40)]
    pub fn time_elapse(&self, state: &StateClass) -> (out: StateClass)
        requires
            self.net_spec().wf(),
            fits(self.net_spec()),
            class_ok(*state, self.net_spec(), self.cores()),
        ensures
            out.marking@ == state.marking@,
            out.clock_vars@ == state.clock_vars@,
            out.exec_clock_of_transition@ == state.exec_clock_of_transition@,
            out.susp_clock_of_transition@ == state.susp_clock_of_transition@,
            out.struct_enabled@ == state.struct_enabled@,
            out.priority_enabled@ == state.priority_enabled@,
            out.suspended@ == state.suspended@,
            out.elapsed_time == state.elapsed_time,
            out.id == state.id,
            out.zone.dim() == state.zone.dim(),
            out.zone.frozen() == state.zone.frozen(),
            out.zone.m() == elapse_zone(*state, self.net_spec()),
            class_ok(out, self.net_spec(), self.cores()),
    {
        let ghost net = *self.net;
        let ghost st = *state;
        let mut out = state.clone();
        let n = out.zone.size();
        let mut run: Vec<bool> = Vec::new();
        while run.len() < n
            invariant
                run@.len() <= n,
                forall|x: int| 0 <= x < run@.len() ==> !run@[x],
            decreases n - run@.len(),
        {
            run.push(false);
        }
        let mut c: usize = 1;
        while c < n
            invariant
                1 <= c,
                n == out.zone.dim(),
                n == out.clock_vars@.len(),
                same_but_zone(out, st),
                run@.len() == n,
                forall|x: int| 0 <= x < n ==> #[trigger] run@[x] == (x < c && running(st, x)),
            decreases n - c,
        {
            let var = out.clock_vars[c];
            match var.kind {
                ClockKind::Suspension => {
                    run.set(c, true);
                },
                ClockKind::Execution => {
                    if contains(&out.priority_enabled, var.transition) {
                        run.set(c, true);
                    }
                },
                ClockKind::Zero => {},
            }
            c = c + 1;
        }
        let mut i: usize = 1;
        while i < n
            invariant
                1 <= i <= n,
                n == out.zone.dim(),
                n == st.zone.dim(),
                out.zone.wf(),
                out.zone.frozen() == st.zone.frozen(),
                same_but_zone(out, st),
                run@.len() == n,
                forall|x: int| 0 <= x < n ==> run@[x] == running(st, x),
                forall|a: int, b: int|
                    #![trigger out.zone.bound(a, b)]
                    in_range(n as nat, a, b) ==> out.zone.bound(a, b) == if a < i {
                        released_cell(st, a, b)
                    } else {
                        st.zone.bound(a, b)
                    },
            decreases n - i,
        {
            if run[i] {
                let mut j: usize = 0;
                while j < n
                    invariant
                        1 <= i < n,
                        j <= n,
                        n == out.zone.dim(),
                        out.zone.wf(),
                        out.zone.frozen() == st.zone.frozen(),
                        same_but_zone(out, st),
                        run@.len() == n,
                        run@[i as int],
                        forall|x: int| 0 <= x < n ==> run@[x] == running(st, x),
                        forall|a: int, b: int|
                            #![trigger out.zone.bound(a, b)]
                            in_range(n as nat, a, b) ==> out.zone.bound(a, b) == if a < i || (a == i && b < j) {
                                released_cell(st, a, b)
                            } else {
                                st.zone.bound(a, b)
                            },
                    decreases n - j,
                {
                    if j != i && !run[j] {
                        out.zone.set_constraint(i, j, INF_TIME);
                    }
                    j = j + 1;
                }
            }
            i = i + 1;
        }
        proof {
            lemma_fits(net);
            lemma_enabled_below(net.net, st.marking@, net.net.transitions@.len());
            lemma_filter_increasing(st.struct_enabled@, |t: usize| super::scheduling::keeps_running(st.struct_enabled@, net, self.config.core_parallelism@, t));
        }
        let ghost pe = st.priority_enabled@;
        let np = out.priority_enabled.len();
        let mut k: usize = 0;
        while k < np
            invariant
                k <= np,
                np == pe.len(),
                pe == out.priority_enabled@,
                n == out.zone.dim(),
                n == st.zone.dim(),
                net == *self.net,
                class_ok(st, net, self.config.core_parallelism@),
                out.zone.wf(),
                out.zone.frozen() == st.zone.frozen(),
                same_but_zone(out, st),
                fits(net),
                pe == st.priority_enabled@,
                forall|a: int, b: int| 0 <= a < b < pe.len() ==> pe[a] < pe[b],
                forall|x: usize| #[trigger] pe.contains(x) ==> st.struct_enabled@.contains(x),
                forall|a: int, b: int|
                    #![trigger out.zone.bound(a, b)]
                    in_range(n as nat, a, b) ==> out.zone.bound(a, b) == if b == 0 && 1 <= a
                        && st.clock_vars@[a].kind == ClockKind::Execution && pe.take(k as int).contains(
                        st.clock_vars@[a].transition,
                    ) {
                        capped_cell(st, net, a, b)
                    } else {
                        released_cell(st, a, b)
                    },
            decreases np - k,
        {
            let t = out.priority_enabled[k];
            proof {
                assert(pe.contains(t)) by {
                    assert(pe[k as int] == t);
                }
                assert(!pe.take(k as int).contains(t)) by {
                    if pe.take(k as int).contains(t) {
                        let a = choose|a: int| 0 <= a < k && #[trigger] pe.take(k as int)[a] == t;
                        assert(pe[a] < pe[k as int]);
                    }
                }
                assert forall|u: usize| #[trigger] pe.take(k + 1).contains(u) <==> (pe.take(k as int).contains(u) || u == t) by {
                    if pe.take(k + 1).contains(u) {
                        let a = choose|a: int| 0 <= a < k + 1 && #[trigger] pe.take(k + 1)[a] == u;
                        if a < k {
                            assert(pe.take(k as int)[a] == u);
                        }
                    }
                    if u == t {
                        assert(pe.take(k + 1)[k as int] == t);
                    } else if pe.take(k as int).contains(u) {
                        let a = choose|a: int| 0 <= a < k && #[trigger] pe.take(k as int)[a] == u;
                        assert(pe.take(k + 1)[a] == u);
                    }
                }
                lemma_fits(net);
                lemma_enabled_below(net.net, st.marking@, net.net.transitions@.len());
            }
            let ghost before = out.zone;
            if out.has_exec_clock(t) {
                let upper = match self.net.transition(TransitionId(t)) {
                    Some(tr) => tr.interval.effective_latest(),
                    None => INF,
                };
                assert(upper == deadline_of(net, t as int));
                if upper != INF_TIME {
                    let idx = out.exec_index(t) as usize;
                    let current = out.zone.get_constraint(idx, 0);
                    if current == INF_TIME || upper < current {
                        out.zone.set_constraint(idx, 0, upper);
                    }
                }
            }
            proof {
                assert(st.struct_enabled@.contains(t));
                assert(t < net.net.transitions@.len());
                let idx = st.exec_clock_of_transition@[t as int];
                assert(idx > 0);
                assert forall|a: int, b: int|
                    #![trigger out.zone.bound(a, b)]
                    in_range(n as nat, a, b) implies out.zone.bound(a, b) == if b == 0 && 1 <= a
                        && st.clock_vars@[a].kind == ClockKind::Execution && pe.take(k + 1).contains(
                        st.clock_vars@[a].transition,
                    ) {
                        capped_cell(st, net, a, b)
                    } else {
                        released_cell(st, a, b)
                    } by {
                    assert(before.bound(a, b) == if b == 0 && 1 <= a
                        && st.clock_vars@[a].kind == ClockKind::Execution && pe.take(k as int).contains(
                        st.clock_vars@[a].transition,
                    ) {
                        capped_cell(st, net, a, b)
                    } else {
                        released_cell(st, a, b)
                    });
                    if b == 0 && 1 <= a && st.clock_vars@[a].kind == ClockKind::Execution
                        && st.clock_vars@[a].transition == t {
                        assert(st.exec_clock_of_transition@[t as int] == a);
                    }
                    if a == idx && b == 0 {
                        assert(st.clock_vars@[a] == ClockVar { kind: ClockKind::Execution, transition: t });
                    }
                }
            }
            k = k + 1;
        }
        proof {
            assert(pe.take(np as int) == pe);
            lemma_matrix_of(n as nat, |i: int, j: int| capped_cell(st, net, i, j));
            assert forall|a: int, b: int|
                #![trigger cell(out.zone.m(), n as nat, a, b)]
                in_range(n as nat, a, b) implies cell(out.zone.m(), n as nat, a, b) == cell(
                    matrix_of(n as nat, |i: int, j: int| capped_cell(st, net, i, j)),
                    n as nat,
                    a,
                    b,
                ) by {
                assert(out.zone.bound(a, b) == capped_cell(st, net, a, b));
            }
            lemma_matrix_ext(n as nat, out.zone.m(), matrix_of(n as nat, |i: int, j: int| capped_cell(st, net, i, j)));
        }
        out.zone.minimize();
        out
    }
}

/// Whether transition `t` can fire from the class `s` with zone bounds `m`:
/// it is priority-enabled, has an execution clock, and that clock can reach
/// the transition's earliest firing time.
pub open spec fn firable_with(s: StateClass, m: Seq<i32>, net: TimedNet, t: usize) -> bool {
    let idx = s.exec_of(t as int);
    &&& s.priority_enabled@.contains(t)
    &&& idx > 0
    &&& (cell(m, s.zone.dim(), idx as int, 0) == INF_TIME || cell(m, s.zone.dim(), idx as int, 0) >= earliest_of(
        net,
        t as int,
    ))
}

/// Whether transition `t` fires from the class `s` with zone bounds `m`: it
/// is firable, the zone stays non-empty once its execution clock is at
/// least its earliest firing time, and the tokens allow the firing.
pub open spec fn fires_with(s: StateClass, m: Seq<i32>, net: TimedNet, t: usize) -> bool {
    &&& firable_with(s, m, net, t)
    &&& tighten_ok(m, s.zone.dim(), 0, s.exec_of(t as int) as int, (0 - earliest_of(net, t as int)) as i32)
    &&& net.net.fire_result(s.marking@, t) is Ok
}

/// Whether transition `t` can fire from the class `s` (after time elapsed).
pub open spec fn firable_spec(s: StateClass, net: TimedNet, t: usize) -> bool {
    firable_with(s, s.zone.m(), net, t)
}

/// Whether transition `t` fires from the class `s` (after time elapsed).
pub open spec fn fires(s: StateClass, net: TimedNet, t: usize) -> bool {
    fires_with(s, s.zone.m(), net, t)
}

/// Whether transition `t` fires from the class `s` once time elapses.
pub open spec fn steps_to(s: StateClass, net: TimedNet, t: usize) -> bool {
    fires_with(s, elapse_zone(s, net), net, t)
}

/// The zone of `s` once transition `t` fires: its execution clock at least
/// the transition's earliest firing time.
pub open spec fn fired_zone(s: StateClass, net: TimedNet, t: usize) -> Seq<i32> {
    tighten_matrix(s.zone.m(), s.zone.dim(), 0, s.exec_of(t as int) as int, (0 - earliest_of(net, t as int)) as i32)
}

/// Whether `s` is the class reached when `t` fires from the class
/// `elapsed` (after time elapsed): a class of the net whose marking is the
/// one reached, with no frozen clock, the closure of the zone in which the
/// execution clock of `t` is at least its earliest firing time carried over
/// to the new clock layout, the elapsed time advanced by the firing instant,
/// and id 0.
pub open spec fn fired_class(elapsed: StateClass, net: TimedNet, cp: Map<i32, i32>, t: usize, s: StateClass) -> bool {
    &&& class_ok(s, net, cp)
    &&& net.net.fire_result(elapsed.marking@, t) == Ok::<Seq<usize>, PtExecutionError>(s.marking@)
    &&& s.zone.frozen() == Seq::<usize>::empty()
    &&& s.zone.m() == closure(
        matrix_of(
            s.clock_vars@.len(),
            |i: int, j: int|
                successor_cell(
                    s.clock_vars@,
                    elapsed,
                    fired_zone(elapsed, net, t),
                    elapsed.zone.dim(),
                    t,
                    i,
                    j,
                ),
        ),
        s.clock_vars@.len(),
    )
    &&& s.elapsed_time == elapsed.elapsed_time.saturating_add(
        if firing_instant(elapsed, net, t) > 0 {
            firing_instant(elapsed, net, t) as u64
        } else {
            0
        },
    )
    &&& s.id == 0
}

/// The zone bounds `m` (over `n` clocks, `frozen` frozen) after the optional
/// extrapolation with bound `k` that the graph applies to every class.
pub open spec fn zone_after(m: Seq<i32>, n: nat, frozen: Seq<usize>, extrapolates: bool, k: i32) -> Seq<i32> {
    if !extrapolates || k < 0 || !extrapolate_changes(m, n, frozen, k) {
        m
    } else {
        closure(extrapolate_pass(m, n, frozen, k), n)
    }
}

/// Whether `succ` is the class computed when `t` fires from class `src`:
/// time elapses on the zone of `src`, `t` fires, and the zone is
/// extrapolated as configured.
pub open spec fn successor_of(
    src: StateClass,
    net: TimedNet,
    cp: Map<i32, i32>,
    extrapolates: bool,
    k: i32,
    t: usize,
    succ: StateClass,
) -> bool {
    exists|el: StateClass, pre: StateClass|
        {
            &&& same_but_zone(el, src)
            &&& el.zone.dim() == src.zone.dim()
            &&& el.zone.m() == elapse_zone(src, net)
            &&& #[trigger] fired_class(el, net, cp, t, pre)
            &&& same_but_zone(succ, pre)
            &&& succ.zone.dim() == pre.zone.dim()
            &&& succ.zone.frozen() == pre.zone.frozen()
            &&& succ.zone.m() == zone_after(pre.zone.m(), pre.zone.dim(), pre.zone.frozen(), extrapolates, k)
        }
}

/// Whether edge `e` leads to the class computed by firing its transition
/// from its source class, or to a class found earlier into which that class
/// merges under `mode`.
pub open spec fn edge_zoned(
    states: Seq<StateClass>,
    e: (usize, usize, FiringEdge),
    net: TimedNet,
    cp: Map<i32, i32>,
    extrapolates: bool,
    k: i32,
    mode: CanonicalizationMode,
) -> bool {
    exists|succ: StateClass|
        {
            &&& #[trigger] successor_of(states[e.0 as int], net, cp, extrapolates, k, e.2.transition_id, succ)
            &&& (states[e.1 as int] == StateClass { id: e.1, ..succ } || can_merge_spec(succ, states[e.1 as int], mode))
        }
}

/// Whether every edge of `edges` satisfies `edge_zoned`.
pub open spec fn edges_zoned(
    states: Seq<StateClass>,
    edges: Seq<(usize, usize, FiringEdge)>,
    net: TimedNet,
    cp: Map<i32, i32>,
    extrapolates: bool,
    k: i32,
    mode: CanonicalizationMode,
) -> bool {
    forall|j: int|
        0 <= j < edges.len() ==> #[trigger] edge_zoned(states, edges[j], net, cp, extrapolates, k, mode)
}

/// Adding edge `e` whose target is the computed class `succ` (or one it
/// merges into), and possibly new classes after the old ones, keeps every
/// edge zoned.
proof fn lemma_zoned_extend(
    st: Seq<StateClass>,
    ed: Seq<(usize, usize, FiringEdge)>,
    st2: Seq<StateClass>,
    e: (usize, usize, FiringEdge),
    net: TimedNet,
    cp: Map<i32, i32>,
    extrapolates: bool,
    k: i32,
    mode: CanonicalizationMode,
    succ: StateClass,
)
    requires
        edges_zoned(st, ed, net, cp, extrapolates, k, mode),
        forall|j: int| 0 <= j < ed.len() ==> (#[trigger] ed[j]).0 < st.len() && ed[j].1 < st.len(),
        st.len() <= st2.len(),
        forall|v: int| 0 <= v < st.len() ==> #[trigger] st2[v] == st[v],
        e.0 < st.len(),
        e.1 < st2.len(),
        successor_of(st[e.0 as int], net, cp, extrapolates, k, e.2.transition_id, succ),
        st2[e.1 as int] == (StateClass { id: e.1, ..succ }) || can_merge_spec(succ, st2[e.1 as int], mode),
    ensures
        edges_zoned(st2, ed.push(e), net, cp, extrapolates, k, mode),
{
    let ed2 = ed.push(e);
    assert forall|j: int| 0 <= j < ed2.len() implies #[trigger] edge_zoned(
        st2,
        ed2[j],
        net,
        cp,
        extrapolates,
        k,
        mode,
    ) by {
        if j < ed.len() {
            assert(ed2[j] == ed[j]);
            assert(edge_zoned(st, ed[j], net, cp, extrapolates, k, mode));
            let w = choose|w: StateClass|
                {
                    &&& #[trigger] successor_of(st[ed[j].0 as int], net, cp, extrapolates, k, ed[j].2.transition_id, w)
                    &&& (st[ed[j].1 as int] == StateClass { id: ed[j].1, ..w } || can_merge_spec(
                        w,
                        st[ed[j].1 as int],
                        mode,
                    ))
                };
            assert(st2[ed[j].0 as int] == st[ed[j].0 as int]);
            assert(st2[ed[j].1 as int] == st[ed[j].1 as int]);
            assert(successor_of(st2[ed[j].0 as int], net, cp, extrapolates, k, ed[j].2.transition_id, w));
        } else {
            assert(ed2[j] == e);
            assert(st2[e.0 as int] == st[e.0 as int]);
            assert(successor_of(st2[e.0 as int], net, cp, extrapolates, k, e.2.transition_id, succ));
        }
    }
}

/// The zone of the initial class over `n` clocks: every clock zero, then
/// the configured extrapolation.
pub open spec fn initial_zone(n: nat, extrapolates: bool, k: i32) -> Seq<i32> {
    zone_after(closure(matrix_of(n, |i: int, j: int| pinned_cell(i, j)), n), n, Seq::empty(), extrapolates, k)
}

/// The clock of `src` that clock `i` of a successor with clocks `vars`
/// carries on, after `fired_t` fired: the reference clock, and the clocks of
/// the other transitions that had one; -1 for a fresh clock.
pub open spec fn source_index(vars: Seq<ClockVar>, src: StateClass, fired_t: usize, i: int) -> int {
    if i == 0 {
        0
    } else {
        let v = vars[i];
        if v.kind == ClockKind::Execution && v.transition != fired_t && src.exec_of(v.transition as int) > 0 {
            src.exec_of(v.transition as int) as int
        } else if v.kind == ClockKind::Suspension && v.transition != fired_t && src.susp_of(v.transition as int)
            > 0 {
            src.susp_of(v.transition as int) as int
        } else {
            -1
        }
    }
}

/// Bound `(i, j)` of a successor with clocks `vars`, before closure: the
/// bound between the clocks it carries on from `src` in the fired zone `fm`
/// (of dimension `fd`), and every fresh clock pinned to the reference clock.
pub open spec fn successor_cell(
    vars: Seq<ClockVar>,
    src: StateClass,
    fm: Seq<i32>,
    fd: nat,
    fired_t: usize,
    i: int,
    j: int,
) -> i32 {
    let a = source_index(vars, src, fired_t, i);
    let b = source_index(vars, src, fired_t, j);
    if a >= 0 && b >= 0 {
        cell(fm, fd, a, b)
    } else if j == 0 && i >= 1 {
        0
    } else if i == 0 && j >= 1 {
        0
    } else {
        init_cell(i, j)
    }
}

/// The moment transition `t` fires from `s`: its earliest firing time, or
/// later when its execution clock cannot be that small.
pub open spec fn firing_instant(s: StateClass, net: TimedNet, t: usize) -> i32 {
    let lower = earliest_of(net, t as int);
    let h = (0i32).wrapping_sub(s.zone.bound(0, s.exec_of(t as int) as int));
    if lower > h {
        lower
    } else {
        h
    }
}

impl<'a> StateClassReachabilityGraph<'a> {
    /// Whether `t` can fire from the class `elapsed`.
    pub fn is_firable(&self, elapsed: &StateClass, t: usize) -> (r: bool)
        requires
            elapsed.zone.wf(),
            elapsed.zone.dim() == elapsed.clock_vars@.len(),
            layout_ok(*elapsed, self.net_spec().net.transitions@.len()),
        ensures
            r == firable_spec(*elapsed, self.net_spec(), t),
    {
        if !contains(&elapsed.priority_enabled, t) || !elapsed.has_exec_clock(t) {
            return false;
        }
        let idx = elapsed.exec_index(t) as usize;
        let max_h = elapsed.zone.get_constraint(idx, 0);
        if max_h == INF_TIME {
            return true;
        }
        let earliest = match self.net.transition(TransitionId(t)) {
            Some(tr) => tr.interval.effective_earliest(),
            None => 0,
        };
        max_h >= earliest
    }

    /// Sets the zone of `successor` from the fired zone of `source` after
    /// `fired_transition` fired: the clocks it carries on keep their
    /// bounds, fresh clocks start at zero.
    fn build_successor_zone(&self, successor: &mut StateClass, fired: &DBM, source: &StateClass, fired_transition: usize)
        requires
            fits(*self.net),
            layout_ok(*old(successor), self.net.net.transitions@.len()),
            old(successor).clock_vars@.len() <= 2 * self.net.net.transitions@.len() + 1,
            layout_ok(*source, self.net.net.transitions@.len()),
            fired.wf(),
            fired.dim() == source.clock_vars@.len(),
        ensures
            same_but_zone(*final(successor), *old(successor)),
            final(successor).zone.wf(),
            final(successor).zone.dim() == old(successor).clock_vars@.len(),
            final(successor).zone.frozen() == Seq::<usize>::empty(),
            final(successor).zone.m() == closure(
                matrix_of(
                    old(successor).clock_vars@.len(),
                    |i: int, j: int|
                        successor_cell(
                            old(successor).clock_vars@,
                            *source,
                            fired.m(),
                            fired.dim(),
                            fired_transition,
                            i,
                            j,
                        ),
                ),
                old(successor).clock_vars@.len(),
            ),
    {
        let ghost vars = successor.clock_vars@;
        let ghost nt = self.net.net.transitions@.len();
        let n = successor.clock_vars.len();
        proof {
            lemma_fits(*self.net);
        }
        assert(n * n <= usize::MAX) by (nonlinear_arith)
            requires
                n <= 2 * nt + 1,
                (2 * nt + 1) * (2 * nt + 1) <= usize::MAX,
        ;
        let mut zone = DBM::new(n);
        let mut si: Vec<i32> = Vec::new();
        si.push(0);
        while si.len() < n
            invariant
                1 <= si@.len() <= n,
                si@[0] == 0,
                forall|x: int| 1 <= x < si@.len() ==> #[trigger] si@[x] == -1,
            decreases n - si@.len(),
        {
            si.push(-1);
        }
        let mut i: usize = 1;
        while i < n
            invariant
                1 <= i <= n,
                n == vars.len(),
                vars == successor.clock_vars@,
                layout_ok(*successor, nt),
                layout_ok(*source, nt),
                fired.dim() == source.clock_vars@.len(),
                si@.len() == n,
                forall|x: int| 0 <= x < n ==> #[trigger] si@[x] == if x < i {
                    source_index(vars, *source, fired_transition, x)
                } else if x == 0 {
                    0
                } else {
                    -1
                },
            decreases n - i,
        {
            let var = successor.clock_vars[i];
            let t = var.transition;
            match var.kind {
                ClockKind::Execution => {
                    if t != fired_transition && source.has_exec_clock(t) {
                        si.set(i, source.exec_index(t));
                    }
                },
                ClockKind::Suspension => {
                    if t != fired_transition && source.has_susp_clock(t) {
                        si.set(i, source.susp_index(t));
                    }
                },
                ClockKind::Zero => {},
            }
            i = i + 1;
        }
        assert forall|x: int| 0 <= x < n implies -1 <= #[trigger] si@[x] < fired.dim() by {
            if x >= 1 {
                let v = vars[x];
                assert(v.transition < nt);
            }
        }
        let mut i: usize = 0;
        while i < n
            invariant
                i <= n,
                n == vars.len(),
                zone.wf(),
                zone.dim() == n,
                zone.frozen() == Seq::<usize>::empty(),
                fired.wf(),
                si@.len() == n,
                forall|x: int| 0 <= x < n ==> #[trigger] si@[x] == source_index(vars, *source, fired_transition, x),
                forall|x: int| 0 <= x < n ==> -1 <= #[trigger] si@[x] < fired.dim(),
                forall|a: int, b: int|
                    #![trigger zone.bound(a, b)]
                    in_range(n as nat, a, b) ==> zone.bound(a, b) == if a < i && si@[a] >= 0 && si@[b] >= 0 {
                        cell(fired.m(), fired.dim(), si@[a] as int, si@[b] as int)
                    } else {
                        init_cell(a, b)
                    },
            decreases n - i,
        {
            if si[i] >= 0 {
                let mut j: usize = 0;
                while j < n
                    invariant
                        i < n,
                        j <= n,
                        zone.wf(),
                        zone.dim() == n,
                        zone.frozen() == Seq::<usize>::empty(),
                        fired.wf(),
                        si@.len() == n,
                        si@[i as int] >= 0,
                        forall|x: int| 0 <= x < n ==> -1 <= #[trigger] si@[x] < fired.dim(),
                        forall|a: int, b: int|
                            #![trigger zone.bound(a, b)]
                            in_range(n as nat, a, b) ==> zone.bound(a, b) == if (a < i || (a == i && b < j))
                                && si@[a] >= 0 && si@[b] >= 0 {
                                cell(fired.m(), fired.dim(), si@[a] as int, si@[b] as int)
                            } else {
                                init_cell(a, b)
                            },
                    decreases n - j,
                {
                    if si[j] >= 0 {
                        let v = fired.get_constraint(si[i] as usize, si[j] as usize);
                        zone.set_constraint(i, j, v);
                    }
                    j = j + 1;
                }
            }
            i = i + 1;
        }
        let mut i: usize = 1;
        while i < n
            invariant
                1 <= i <= n,
                n == vars.len(),
                zone.wf(),
                zone.dim() == n,
                zone.frozen() == Seq::<usize>::empty(),
                si@.len() == n,
                forall|x: int| 0 <= x < n ==> #[trigger] si@[x] == source_index(vars, *source, fired_transition, x),
                forall|a: int, b: int|
                    #![trigger zone.bound(a, b)]
                    in_range(n as nat, a, b) ==> zone.bound(a, b) == if si@[a] >= 0 && si@[b] >= 0 {
                        cell(fired.m(), fired.dim(), si@[a] as int, si@[b] as int)
                    } else if b == 0 && 1 <= a < i {
                        0
                    } else if a == 0 && 1 <= b < i {
                        0
                    } else {
                        init_cell(a, b)
                    },
            decreases n - i,
        {
            if si[i] < 0 {
                zone.set_constraint(0, i, 0);
                zone.set_constraint(i, 0, 0);
            }
            i = i + 1;
        }
        proof {
            let f = |i: int, j: int| successor_cell(vars, *source, fired.m(), fired.dim(), fired_transition, i, j);
            lemma_matrix_of(n as nat, f);
            assert forall|a: int, b: int|
                #![trigger cell(zone.m(), n as nat, a, b)]
                in_range(n as nat, a, b) implies cell(zone.m(), n as nat, a, b) == cell(matrix_of(n as nat, f), n as nat, a, b) by {
                assert(zone.bound(a, b) == f(a, b));
            }
            lemma_matrix_ext(n as nat, zone.m(), matrix_of(n as nat, f));
        }
        zone.minimize();
        successor.zone = zone;
    }

    /// Fires `t` from the class `elapsed` into `successor`: the zone with the
    /// execution clock of `t` at least its earliest firing time, the marking
    /// reached, its sets and clock layout, and the carried-on clocks. Leaves
    /// `successor` as it was and returns false when `t` does not fire.
    #[verifier::rlimit(30)]
    pub fn fire(&self, elapsed: &StateClass, t: usize, successor: &mut StateClass) -> (r: bool)
        requires
            self.net_spec().wf(),
            fits(self.net_spec()),
            class_ok(*elapsed, self.net_spec(), self.cores()),
        ensures
            r == fires(*elapsed, self.net_spec(), t),
            !r ==> same_class(*final(successor), *old(successor)),
            r ==> fired_class(*elapsed, self.net_spec(), self.cores(), t, *final(successor)),
    {
        if !self.is_firable(elapsed, t) {
            return false;
        }
        let mut fired = elapsed.zone.clone();
        let idx = elapsed.exec_index(t) as usize;
        let lower = match self.net.transition(TransitionId(t)) {
            Some(tr) => tr.interval.effective_earliest(),
            None => 0,
        };
        assert(lower == earliest_of(*self.net, t as int));
        if !fired.tighten(0, idx, -lower) {
            return false;
        }
        let next_marking = match self.net.fire(&elapsed.marking, TransitionId(t)) {
            Ok(m) => m,
            Err(_) => {
                return false;
            },
        };
        let mut next = StateClass::default();
        next.marking = next_marking;
        self.recompute_sets(&mut next);
        proof {
            lemma_fits(*self.net);
            lemma_enabled_below(self.net.net, next.marking@, self.net.net.transitions@.len());
            assert forall|u: usize| #[trigger] next.suspended@.contains(u) implies next.struct_enabled@.contains(u) by {
                let pred = |u: usize| !next.priority_enabled@.contains(u) && super::scheduling::suspendable_of(*self.net, u as int);
                next.struct_enabled@.lemma_filter_contains_rev(pred, u);
            }
        }
        self.build_layout(&mut next);
        proof {
            lemma_layout_len(next.struct_enabled@, next.suspended@);
            lemma_increasing_len(next.struct_enabled@, self.net.net.transitions@.len());
        }
        self.build_successor_zone(&mut next, &fired, elapsed, t);
        let h_lower = 0i32.wrapping_sub(elapsed.zone.get_constraint(0, idx));
        let instant = if lower > h_lower {
            lower
        } else {
            h_lower
        };
        let add: u64 = if instant > 0 {
            instant as u64
        } else {
            0
        };
        next.elapsed_time = elapsed.elapsed_time.saturating_add(add);
        *successor = next;
        true
    }
}

/// The larger of two bounds.
pub open spec fn max_i32(a: i32, b: i32) -> i32 {
    if a > b {
        a
    } else {
        b
    }
}

/// The edge recorded when transition `t` fires from the class `s`: the
/// window of its execution clock after time elapsed, capped by its deadline
/// and starting no earlier than its earliest firing time, and how long the
/// net may dwell in `s` before.
pub open spec fn edge_of(s: StateClass, net: TimedNet, t: usize) -> FiringEdge {
    let n = s.zone.dim();
    let idx = s.exec_of(t as int) as int;
    let ez = elapse_zone(s, net);
    let h_low = (0i32).wrapping_sub(cell(ez, n, 0, idx));
    let h_high = cell(ez, n, idx, 0);
    let up = deadline_of(net, t as int);
    let fire_min = max_i32(max_i32(0, earliest_of(net, t as int)), h_low);
    let fire_max = if up != INF_TIME && (h_high == INF_TIME || up < h_high) {
        up
    } else {
        h_high
    };
    let entry_low = (0i32).wrapping_sub(s.zone.bound(0, idx));
    let entry_high = s.zone.bound(idx, 0);
    let dwell_min = max_i32(0, fire_min.wrapping_sub(entry_high));
    let dwell_max = if fire_max == INF_TIME || entry_low == INF_TIME {
        INF_TIME
    } else {
        max_i32(0, fire_max.wrapping_sub(entry_low))
    };
    FiringEdge { transition_id: t, firing_min: fire_min, firing_max: fire_max, dwell_min, dwell_max }
}

/// Whether every transition that fires from class `w` once time elapses has
/// an edge out of `w` in `edges`.
pub open spec fn handled(states: Seq<StateClass>, edges: Seq<(usize, usize, FiringEdge)>, net: TimedNet, w: int) -> bool {
    forall|t: usize|
        #[trigger] steps_to(states[w], net, t) ==> exists|k: int|
            0 <= k < edges.len() && (#[trigger] edges[k]).0 == w && edges[k].2.transition_id == t
}

/// Whether `edges` are edges between `states` of `net`: each goes from a
/// class to one whose marking is reached by firing its transition, which
/// fires from the source once time elapses, with the recorded window.
pub open spec fn edges_ok(states: Seq<StateClass>, edges: Seq<(usize, usize, FiringEdge)>, net: TimedNet) -> bool {
    forall|k: int|
        0 <= k < edges.len() ==> {
            let e = #[trigger] edges[k];
            &&& e.0 < states.len()
            &&& e.1 < states.len()
            &&& steps_to(states[e.0 as int], net, e.2.transition_id)
            &&& e.2 == edge_of(states[e.0 as int], net, e.2.transition_id)
            &&& net.net.fire_result(states[e.0 as int].marking@, e.2.transition_id) == Ok::<
                Seq<usize>,
                PtExecutionError,
            >(states[e.1 as int].marking@)
        }
}

/// The hash of a class's identity.
pub open spec fn class_hash(s: StateClass) -> u64 {
    mix_all(0, hashed_values(s.marking@, s.clock_vars@, s.zone.m()))
}

impl<'a> StateClassReachabilityGraph<'a> {
    /// Whether the classes found so far are classes of the net, numbered in
    /// order, reachable from the initial marking, with their hashes recorded,
    /// and the edges and counts agree with them.
    pub closed spec fn graph_inv(&self, max_states: nat) -> bool {
        let st = self.graph.states@;
        let net = *self.net;
        &&& net.wf()
        &&& fits(net)
        &&& self.initial_marking@.len() == net.net.places@.len()
        &&& self.hashes@.len() == st.len()
        &&& self.next_id == st.len()
        &&& st.len() >= 1
        &&& st.len() <= max_states || st.len() == 1
        &&& self.graph.initial == 0
        &&& st[0].marking@ == self.initial_marking@
        &&& forall|v: int| 0 <= v < st.len() ==> class_ok(#[trigger] st[v], net, self.config.core_parallelism@)
        &&& forall|v: int| 0 <= v < st.len() ==> (#[trigger] st[v]).id == v
        &&& forall|v: int| 0 <= v < st.len() ==> #[trigger] self.hashes@[v] == class_hash(st[v])
        &&& forall|v: int| 0 <= v < st.len() ==> net.net.reachable(self.initial_marking@, (#[trigger] st[v]).marking@)
        &&& edges_ok(st, self.graph.edges@, net)
        &&& edges_zoned(
            st,
            self.graph.edges@,
            net,
            self.config.core_parallelism@,
            self.config.extrapolation,
            self.extrapolation_k,
            self.config.canonicalization,
        )
        &&& st[0].zone.m() == initial_zone(st[0].zone.dim(), self.config.extrapolation, self.extrapolation_k)
        &&& self.graph.stats.total_states == st.len()
        &&& self.graph.stats.total_transitions == self.graph.edges@.len()
        &&& self.graph.stats.dedup_hits + st.len() == self.graph.edges@.len() + 1
    }

    /// The first class found so far into which `state` may be merged.
    fn find_match(&self, state: &StateClass) -> (r: Option<usize>)
        requires
            self.graph_inv(self.graph.states@.len() as nat),
            state.zone.wf(),
        ensures
            match r {
                Some(v) => {
                    &&& v < self.graph.states@.len()
                    &&& can_merge_spec(*state, self.graph.states@[v as int], self.config.canonicalization)
                    &&& forall|w: int| 0 <= w < v ==> !can_merge_spec(*state, #[trigger] self.graph.states@[w], self.config.canonicalization)
                },
                None => forall|w: int|
                    0 <= w < self.graph.states@.len() ==> !can_merge_spec(*state, #[trigger] self.graph.states@[w], self.config.canonicalization),
            },
    {
        let ghost st = self.graph.states@;
        let equality = match self.config.canonicalization {
            CanonicalizationMode::Equality => true,
            _ => false,
        };
        let hash = if equality {
            hash_state_class(state)
        } else {
            0
        };
        let len = self.graph.states.len();
        let mut v: usize = 0;
        while v < len
            invariant
                v <= len,
                len == st.len(),
                st == self.graph.states@,
                self.graph_inv(len as nat),
                state.zone.wf(),
                equality == (self.config.canonicalization == CanonicalizationMode::Equality),
                equality ==> hash == class_hash(*state),
                forall|w: int| 0 <= w < v ==> !can_merge_spec(*state, #[trigger] st[w], self.config.canonicalization),
            decreases len - v,
        {
            let existing = &self.graph.states[v];
            assert(class_ok(st[v as int], *self.net, self.config.core_parallelism@));
            if equality {
                if self.hashes[v] == hash && check_equality(state, existing) {
                    return Some(v);
                }
            } else if can_merge_into(state, existing, self.config.canonicalization) {
                return Some(v);
            }
            v = v + 1;
        }
        None
    }
}

impl<'a> StateClassReachabilityGraph<'a> {
    /// Records `state` as a new class numbered after the classes found so
    /// far, and returns its index.
    fn add_state(&mut self, state: StateClass) -> (idx: usize)
        requires
            old(self).next_id == old(self).graph.states@.len(),
            old(self).next_id < usize::MAX,
            state.zone.wf(),
        ensures
            idx == old(self).graph.states@.len(),
            final(self).graph.states@ == old(self).graph.states@.push(StateClass { id: idx, ..state }),
            final(self).hashes@ == old(self).hashes@.push(class_hash(state)),
            final(self).next_id == old(self).next_id + 1,
            final(self).graph.edges@ == old(self).graph.edges@,
            final(self).graph.stats == old(self).graph.stats,
            final(self).graph.initial == old(self).graph.initial,
            final(self).net == old(self).net,
            final(self).config == old(self).config,
            final(self).initial_marking == old(self).initial_marking,
            final(self).extrapolation_k == old(self).extrapolation_k,
    {
        let mut state = state;
        state.id = self.next_id;
        self.next_id = self.next_id + 1;
        let h = hash_state_class(&state);
        let idx = self.graph.states.len();
        self.graph.states.push(state);
        self.hashes.push(h);
        idx
    }

    /// The edge recorded when `t` fires from class `u`, whose class after
    /// time elapsed is `elapsed`.
    fn edge_for(&self, u: usize, elapsed: &StateClass, t: usize) -> (e: FiringEdge)
        requires
            self.net.wf(),
            fits(*self.net),
            u < self.graph.states@.len(),
            class_ok(self.graph.states@[u as int], *self.net, self.config.core_parallelism@),
            same_but_zone(*elapsed, self.graph.states@[u as int]),
            elapsed.zone.dim() == self.graph.states@[u as int].zone.dim(),
            elapsed.zone.wf(),
            elapsed.zone.m() == elapse_zone(self.graph.states@[u as int], *self.net),
            firable_spec(*elapsed, *self.net, t),
        ensures
            e == edge_of(self.graph.states@[u as int], *self.net, t),
    {
        let current = &self.graph.states[u];
        let hidx = elapsed.exec_index(t) as usize;
        let h_low = 0i32.wrapping_sub(elapsed.zone.get_constraint(0, hidx));
        let h_high = elapsed.zone.get_constraint(hidx, 0);
        let (earliest, up) = match self.net.transition(TransitionId(t)) {
            Some(tr) => (tr.interval.effective_earliest(), tr.interval.effective_latest()),
            None => (0, INF),
        };
        let mut fire_min: i32 = if earliest > 0 {
            earliest
        } else {
            0
        };
        if h_low > fire_min {
            fire_min = h_low;
        }
        let mut fire_max = h_high;
        if up != INF_TIME && (fire_max == INF_TIME || up < fire_max) {
            fire_max = up;
        }
        let entry_low = 0i32.wrapping_sub(current.zone.get_constraint(0, hidx));
        let entry_high = current.zone.get_constraint(hidx, 0);
        let d = fire_min.wrapping_sub(entry_high);
        let dwell_min = if d > 0 {
            d
        } else {
            0
        };
        let dwell_max = if fire_max == INF_TIME || entry_low == INF_TIME {
            INF_TIME
        } else {
            let x = fire_max.wrapping_sub(entry_low);
            if x > 0 {
                x
            } else {
                0
            }
        };
        let mut edge = FiringEdge::new(t, fire_min, fire_max);
        edge.dwell_min = dwell_min;
        edge.dwell_max = dwell_max;
        edge
    }
}

impl<'a> StateClassReachabilityGraph<'a> {
    /// Explores class `u`: for each transition that fires from it once time
    /// elapses, records an edge to the first class the successor merges
    /// into, or to the successor as a new class while fewer than
    /// `max_states` classes exist (otherwise marks the graph truncated).
    #[verifier::rlimit(60)]
    fn expand_class(&mut self, u: usize, max_states: usize)
        requires
            old(self).graph_inv(max_states as nat),
            u < old(self).graph.states@.len(),
            !old(self).graph.stats.truncated,
            old(self).graph.edges@.len() <= u * old(self).net.net.transitions@.len(),
            (max_states + 1) * (old(self).net.net.transitions@.len() + 1) < usize::MAX,
        ensures
            final(self).graph_inv(max_states as nat),
            final(self).net == old(self).net,
            final(self).config == old(self).config,
            final(self).initial_marking == old(self).initial_marking,
            final(self).extrapolation_k == old(self).extrapolation_k,
            old(self).graph.states@.len() <= final(self).graph.states@.len(),
            forall|v: int|
                0 <= v < old(self).graph.states@.len() ==> #[trigger] final(self).graph.states@[v]
                    == old(self).graph.states@[v],
            old(self).graph.edges@.len() <= final(self).graph.edges@.len(),
            forall|k: int|
                0 <= k < old(self).graph.edges@.len() ==> #[trigger] final(self).graph.edges@[k]
                    == old(self).graph.edges@[k],
            final(self).graph.edges@.len() <= (u + 1) * old(self).net.net.transitions@.len(),
            final(self).graph.stats.truncated ==> final(self).graph.states@.len() >= max_states,
            !final(self).graph.stats.truncated ==> handled(
                final(self).graph.states@,
                final(self).graph.edges@,
                *old(self).net,
                u as int,
            ),
    {
        let ghost net = *self.net;
        let ghost nt = net.net.transitions@.len();
        let ghost st0 = self.graph.states@;
        let ghost ed0 = self.graph.edges@;
        let ghost cls = self.graph.states@[u as int];
        let elapsed = self.time_elapse(&self.graph.states[u]);
        let np = self.graph.states[u].priority_enabled.len();
        proof {
            lemma_fits(net);
            lemma_enabled_below(net.net, cls.marking@, nt);
            lemma_filter_increasing(
                cls.struct_enabled@,
                |t: usize| super::scheduling::keeps_running(cls.struct_enabled@, net, self.config.core_parallelism@, t),
            );
            assert(class_ok(self.graph.states@[u as int], net, self.config.core_parallelism@));
            assert forall|a: int| 0 <= a < cls.priority_enabled@.len() implies (#[trigger] cls.priority_enabled@[a]) < nt by {
                assert(cls.priority_enabled@.contains(cls.priority_enabled@[a]));
                assert(cls.struct_enabled@.contains(cls.priority_enabled@[a]));
            }
            lemma_increasing_len(cls.priority_enabled@, nt);
            assert(cls.priority_enabled@.take(0) =~= Seq::<usize>::empty());
        }
        let mut k: usize = 0;
        while k < np
            invariant
                k <= np,
                np == cls.priority_enabled@.len(),
                np <= nt,
                nt == net.net.transitions@.len(),
                net == *self.net,
                self.graph_inv(max_states as nat),
                self.config == old(self).config,
                self.net == old(self).net,
                self.initial_marking == old(self).initial_marking,
                self.extrapolation_k == old(self).extrapolation_k,
                u < self.graph.states@.len(),
                cls == st0[u as int],
                st0.len() <= self.graph.states@.len(),
                forall|v: int| 0 <= v < st0.len() ==> #[trigger] self.graph.states@[v] == st0[v],
                ed0.len() <= self.graph.edges@.len(),
                forall|j: int| 0 <= j < ed0.len() ==> #[trigger] self.graph.edges@[j] == ed0[j],
                ed0.len() <= u * nt,
                self.graph.edges@.len() <= u * nt + k,
                u < st0.len(),
                (max_states + 1) * (nt + 1) < usize::MAX,
                same_but_zone(elapsed, cls),
                elapsed.zone.dim() == cls.zone.dim(),
                elapsed.zone.m() == elapse_zone(cls, net),
                class_ok(elapsed, net, self.config.core_parallelism@),
                self.graph.stats.truncated ==> self.graph.states@.len() >= max_states,
                !self.graph.stats.truncated ==> forall|t: usize|
                    #[trigger] steps_to(cls, net, t) && cls.priority_enabled@.take(k as int).contains(t) ==> exists|j: int|
                        0 <= j < self.graph.edges@.len() && (#[trigger] self.graph.edges@[j]).0 == u
                            && self.graph.edges@[j].2.transition_id == t,
            decreases np - k,
        {
            let t = self.graph.states[u].priority_enabled[k];
            let ghost edges_before = self.graph.edges@;
            let ghost mut pushed = false;
            proof {
                assert forall|x: usize| #[trigger] cls.priority_enabled@.take(k + 1).contains(x) implies (cls.priority_enabled@.take(
                    k as int,
                ).contains(x) || x == t) by {
                    let a = choose|a: int| 0 <= a < k + 1 && #[trigger] cls.priority_enabled@.take(k + 1)[a] == x;
                    if a < k {
                        assert(cls.priority_enabled@.take(k as int)[a] == x);
                    }
                }
            }
            if self.is_firable(&elapsed, t) {
                let mut successor = StateClass::default();
                if self.fire(&elapsed, t, &mut successor) {
                    let ghost pre = successor;
                    if self.config.extrapolation {
                        successor.zone.extrapolate(self.extrapolation_k);
                    }
                    proof {
                        assert(fired_class(elapsed, net, self.config.core_parallelism@, t, pre));
                        assert(successor_of(
                            cls,
                            net,
                            self.config.core_parallelism@,
                            self.config.extrapolation,
                            self.extrapolation_k,
                            t,
                            successor,
                        ));
                    }
                    let ghost st_b = self.graph.states@;
                    let ghost ed_b = self.graph.edges@;
                    let edge = self.edge_for(u, &elapsed, t);
                    let found = self.find_match(&successor);
                    assert(u * nt + k + 1 < usize::MAX) by (nonlinear_arith)
                        requires
                            u <= max_states,
                            k < nt,
                            (max_states + 1) * (nt + 1) < usize::MAX,
                    ;
                    match found {
                        Some(v) => {
                            self.graph.stats.dedup_hits = self.graph.stats.dedup_hits + 1;
                            self.graph.edges.push((u, v, edge));
                            self.graph.stats.total_transitions = self.graph.stats.total_transitions + 1;
                            assert(self.graph.edges@[self.graph.edges@.len() - 1] == (u, v, edge));
                            proof {
                                pushed = true;
                                lemma_zoned_extend(
                                    st_b,
                                    ed_b,
                                    self.graph.states@,
                                    (u, v, edge),
                                    net,
                                    self.config.core_parallelism@,
                                    self.config.extrapolation,
                                    self.extrapolation_k,
                                    self.config.canonicalization,
                                    successor,
                                );
                            }
                        },
                        None => {
                            if self.graph.stats.total_states >= max_states {
                                self.graph.stats.truncated = true;
                            } else {
                                let ghost m_prev = self.graph.states@[u as int].marking@;
                                let v = self.add_state(successor);
                                self.graph.stats.total_states = self.graph.stats.total_states + 1;
                                self.graph.edges.push((u, v, edge));
                                self.graph.stats.total_transitions = self.graph.stats.total_transitions + 1;
                                proof {
                                    lemma_reachable_step(net.net, self.initial_marking@, m_prev, t, successor.marking@);
                                    assert(self.graph.edges@[self.graph.edges@.len() - 1] == (u, v, edge));
                                    pushed = true;
                                    lemma_zoned_extend(
                                        st_b,
                                        ed_b,
                                        self.graph.states@,
                                        (u, v, edge),
                                        net,
                                        self.config.core_parallelism@,
                                        self.config.extrapolation,
                                        self.extrapolation_k,
                                        self.config.canonicalization,
                                        successor,
                                    );
                                }
                            }
                        },
                    }
                }
            }
            proof {
                if !self.graph.stats.truncated {
                    assert forall|x: usize|
                        #[trigger] steps_to(cls, net, x) && cls.priority_enabled@.take(k + 1).contains(x) implies exists|j: int|
                            0 <= j < self.graph.edges@.len() && (#[trigger] self.graph.edges@[j]).0 == u
                                && self.graph.edges@[j].2.transition_id == x by {
                        if x == t {
                            assert(pushed);
                            let j = self.graph.edges@.len() - 1;
                            assert(self.graph.edges@[j].0 == u && self.graph.edges@[j].2.transition_id == x);
                        } else {
                            assert(cls.priority_enabled@.take(k as int).contains(x));
                            let j = choose|j: int| 0 <= j < edges_before.len() && (#[trigger] edges_before[j]).0 == u
                                && edges_before[j].2.transition_id == x;
                            assert(self.graph.edges@[j] == edges_before[j]);
                        }
                    }
                }
            }
            k = k + 1;
        }
        proof {
            assert(cls.priority_enabled@.take(np as int) == cls.priority_enabled@);
            assert((u + 1) * nt == u * nt + nt) by (nonlinear_arith);
        }
    }

    /// Builds the state-class graph from the initial class, exploring the
    /// classes in the order they are found, and stops once `max_states`
    /// classes exist; returns the number of classes.
    pub fn build(&mut self, max_states: usize) -> (r: usize)
        requires
            old(self).net_spec().wf(),
            fits(old(self).net_spec()),
            old(self).initial_spec().len() == old(self).net_spec().net.places@.len(),
            (max_states + 1) * (old(self).net_spec().net.transitions@.len() + 1) < usize::MAX,
        ensures
            final(self).net_spec() == old(self).net_spec(),
            final(self).initial_spec() == old(self).initial_spec(),
            final(self).cores() == old(self).cores(),
            final(self).mode() == old(self).mode(),
            final(self).extrapolates() == old(self).extrapolates(),
            final(self).bound_k() == old(self).bound_k(),
            ({
                let g = final(self).graph_spec();
                let net = final(self).net_spec();
                let st = g.states@;
                &&& r == st.len()
                &&& 1 <= st.len()
                &&& st.len() <= max_states || st.len() == 1
                &&& g.initial == 0
                &&& st[0].marking@ == final(self).initial_spec()
                &&& forall|v: int| 0 <= v < st.len() ==> class_ok(#[trigger] st[v], net, final(self).cores())
                &&& forall|v: int| 0 <= v < st.len() ==> (#[trigger] st[v]).id == v
                &&& forall|v: int|
                    0 <= v < st.len() ==> net.net.reachable(final(self).initial_spec(), (#[trigger] st[v]).marking@)
                &&& edges_ok(st, g.edges@, net)
                &&& edges_zoned(
                    st,
                    g.edges@,
                    net,
                    final(self).cores(),
                    final(self).extrapolates(),
                    final(self).bound_k(),
                    final(self).mode(),
                )
                &&& st[0].zone.m() == initial_zone(st[0].zone.dim(), final(self).extrapolates(), final(self).bound_k())
                &&& g.stats.total_states == st.len()
                &&& g.stats.total_transitions == g.edges@.len()
                &&& g.stats.dedup_hits + st.len() == g.edges@.len() + 1
                &&& g.stats.truncated ==> st.len() >= max_states
                &&& !g.stats.truncated ==> forall|w: int| 0 <= w < st.len() ==> handled(st, g.edges@, net, w)
            }),
    {
        self.graph = StateClassGraph::default();
        self.hashes = Vec::new();
        self.next_id = 0;
        let mut initial = self.compute_initial_class();
        if self.config.extrapolation {
            initial.zone.extrapolate(self.extrapolation_k);
        }
        let i0 = self.add_state(initial);
        self.graph.initial = i0;
        self.graph.stats.total_states = 1;
        proof {
            lemma_reachable_refl(self.net.net, self.initial_marking@);
            assert(self.graph.states@[0].marking@ == self.initial_marking@);
        }
        let ghost nt = self.net.net.transitions@.len();
        let mut u: usize = 0;
        while u < self.graph.states.len() && !self.graph.stats.truncated
            invariant
                self.graph_inv(max_states as nat),
                nt == self.net.net.transitions@.len(),
                self.net == old(self).net,
                self.config == old(self).config,
                self.initial_marking == old(self).initial_marking,
                self.extrapolation_k == old(self).extrapolation_k,
                (max_states + 1) * (nt + 1) < usize::MAX,
                u <= self.graph.states@.len(),
                !self.graph.stats.truncated ==> self.graph.edges@.len() <= u * nt,
                self.graph.stats.truncated ==> self.graph.states@.len() >= max_states,
                !self.graph.stats.truncated ==> forall|w: int|
                    0 <= w < u ==> handled(self.graph.states@, self.graph.edges@, *self.net, w),
            decreases max_states + 1 - self.graph.states@.len(), self.graph.states@.len() - u, if self.graph.stats.truncated {
                0int
            } else {
                1int
            },
        {
            if self.graph.stats.total_states >= max_states {
                self.graph.stats.truncated = true;
            } else {
                let ghost st1 = self.graph.states@;
                let ghost ed1 = self.graph.edges@;
                self.expand_class(u, max_states);
                if !self.graph.stats.truncated {
                    proof {
                        assert forall|w: int| 0 <= w < u + 1 implies handled(self.graph.states@, self.graph.edges@, *self.net, w) by {
                            if w < u {
                                assert(handled(st1, ed1, *self.net, w));
                                assert(self.graph.states@[w] == st1[w]);
                                assert forall|t: usize| #[trigger] steps_to(self.graph.states@[w], *self.net, t) implies exists|j: int|
                                    0 <= j < self.graph.edges@.len() && (#[trigger] self.graph.edges@[j]).0 == w
                                        && self.graph.edges@[j].2.transition_id == t by {
                                    assert(steps_to(st1[w], *self.net, t));
                                    let j = choose|j: int| 0 <= j < ed1.len() && (#[trigger] ed1[j]).0 == w && ed1[j].2.transition_id == t;
                                    assert(self.graph.edges@[j] == ed1[j]);
                                }
                            }
                        }
                    }
                    u = u + 1;
                }
            }
        }
        self.graph.stats.total_states
    }
}

/// The characters of `c` escaped for a quoted DOT label.
pub open spec fn escape_char(c: char) -> Seq<char> {
    if c == '\\' {
        seq!['\\', '\\']
    } else if c == '"' {
        seq!['\\', '"']
    } else if c == '\n' {
        seq!['\\', 'n']
    } else {
        seq![c]
    }
}

/// `s` escaped for a quoted DOT label: backslashes and quotes preceded by a
/// backslash, newlines written `\n`.
pub open spec fn escaped(s: Seq<char>) -> Seq<char>
    decreases s.len(),
{
    if s.len() == 0 {
        Seq::empty()
    } else {
        escaped(s.drop_last()) + escape_char(s.last())
    }
}

/// `value` escaped for a quoted DOT label.
pub fn escape_dot(value: &str) -> (r: String)
    ensures
        r@ == escaped(value@),
{
    let n = value.unicode_len();
    let mut out = String::new();
    let mut i: usize = 0;
    while i < n
        invariant
            i <= n,
            n == value@.len(),
            out@ == escaped(value@.take(i as int)),
        decreases n - i,
    {
        let c = value.get_char(i);
        assert(value@.take(i + 1).drop_last() == value@.take(i as int));
        if c == '\\' {
            push_char(&mut out, '\\');
            push_char(&mut out, '\\');
        } else if c == '"' {
            push_char(&mut out, '\\');
            push_char(&mut out, '"');
        } else if c == '\n' {
            push_char(&mut out, '\\');
            push_char(&mut out, 'n');
        } else {
            push_char(&mut out, c);
        }
        assert(out@ == escaped(value@.take(i + 1)));
        i = i + 1;
    }
    assert(value@.take(n as int) == value@);
    out
}

/// The label of place `i` of `net`: its name, or `P<i>` when there is no
/// such place.
pub open spec fn place_label(net: TimedNet, i: int) -> Seq<char> {
    if 0 <= i < net.net.places@.len() {
        net.net.places@[i].name@
    } else {
        seq!['P'] + decimal(i as nat)
    }
}

/// The entry of place `i` holding `k` tokens: its label, followed by the
/// count in parentheses unless it is one.
pub open spec fn marking_entry(net: TimedNet, i: int, k: usize) -> Seq<char> {
    if k == 1 {
        place_label(net, i)
    } else {
        place_label(net, i) + seq!['('] + decimal(k as nat) + seq![')']
    }
}

/// The entries of the places among the first `n` of `m` that hold tokens.
pub open spec fn marking_entries(net: TimedNet, m: Seq<usize>, n: nat) -> Seq<Seq<char>>
    decreases n,
{
    if n == 0 {
        Seq::empty()
    } else {
        let prev = marking_entries(net, m, (n - 1) as nat);
        if m[n - 1] == 0 {
            prev
        } else {
            prev.push(marking_entry(net, n - 1, m[n - 1]))
        }
    }
}

/// `parts` separated by `, `.
pub open spec fn joined(parts: Seq<Seq<char>>) -> Seq<char>
    decreases parts.len(),
{
    if parts.len() == 0 {
        Seq::empty()
    } else if parts.len() == 1 {
        parts[0]
    } else {
        joined(parts.drop_last()) + seq![',', ' '] + parts.last()
    }
}

/// The text of marking `m`: `[` and the entries of the marked places
/// separated by `, ` (or `empty`), then `]`.
pub open spec fn marking_text(net: TimedNet, m: Seq<usize>) -> Seq<char> {
    let parts = marking_entries(net, m, m.len());
    seq!['['] + if parts.len() == 0 {
        seq!['e', 'm', 'p', 't', 'y']
    } else {
        joined(parts)
    } + seq![']']
}

fn format_marking(net: &TimedNet, marking: &Marking) -> (r: String)
    ensures
        r@ == marking_text(*net, marking@),
{
    let mut out = string_of("[");
    proof {
        reveal_strlit("[");
    }
    let mut first = true;
    let n = marking.0.len();
    let mut i: usize = 0;
    while i < n
        invariant
            i <= n,
            n == marking@.len(),
            first == (marking_entries(*net, marking@, i as nat).len() == 0),
            out@ == seq!['['] + joined(marking_entries(*net, marking@, i as nat)),
        decreases n - i,
    {
        let tokens = marking.0[i];
        if tokens != 0 {
            let ghost before = out@;
            let ghost parts = marking_entries(*net, marking@, i as nat);
            if !first {
                push_str(&mut out, ", ");
                proof {
                    reveal_strlit(", ");
                }
            }
            match net.place(PlaceId(i)) {
                Some(p) => push_str(&mut out, p.name.as_str()),
                None => {
                    push_char(&mut out, 'P');
                    push_decimal(&mut out, i as u64);
                },
            }
            if tokens != 1 {
                push_char(&mut out, '(');
                push_decimal(&mut out, tokens as u64);
                push_char(&mut out, ')');
            }
            proof {
                let e = marking_entry(*net, i as int, tokens);
                assert(marking_entries(*net, marking@, (i + 1) as nat) == parts.push(e));
                assert(parts.push(e).drop_last() == parts);
                if parts.len() == 0 {
                    assert(out@ == before + e);
                } else {
                    assert(out@ == before + seq![',', ' '] + e);
                }
            }
            first = false;
        }
        i = i + 1;
    }
    if first {
        push_str(&mut out, "empty");
        proof {
            reveal_strlit("empty");
        }
    }
    push_char(&mut out, ']');
    out
}

/// The text of `marking`: `[` and the marked places with their counts
/// (unless one) separated by `, `, or `empty`, then `]`.
pub fn format_marking_of(net: &TimedNet, marking: &Marking) -> (r: String)
    ensures
        r@ == marking_text(*net, marking@),
{
    format_marking(net, marking)
}

/// The transitions of the edges of `edges` leaving `vertex`, in order.
pub open spec fn out_transitions(edges: Seq<(usize, usize, FiringEdge)>, vertex: usize) -> Seq<usize>
    decreases edges.len(),
{
    if edges.len() == 0 {
        Seq::empty()
    } else {
        let prev = out_transitions(edges.drop_last(), vertex);
        if edges.last().0 == vertex {
            prev.push(edges.last().2.transition_id)
        } else {
            prev
        }
    }
}

/// Whether `s` is in non-decreasing order.
pub open spec fn sorted_seq(s: Seq<usize>) -> bool {
    forall|a: int, b: int| 0 <= a < b < s.len() ==> s[a] <= s[b]
}

/// `v` with `x` inserted before its first entry larger than `x`.
fn insert_sorted(v: &mut Vec<usize>, x: usize)
    requires
        sorted_seq(old(v)@),
    ensures
        sorted_seq(final(v)@),
        final(v)@.to_multiset() == old(v)@.to_multiset().insert(x),
{
    broadcast use vstd::seq_lib::group_to_multiset_ensures;

    let mut pos: usize = 0;
    while pos < v.len() && v[pos] <= x
        invariant
            pos <= v@.len(),
            forall|a: int| 0 <= a < pos ==> v@[a] <= x,
        decreases v@.len() - pos,
    {
        pos = pos + 1;
    }
    let ghost old_v = v@;
    v.insert(pos, x);
    assert(v@ == old_v.insert(pos as int, x));
    assert forall|a: int, b: int| 0 <= a < b < v@.len() implies v@[a] <= v@[b] by {
        if a < pos && b == pos {
        } else if a == pos && b > pos {
            assert(old_v[b - 1] >= old_v[pos as int] || pos == old_v.len());
        }
    }
}

/// The transitions of the edges of `graph` leaving `vertex`, in increasing
/// order.
pub fn out_edge_transitions(graph: &StateClassGraph, vertex: usize) -> (r: Vec<usize>)
    ensures
        sorted_seq(r@),
        r@.to_multiset() == out_transitions(graph.edges@, vertex).to_multiset(),
{
    broadcast use vstd::seq_lib::group_to_multiset_ensures;

    let mut result: Vec<usize> = Vec::new();
    let n = graph.edges.len();
    let mut k: usize = 0;
    while k < n
        invariant
            k <= n,
            n == graph.edges@.len(),
            sorted_seq(result@),
            result@.to_multiset() == out_transitions(graph.edges@.take(k as int), vertex).to_multiset(),
        decreases n - k,
    {
        let e = &graph.edges[k];
        assert(graph.edges@.take(k + 1).drop_last() == graph.edges@.take(k as int));
        let ghost prev = out_transitions(graph.edges@.take(k as int), vertex);
        if e.0 == vertex {
            insert_sorted(&mut result, e.2.transition_id);
            assert(out_transitions(graph.edges@.take(k + 1), vertex) == prev.push(e.2.transition_id));
            proof {
                vstd::seq_lib::to_multiset_build(prev, e.2.transition_id);
            }
        } else {
            assert(out_transitions(graph.edges@.take(k + 1), vertex) == prev);
        }
        k = k + 1;
    }
    assert(graph.edges@.take(n as int) == graph.edges@);
    result
}

/// The markings of the classes of `g`, in order.
pub open spec fn class_markings(g: StateClassGraph) -> Seq<Seq<usize>> {
    Seq::new(g.states@.len(), |v: int| g.states@[v].marking@)
}

/// The token counts of each marking of `ms`.
pub open spec fn marking_views(ms: Seq<Marking>) -> Seq<Seq<usize>> {
    Seq::new(ms.len(), |a: int| ms[a]@)
}

/// The distinct markings of the classes of `graph`, in the order they first
/// occur.
pub fn reachable_markings(graph: &StateClassGraph) -> (r: Vec<Marking>)
    ensures
        marking_views(r@).no_duplicates(),
        marking_views(r@).to_set() == class_markings(*graph).to_set(),
{
    let ghost all = class_markings(*graph);
    let mut result: Vec<Marking> = Vec::new();
    let n = graph.states.len();
    let mut v: usize = 0;
    while v < n
        invariant
            v <= n,
            n == graph.states@.len(),
            all == class_markings(*graph),
            marking_views(result@).no_duplicates(),
            marking_views(result@).to_set() == all.take(v as int).to_set(),
        decreases n - v,
    {
        let m = &graph.states[v].marking;
        let mut found = false;
        let mut j: usize = 0;
        while j < result.len()
            invariant
                j <= result@.len(),
                found == marking_views(result@).take(j as int).contains(m@),
            decreases result@.len() - j,
        {
            let ghost before = found;
            if result[j].same(m) {
                found = true;
            }
            proof {
                broadcast use vstd::seq_lib::group_seq_properties;
                let mv = marking_views(result@);
                assert(mv.take(j + 1) == mv.take(j as int).push(mv[j as int]));
            }
            j = j + 1;
        }
        let ghost mv = marking_views(result@);
        assert(mv.take(mv.len() as int) == mv);
        assert(all.take(v + 1) == all.take(v as int).push(m@));
        proof {
            broadcast use vstd::seq_lib::group_seq_properties;
            all.take(v as int).lemma_push_to_set_commute(m@);
            mv.lemma_push_to_set_commute(m@);
        }
        if !found {
            result.push(m.clone());
            assert(marking_views(result@) == mv.push(m@));
            proof {
                broadcast use vstd::seq_lib::group_seq_properties;
                assert forall|a: int, b: int| 0 <= a < b < mv.push(m@).len() implies mv.push(m@)[a] != mv.push(m@)[b] by {
                    if b == mv.len() {
                        assert(mv.contains(mv[a]));
                    }
                }
            }
        } else {
            assert(mv.contains(m@));
            assert(mv.to_set().insert(m@) == mv.to_set());
        }
        assert(marking_views(result@).to_set() == all.take(v + 1).to_set());
        v = v + 1;
    }
    assert(all.take(n as int) == all);
    result
}

} // verus!
