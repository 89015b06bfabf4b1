//! Checks of a colored verification net over its explored reachability
//! graph: which blocked states are deadlocks, which transitions (or whole
//! disjunctive families) never fire, and which transitions compete for an
//! input place.
use vstd::prelude::*;

use crate::analysis::netlike::{path_along, Counterexample, FiringStep, PropertyViolation, ReachabilityGraph};
use crate::cvn::kinds::{ControlSub, PlaceKind};
use crate::cvn::net::{same_state, CvnNet, CvnState};
use crate::ids::{PlaceId, TransitionId};
use crate::pt::ArcDir;

verus! {

/// Whether place `p` holds, in marking `m`, a token of a thread that has
/// not finished: a token on a place that is neither a resource nor the end
/// of a function.
pub open spec fn live_token(net: CvnNet, m: Seq<usize>, p: int) -> bool {
    &&& 0 <= p < m.len()
    &&& m[p] > 0
    &&& !(net.kind_at(p) matches Some(PlaceKind::Resource(_)))
    &&& net.kind_at(p) != Some(PlaceKind::Control(ControlSub::FunctionEnd))
}

/// Whether a blocked state with marking `m` is a deadlock: some thread has
/// not finished.
pub open spec fn deadlocked(net: CvnNet, m: Seq<usize>) -> bool {
    exists|p: int| live_token(net, m, p)
}

/// The places below `n` holding a token of an unfinished thread, in order.
pub open spec fn live_places(net: CvnNet, m: Seq<usize>, n: nat) -> Seq<PlaceId>
    decreases n,
{
    if n == 0 {
        Seq::empty()
    } else {
        let prev = live_places(net, m, (n - 1) as nat);
        if live_token(net, m, n - 1) {
            prev.push(PlaceId((n - 1) as usize))
        } else {
            prev
        }
    }
}

/// Whether a state with no enabled transition is a deadlock: some token
/// sits on a place that is neither a resource nor the end of a function.
pub fn is_deadlock(net: &CvnNet, state: &CvnState) -> (r: bool)
    ensures
        r == deadlocked(*net, state.marking@),
{
    let n = state.marking.len();
    let mut p: usize = 0;
    while p < n
        invariant
            p <= n,
            n == state.marking@.len(),
            forall|q: int| 0 <= q < p ==> !live_token(*net, state.marking@, q),
        decreases n - p,
    {
        let id = PlaceId(p);
        if state.marking.tokens(id) > 0 && !net.is_resource(id) && !net.is_thread_terminal(id) {
            assert(live_token(*net, state.marking@, p as int));
            return true;
        }
        p = p + 1;
    }
    false
}

/// The places of a deadlock state holding a token of an unfinished thread,
/// in order.
pub fn blocked_places(net: &CvnNet, state: &CvnState) -> (r: Vec<PlaceId>)
    ensures
        r@ == live_places(*net, state.marking@, state.marking@.len()),
{
    let n = state.marking.len();
    let mut r: Vec<PlaceId> = Vec::new();
    let mut p: usize = 0;
    while p < n
        invariant
            p <= n,
            n == state.marking@.len(),
            r@ == live_places(*net, state.marking@, p as nat),
        decreases n - p,
    {
        let id = PlaceId(p);
        if state.marking.tokens(id) > 0 && !net.is_resource(id) && !net.is_thread_terminal(id) {
            r.push(id);
        }
        p = p + 1;
    }
    r
}

/// The source anchors of transition `t`; none for a transition the net
/// does not have.
pub open spec fn anchors_of(net: CvnNet, t: TransitionId) -> Seq<String> {
    if t.0 < net.transitions@.len() {
        net.transitions@[t.0 as int].kind.anchors@
    } else {
        Seq::empty()
    }
}

/// The transitions of the steps of `trace`.
pub open spec fn step_transitions(trace: Seq<FiringStep>) -> Seq<TransitionId> {
    Seq::new(trace.len(), |i: int| trace[i].transition)
}

/// Whether each step of `trace` carries the anchors of its transition.
pub open spec fn anchored(net: CvnNet, trace: Seq<FiringStep>) -> bool {
    forall|i: int| 0 <= i < trace.len() ==> (#[trigger] trace[i]).anchors@ == anchors_of(net, trace[i].transition)
}

/// A copy of `v`.
fn copy_strings(v: &Vec<String>) -> (r: Vec<String>)
    ensures
        r@ == v@,
{
    let mut r: Vec<String> = Vec::new();
    let n = v.len();
    let mut i: usize = 0;
    while i < n
        invariant
            i <= n,
            n == v@.len(),
            r@ == v@.take(i as int),
        decreases n - i,
    {
        r.push(v[i].clone());
        assert(v@.take(i + 1) == v@.take(i as int).push(v@[i as int]));
        i = i + 1;
    }
    assert(v@.take(n as int) == v@);
    r
}

/// The anchors of transition `t`.
fn anchors(net: &CvnNet, t: TransitionId) -> (r: Vec<String>)
    ensures
        r@ == anchors_of(*net, t),
{
    match net.transition(t) {
        Some(tr) => copy_strings(&tr.kind.anchors),
        None => Vec::new(),
    }
}

/// The firing steps from the initial state to state `target`, along the
/// edges that first reached each state, with their anchors.
fn trace_of(net: &CvnNet, graph: &ReachabilityGraph<CvnState>, target: usize) -> (r: Vec<FiringStep>)
    requires
        graph.traceable(),
        target < graph.states@.len(),
    ensures
        path_along(graph.edges@, 0, target as int, step_transitions(r@)),
        anchored(*net, r@),
{
    let path = graph.trace_to(target);
    let mut r: Vec<FiringStep> = Vec::new();
    let n = path.len();
    let mut i: usize = 0;
    while i < n
        invariant
            i <= n,
            n == path@.len(),
            r@.len() == i,
            forall|j: int| 0 <= j < i ==> (#[trigger] r@[j]).transition == path@[j],
            anchored(*net, r@),
        decreases n - i,
    {
        let t = path[i];
        let a = anchors(net, t);
        r.push(FiringStep { transition: t, anchors: a });
        i = i + 1;
    }
    assert(step_transitions(r@) =~= path@);
    r
}

/// The blocked states among `blocked` whose marking is a deadlock, in
/// order.
pub open spec fn deadlock_targets(net: CvnNet, states: Seq<CvnState>, blocked: Seq<usize>) -> Seq<usize>
    decreases blocked.len(),
{
    if blocked.len() == 0 {
        Seq::empty()
    } else {
        let prev = deadlock_targets(net, states, blocked.drop_last());
        if deadlocked(net, states[blocked.last() as int].marking@) {
            prev.push(blocked.last())
        } else {
            prev
        }
    }
}

/// Whether `cx` reports a deadlock in state `target` of `graph`: it ends in
/// that state and its trace leads there from the initial state.
pub open spec fn deadlock_report(net: CvnNet, graph: ReachabilityGraph<CvnState>, target: int, cx: Counterexample<
    CvnState,
>) -> bool {
    &&& cx.kind == PropertyViolation::Deadlock
    &&& same_state(cx.final_state, graph.states@[target])
    &&& path_along(graph.edges@, 0, target, step_transitions(cx.trace@))
    &&& anchored(net, cx.trace@)
}

/// The deadlocks of `graph`: for each blocked state, in order, that is a
/// deadlock, a counterexample ending in it with the firings that first
/// reached it from the initial state.
pub fn find_deadlocks(net: &CvnNet, graph: &ReachabilityGraph<CvnState>) -> (r: Vec<Counterexample<CvnState>>)
    requires
        graph.traceable(),
        forall|k: int| 0 <= k < graph.blocked@.len() ==> #[trigger] graph.blocked@[k] < graph.states@.len(),
    ensures
        r@.len() == deadlock_targets(*net, graph.states@, graph.blocked@).len(),
        forall|k: int|
            0 <= k < r@.len() ==> deadlock_report(
                *net,
                *graph,
                deadlock_targets(*net, graph.states@, graph.blocked@)[k] as int,
                #[trigger] r@[k],
            ),
{
    let mut r: Vec<Counterexample<CvnState>> = Vec::new();
    let n = graph.blocked.len();
    let mut k: usize = 0;
    while k < n
        invariant
            k <= n,
            n == graph.blocked@.len(),
            graph.traceable(),
            forall|j: int| 0 <= j < graph.blocked@.len() ==> #[trigger] graph.blocked@[j] < graph.states@.len(),
            r@.len() == deadlock_targets(*net, graph.states@, graph.blocked@.take(k as int)).len(),
            forall|j: int|
                0 <= j < r@.len() ==> deadlock_report(
                    *net,
                    *graph,
                    deadlock_targets(*net, graph.states@, graph.blocked@.take(k as int))[j] as int,
                    #[trigger] r@[j],
                ),
        decreases n - k,
    {
        let i = graph.blocked[k];
        let ghost before = deadlock_targets(*net, graph.states@, graph.blocked@.take(k as int));
        assert(graph.blocked@.take(k + 1).drop_last() == graph.blocked@.take(k as int));
        assert(graph.blocked@.take(k + 1).last() == i);
        if is_deadlock(net, &graph.states[i]) {
            let trace = trace_of(net, graph, i);
            let final_state = graph.states[i].clone();
            r.push(Counterexample { kind: PropertyViolation::Deadlock, trace, final_state });
            proof {
                let after = deadlock_targets(*net, graph.states@, graph.blocked@.take(k + 1));
                assert(after == before.push(i));
                assert forall|j: int| 0 <= j < r@.len() implies deadlock_report(
                    *net,
                    *graph,
                    after[j] as int,
                    #[trigger] r@[j],
                ) by {
                    if j < before.len() {
                        assert(after[j] == before[j]);
                    }
                }
            }
        }
        k = k + 1;
    }
    assert(graph.blocked@.take(n as int) == graph.blocked@);
    r
}

/// Whether transition `t` fired on some edge of `edges`.
pub open spec fn fired(edges: Seq<(usize, usize, TransitionId)>, t: TransitionId) -> bool {
    exists|k: int| 0 <= k < edges.len() && (#[trigger] edges[k]).2 == t
}

/// The family of transition `t`, by name; none when it has none.
pub open spec fn family_of(net: CvnNet, t: int) -> Option<Seq<char>> {
    match net.transitions@[t].kind.family {
        Some(f) => Some(f@),
        None => None,
    }
}

/// Whether some transition of family `f` fired.
pub open spec fn family_live(net: CvnNet, edges: Seq<(usize, usize, TransitionId)>, f: Seq<char>) -> bool {
    exists|t: int|
        0 <= t < net.transitions@.len() && fired(edges, TransitionId(t as usize)) && #[trigger] family_of(net, t)
            == Some(f)
}

/// Whether a transition below `t` that fired belongs to family `f`.
pub open spec fn fired_family_below(net: CvnNet, edges: Seq<(usize, usize, TransitionId)>, t: int, f: Seq<char>) -> bool {
    exists|u: int| 0 <= u < t && fired(edges, TransitionId(u as usize)) && #[trigger] family_of(net, u) == Some(f)
}

/// Whether `v` holds a name equal to `f`.
pub open spec fn named_in(v: Seq<String>, f: Seq<char>) -> bool {
    exists|i: int| 0 <= i < v.len() && (#[trigger] v[i])@ == f
}

/// Whether some transition of `earlier` belongs to family `f`.
pub open spec fn family_reported(net: CvnNet, earlier: Seq<TransitionId>, f: Seq<char>) -> bool {
    exists|j: int| 0 <= j < earlier.len() && family_of(net, (#[trigger] earlier[j]).0 as int) == Some(f)
}

/// Whether, with the transitions `earlier` already reported, transition `t`
/// is reported dead: it never fired, and if it belongs to a family, no
/// transition of the family fired and none was reported before.
pub open spec fn reports(
    net: CvnNet,
    edges: Seq<(usize, usize, TransitionId)>,
    earlier: Seq<TransitionId>,
    t: int,
) -> bool {
    &&& !fired(edges, TransitionId(t as usize))
    &&& match family_of(net, t) {
        None => true,
        Some(f) => !family_live(net, edges, f) && !family_reported(net, earlier, f),
    }
}

/// The transitions below `n` reported dead, in order: each that never
/// fired, a family standing for all its members by its first.
pub open spec fn dead_reported(net: CvnNet, edges: Seq<(usize, usize, TransitionId)>, n: nat) -> Seq<TransitionId>
    decreases n,
{
    if n == 0 {
        Seq::empty()
    } else {
        let prev = dead_reported(net, edges, (n - 1) as nat);
        if reports(net, edges, prev, n - 1) {
            prev.push(TransitionId((n - 1) as usize))
        } else {
            prev
        }
    }
}

/// Whether `v` holds `t`.
fn holds_transition(v: &Vec<TransitionId>, t: TransitionId) -> (r: bool)
    ensures
        r == v@.contains(t),
{
    let n = v.len();
    let mut i: usize = 0;
    while i < n
        invariant
            i <= n,
            n == v@.len(),
            forall|j: int| 0 <= j < i ==> v@[j] != t,
        decreases n - i,
    {
        if v[i] == t {
            return true;
        }
        i = i + 1;
    }
    false
}

/// Whether `v` holds a name equal to `s`.
fn holds_name(v: &Vec<String>, s: &String) -> (r: bool)
    ensures
        r == named_in(v@, s@),
{
    let n = v.len();
    let mut i: usize = 0;
    while i < n
        invariant
            i <= n,
            n == v@.len(),
            forall|j: int| 0 <= j < i ==> (#[trigger] v@[j])@ != s@,
        decreases n - i,
    {
        if v[i] == *s {
            return true;
        }
        i = i + 1;
    }
    false
}

/// Whether `cx` reports transition `t` dead: with its anchors, no trace,
/// and the initial state of `graph`.
pub open spec fn dead_report(net: CvnNet, graph: ReachabilityGraph<CvnState>, t: TransitionId, cx: Counterexample<
    CvnState,
>) -> bool {
    &&& cx.kind matches PropertyViolation::DeadTransition { transition, anchors } && transition == t && anchors@
        == anchors_of(net, t)
    &&& cx.trace@.len() == 0
    &&& same_state(cx.final_state, graph.states@[graph.initial as int])
}

/// The transitions that never fire in `graph`, by index: a transition of a
/// disjunctive family is skipped when another member fired, and a family
/// none of whose members fired is reported once, by its first member. Each
/// report carries the transition's anchors and the initial state.
pub fn find_dead_transitions(net: &CvnNet, graph: &ReachabilityGraph<CvnState>) -> (r: Vec<Counterexample<CvnState>>)
    requires
        graph.initial < graph.states@.len(),
    ensures
        r@.len() == dead_reported(*net, graph.edges@, net.transitions@.len()).len(),
        forall|k: int|
            0 <= k < r@.len() ==> dead_report(
                *net,
                *graph,
                dead_reported(*net, graph.edges@, net.transitions@.len())[k],
                #[trigger] r@[k],
            ),
{
    let fired_ts = graph.fired_transitions();
    let n = net.transitions.len();
    let mut live: Vec<String> = Vec::new();
    let mut t: usize = 0;
    while t < n
        invariant
            t <= n,
            n == net.transitions@.len(),
            forall|x: TransitionId| #[trigger] fired_ts@.contains(x) <==> fired(graph.edges@, x),
            forall|i: int| 0 <= i < live@.len() ==> fired_family_below(*net, graph.edges@, t as int, (#[trigger] live@[i])@),
            forall|u: int|
                0 <= u < t && fired(graph.edges@, TransitionId(u as usize)) && family_of(*net, u) is Some ==> exists|i: int|
                    0 <= i < live@.len() && Some((#[trigger] live@[i])@) == #[trigger] family_of(*net, u),
        decreases n - t,
    {
        let id = TransitionId(t);
        let ghost before = live@;
        if holds_transition(&fired_ts, id) {
            match &net.transitions[t].kind.family {
                Some(f) => {
                    live.push(f.clone());
                    proof {
                        assert(live@[before.len() as int]@ == f@);
                        assert(family_of(*net, t as int) == Some(f@));
                        assert forall|u: int|
                            0 <= u < t + 1 && fired(graph.edges@, TransitionId(u as usize)) && family_of(*net, u) is Some implies exists|i: int|
                                0 <= i < live@.len() && Some((#[trigger] live@[i])@) == #[trigger] family_of(*net, u) by {
                            if u < t {
                                let i = choose|i: int|
                                    0 <= i < before.len() && Some((#[trigger] before[i])@) == family_of(*net, u);
                                assert(live@[i] == before[i]);
                            } else {
                                assert(Some(live@[before.len() as int]@) == family_of(*net, u));
                            }
                        }
                    }
                },
                None => {},
            }
        }
        proof {
            assert forall|i: int| 0 <= i < live@.len() implies fired_family_below(
                *net,
                graph.edges@,
                t + 1,
                (#[trigger] live@[i])@,
            ) by {
                if i < before.len() {
                    assert(live@[i] == before[i]);
                    assert(fired_family_below(*net, graph.edges@, t as int, before[i]@));
                    let u = choose|u: int|
                        0 <= u < t && fired(graph.edges@, TransitionId(u as usize)) && #[trigger] family_of(*net, u)
                            == Some(before[i]@);
                    assert(family_of(*net, u) == Some(live@[i]@));
                } else {
                    assert(family_of(*net, t as int) == Some(live@[i]@));
                }
            }
        }
        t = t + 1;
    }
    proof {
        assert forall|f: Seq<char>| #[trigger] family_live(*net, graph.edges@, f) <==> named_in(live@, f) by {
            if family_live(*net, graph.edges@, f) {
                let u = choose|u: int|
                    0 <= u < net.transitions@.len() && fired(graph.edges@, TransitionId(u as usize))
                        && #[trigger] family_of(*net, u) == Some(f);
                let i = choose|i: int| 0 <= i < live@.len() && Some((#[trigger] live@[i])@) == family_of(*net, u);
                assert(live@[i]@ == f);
            }
            if named_in(live@, f) {
                let i = choose|i: int| 0 <= i < live@.len() && (#[trigger] live@[i])@ == f;
                assert(fired_family_below(*net, graph.edges@, n as int, live@[i]@));
                let u = choose|u: int|
                    0 <= u < n && fired(graph.edges@, TransitionId(u as usize)) && #[trigger] family_of(*net, u)
                        == Some(live@[i]@);
                assert(family_live(*net, graph.edges@, f));
            }
        }
    }
    let mut dead: Vec<Counterexample<CvnState>> = Vec::new();
    let mut reported: Vec<String> = Vec::new();
    let mut t: usize = 0;
    while t < n
        invariant
            t <= n,
            n == net.transitions@.len(),
            graph.initial < graph.states@.len(),
            forall|x: TransitionId| #[trigger] fired_ts@.contains(x) <==> fired(graph.edges@, x),
            forall|f: Seq<char>| #[trigger] family_live(*net, graph.edges@, f) <==> named_in(live@, f),
            dead@.len() == dead_reported(*net, graph.edges@, t as nat).len(),
            forall|k: int|
                0 <= k < dead@.len() ==> dead_report(
                    *net,
                    *graph,
                    dead_reported(*net, graph.edges@, t as nat)[k],
                    #[trigger] dead@[k],
                ),
            forall|f: Seq<char>| #[trigger] named_in(reported@, f) <==> family_reported(
                *net,
                dead_reported(*net, graph.edges@, t as nat),
                f,
            ),
            forall|j: int|
                0 <= j < dead_reported(*net, graph.edges@, t as nat).len() ==> (#[trigger] dead_reported(
                    *net,
                    graph.edges@,
                    t as nat,
                )[j]).0 < t,
        decreases n - t,
    {
        let id = TransitionId(t);
        let ghost prev = dead_reported(*net, graph.edges@, t as nat);
        let ghost rep0 = reported@;
        let mut report = false;
        if !holds_transition(&fired_ts, id) {
            match &net.transitions[t].kind.family {
                Some(f) => {
                    if !holds_name(&live, f) && !holds_name(&reported, f) {
                        reported.push(f.clone());
                        report = true;
                        assert(reported@[rep0.len() as int]@ == f@);
                        assert(family_of(*net, t as int) == Some(f@));
                    }
                },
                None => {
                    report = true;
                },
            }
        }
        proof {
            assert(report == reports(*net, graph.edges@, prev, t as int)) by {
                if let Some(f) = family_of(*net, t as int) {
                    assert(named_in(rep0, f) == family_reported(*net, prev, f));
                    assert(family_live(*net, graph.edges@, f) == named_in(live@, f));
                }
            }
        }
        if report {
            let a = anchors(net, id);
            let final_state = graph.states[graph.initial].clone();
            dead.push(Counterexample {
                kind: PropertyViolation::DeadTransition { transition: id, anchors: a },
                trace: Vec::new(),
                final_state,
            });
        }
        proof {
            let cur = dead_reported(*net, graph.edges@, (t + 1) as nat);
            if report {
                assert(cur == prev.push(id));
                assert forall|k: int| 0 <= k < dead@.len() implies dead_report(*net, *graph, cur[k], #[trigger] dead@[k]) by {
                    if k < prev.len() {
                        assert(cur[k] == prev[k]);
                    }
                }
                assert forall|f: Seq<char>| #[trigger] named_in(reported@, f) <==> family_reported(*net, cur, f) by {
                    if named_in(reported@, f) {
                        let i = choose|i: int| 0 <= i < reported@.len() && (#[trigger] reported@[i])@ == f;
                        if i < rep0.len() {
                            assert(reported@[i] == rep0[i]);
                            assert(named_in(rep0, f));
                            let j = choose|j: int| 0 <= j < prev.len() && family_of(*net, (#[trigger] prev[j]).0 as int) == Some(f);
                            assert(cur[j] == prev[j]);
                        } else {
                            assert(cur[prev.len() as int] == id);
                            assert(family_of(*net, t as int) == Some(reported@[rep0.len() as int]@));
                        }
                    }
                    if family_reported(*net, cur, f) {
                        let j = choose|j: int| 0 <= j < cur.len() && family_of(*net, (#[trigger] cur[j]).0 as int) == Some(f);
                        if j < prev.len() {
                            assert(cur[j] == prev[j]);
                            assert(family_reported(*net, prev, f));
                            assert(named_in(rep0, f));
                            let i = choose|i: int| 0 <= i < rep0.len() && (#[trigger] rep0[i])@ == f;
                            assert(reported@[i] == rep0[i]);
                        } else {
                            assert(reported@[rep0.len() as int]@ == f);
                        }
                    }
                }
            } else {
                assert(cur == prev);
            }
        }
        t = t + 1;
    }
    dead
}

/// Whether transition `t` has an input arc from place `p` in `arcs`.
pub open spec fn consumes(net: CvnNet, t: TransitionId, p: PlaceId) -> bool {
    exists|k: int|
        0 <= k < net.arcs@.len() && (#[trigger] net.arcs@[k]).direction == ArcDir::Input && net.arcs@[k].transition
            == t && net.arcs@[k].place == p
}

/// Whether transition `t` has two input arcs from place `p`.
pub open spec fn consumes_twice(net: CvnNet, t: TransitionId, p: PlaceId) -> bool {
    exists|k1: int, k2: int|
        0 <= k1 < net.arcs@.len() && 0 <= k2 < net.arcs@.len() && k1 != k2 && (#[trigger] net.arcs@[k1]).direction
            == ArcDir::Input && net.arcs@[k1].transition == t && net.arcs@[k1].place == p && (
        #[trigger] net.arcs@[k2]).direction == ArcDir::Input && net.arcs@[k2].transition == t && net.arcs@[k2].place
            == p
}

/// Whether transitions `a <= b` compete for an input place: two different
/// transitions with an input place in common, or one transition with two
/// input arcs from the same place.
pub open spec fn in_conflict(net: CvnNet, a: TransitionId, b: TransitionId) -> bool {
    if a.0 < b.0 {
        exists|p: PlaceId| consumes(net, a, p) && consumes(net, b, p)
    } else if a == b {
        exists|p: PlaceId| consumes_twice(net, a, p)
    } else {
        false
    }
}

/// Whether pair `x` comes before pair `y`, comparing first transitions,
/// then second ones.
pub open spec fn pair_before(x: (TransitionId, TransitionId), y: (TransitionId, TransitionId)) -> bool {
    x.0.0 < y.0.0 || (x.0.0 == y.0.0 && x.1.0 < y.1.0)
}

/// Whether transitions `a` and `b` share an input place (or, when they are
/// the same, whether it has two input arcs from one place).
fn share_input(net: &CvnNet, a: TransitionId, b: TransitionId) -> (r: bool)
    requires
        a.0 <= b.0,
    ensures
        r == in_conflict(*net, a, b),
{
    let n = net.arcs.len();
    let mut k1: usize = 0;
    while k1 < n
        invariant
            k1 <= n,
            n == net.arcs@.len(),
            a.0 <= b.0,
            forall|j1: int, j2: int|
                0 <= j1 < k1 && 0 <= j2 < n && (a.0 < b.0 || j1 != j2) && (#[trigger] net.arcs@[j1]).direction
                    == ArcDir::Input && net.arcs@[j1].transition == a && (#[trigger] net.arcs@[j2]).direction
                    == ArcDir::Input && net.arcs@[j2].transition == b ==> net.arcs@[j1].place != net.arcs@[j2].place,
        decreases n - k1,
    {
        let arc1 = &net.arcs[k1];
        if arc1.direction == ArcDir::Input && arc1.transition == a {
            let mut k2: usize = 0;
            while k2 < n
                invariant
                    k2 <= n,
                    n == net.arcs@.len(),
                    k1 < n,
                    *arc1 == net.arcs@[k1 as int],
                    arc1.direction == ArcDir::Input,
                    arc1.transition == a,
                    a.0 <= b.0,
                    forall|j2: int|
                        0 <= j2 < k2 && (a.0 < b.0 || k1 != j2) && (#[trigger] net.arcs@[j2]).direction == ArcDir::Input
                            && net.arcs@[j2].transition == b ==> arc1.place != net.arcs@[j2].place,
                decreases n - k2,
            {
                let arc2 = &net.arcs[k2];
                if (a.0 < b.0 || k1 != k2) && arc2.direction == ArcDir::Input && arc2.transition == b && arc2.place
                    == arc1.place {
                    proof {
                        if a.0 < b.0 {
                            assert(consumes(*net, a, arc1.place) && consumes(*net, b, arc1.place));
                        } else {
                            assert(consumes_twice(*net, a, arc1.place));
                        }
                    }
                    return true;
                }
                k2 = k2 + 1;
            }
        }
        k1 = k1 + 1;
    }
    proof {
        if a.0 < b.0 {
            assert forall|p: PlaceId| !(consumes(*net, a, p) && consumes(*net, b, p)) by {
                if consumes(*net, a, p) && consumes(*net, b, p) {
                    let j1 = choose|j1: int|
                        0 <= j1 < n && (#[trigger] net.arcs@[j1]).direction == ArcDir::Input && net.arcs@[j1].transition
                            == a && net.arcs@[j1].place == p;
                    let j2 = choose|j2: int|
                        0 <= j2 < n && (#[trigger] net.arcs@[j2]).direction == ArcDir::Input && net.arcs@[j2].transition
                            == b && net.arcs@[j2].place == p;
                    assert(net.arcs@[j1].place != net.arcs@[j2].place);
                }
            }
        } else if a == b {
            assert forall|p: PlaceId| !consumes_twice(*net, a, p) by {
                if consumes_twice(*net, a, p) {
                    let (j1, j2) = choose|j1: int, j2: int|
                        0 <= j1 < n && 0 <= j2 < n && j1 != j2 && (#[trigger] net.arcs@[j1]).direction == ArcDir::Input
                            && net.arcs@[j1].transition == a && net.arcs@[j1].place == p && (
                        #[trigger] net.arcs@[j2]).direction == ArcDir::Input && net.arcs@[j2].transition == a
                            && net.arcs@[j2].place == p;
                    assert(net.arcs@[j1].place != net.arcs@[j2].place);
                }
            }
        }
    }
    false
}

/// The pairs of transitions of `net` that compete for an input place,
/// each once, ordered by first and then second transition: two different
/// transitions sharing an input place, smaller first, and a transition
/// with two input arcs from one place paired with itself.
pub fn conflict_sets(net: &CvnNet) -> (r: Vec<(TransitionId, TransitionId)>)
    ensures
        forall|i: int, j: int| 0 <= i < j < r@.len() ==> pair_before(#[trigger] r@[i], #[trigger] r@[j]),
        forall|x: (TransitionId, TransitionId)| #[trigger]
            r@.contains(x) <==> (x.0.0 <= x.1.0 < net.transitions@.len() && in_conflict(*net, x.0, x.1)),
{
    let n = net.transitions.len();
    let mut r: Vec<(TransitionId, TransitionId)> = Vec::new();
    let mut a: usize = 0;
    while a < n
        invariant
            a <= n,
            n == net.transitions@.len(),
            forall|i: int, j: int| 0 <= i < j < r@.len() ==> pair_before(#[trigger] r@[i], #[trigger] r@[j]),
            forall|i: int| 0 <= i < r@.len() ==> (#[trigger] r@[i]).0.0 < a,
            forall|x: (TransitionId, TransitionId)| #[trigger]
                r@.contains(x) <==> (x.0.0 < a && x.0.0 <= x.1.0 < n && in_conflict(*net, x.0, x.1)),
        decreases n - a,
    {
        let mut b: usize = a;
        let ghost r0 = r@;
        while b < n
            invariant
                a < n,
                a <= b <= n,
                n == net.transitions@.len(),
                r0.len() <= r@.len(),
                forall|i: int| 0 <= i < r0.len() ==> #[trigger] r@[i] == r0[i],
                forall|i: int| 0 <= i < r0.len() ==> (#[trigger] r0[i]).0.0 < a,
                forall|i: int| r0.len() <= i < r@.len() ==> (#[trigger] r@[i]).0.0 == a && r@[i].1.0 < b,
                forall|i: int, j: int| 0 <= i < j < r@.len() ==> pair_before(#[trigger] r@[i], #[trigger] r@[j]),
                forall|x: (TransitionId, TransitionId)| #[trigger]
                    r@.contains(x) <==> (r0.contains(x) || (x.0.0 == a && a <= x.1.0 < b && in_conflict(
                        *net,
                        x.0,
                        x.1,
                    ))),
            decreases n - b,
        {
            let ta = TransitionId(a);
            let tb = TransitionId(b);
            if share_input(net, ta, tb) {
                let ghost before = r@;
                r.push((ta, tb));
                proof {
                    assert forall|x: (TransitionId, TransitionId)| #[trigger]
                        r@.contains(x) <==> (before.contains(x) || x == (ta, tb)) by {
                        if r@.contains(x) {
                            let i = choose|i: int| 0 <= i < r@.len() && r@[i] == x;
                            if i < before.len() {
                                assert(before[i] == x);
                            }
                        }
                        if before.contains(x) {
                            let i = choose|i: int| 0 <= i < before.len() && before[i] == x;
                            assert(r@[i] == x);
                        }
                        if x == (ta, tb) {
                            assert(r@[before.len() as int] == x);
                        }
                    }
                    assert forall|i: int, j: int| 0 <= i < j < r@.len() implies pair_before(
                        #[trigger] r@[i],
                        #[trigger] r@[j],
                    ) by {
                        if j == before.len() {
                            if i < r0.len() {
                                assert(r@[i] == r0[i]);
                            }
                        }
                    }
                }
            }
            b = b + 1;
        }
        proof {
            assert forall|x: (TransitionId, TransitionId)| #[trigger]
                r@.contains(x) <==> (x.0.0 < a + 1 && x.0.0 <= x.1.0 < n && in_conflict(*net, x.0, x.1)) by {
                if r0.contains(x) {
                    let i = choose|i: int| 0 <= i < r0.len() && r0[i] == x;
                    assert(r0[i].0.0 < a);
                }
            }
        }
        a = a + 1;
    }
    proof {
        assert forall|x: (TransitionId, TransitionId)| #[trigger]
            r@.contains(x) <==> (x.0.0 <= x.1.0 < net.transitions@.len() && in_conflict(*net, x.0, x.1)) by {
        }
    }
    r
}

} // verus!
