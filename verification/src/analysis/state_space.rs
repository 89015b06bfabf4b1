//! Exploration of the markings reachable from a start marking of a P/T net:
//! breadth- or depth-first, bounded by a number of states, recording every
//! firing, every failed firing and every dead state.
use std::collections::VecDeque;
use vstd::prelude::*;

use crate::ids::TransitionId;
use crate::pt::{sorted_selection, Marking, PtExecutionError, PtNet};

verus! {

/// A firing from state `source` to state `target`.
#[derive(Clone, Copy, Debug, PartialEq, Eq, Structural)]
pub struct Step {
    pub source: usize,
    pub target: usize,
    pub transition: TransitionId,
}

/// A firing of an enabled transition in state `source` that failed.
#[derive(Clone, Copy, Debug, PartialEq, Eq, Structural)]
pub struct Failed {
    pub source: usize,
    pub transition: TransitionId,
    pub error: PtExecutionError,
}

/// The explored states (by their markings), the firings between them, the
/// dead states, the failed firings, and whether the state limit cut the
/// exploration short.
pub struct Search {
    pub markings: Vec<Marking>,
    pub enabled: Vec<Vec<TransitionId>>,
    pub steps: Vec<Step>,
    pub blocked: Vec<usize>,
    pub failures: Vec<Failed>,
    pub truncated: bool,
}

/// Whether `e` fires between states of `ms`.
pub open spec fn step_ok(net: PtNet, ms: Seq<Seq<usize>>, e: Step) -> bool {
    &&& e.source < ms.len()
    &&& e.target < ms.len()
    &&& net.fire_result(ms[e.source as int], e.transition.0) == Ok::<Seq<usize>, PtExecutionError>(
        ms[e.target as int],
    )
}

/// Whether `f` is an enabled transition of a state of `ms` whose firing fails
/// with `f.error`.
pub open spec fn failed_ok(net: PtNet, ms: Seq<Seq<usize>>, f: Failed) -> bool {
    &&& f.source < ms.len()
    &&& net.enabled_in(ms[f.source as int], f.transition.0)
    &&& net.fire_result(ms[f.source as int], f.transition.0) == Err::<Seq<usize>, PtExecutionError>(f.error)
}

/// Whether the firing of `t` in state `i` is accounted for: by a step to the
/// state it reaches, by a failure, or, when the state limit was hit, by the
/// absence of the reached marking.
pub open spec fn transition_handled(
    net: PtNet,
    ms: Seq<Seq<usize>>,
    steps: Seq<Step>,
    failures: Seq<Failed>,
    truncated: bool,
    max_states: nat,
    i: int,
    t: usize,
) -> bool {
    match net.fire_result(ms[i], t) {
        Ok(m2) => (exists|k: int|
            #![trigger steps[k]]
            0 <= k < steps.len() && steps[k].source == i && steps[k].transition.0 == t
                && ms[steps[k].target as int] == m2) || (truncated && ms.len() >= max_states
            && forall|j: int| 0 <= j < ms.len() ==> ms[j] != m2),
        Err(e) => exists|k: int|
            #![trigger failures[k]]
            0 <= k < failures.len() && failures[k] == Failed {
                source: i as usize,
                transition: TransitionId(t),
                error: e,
            },
    }
}

/// Whether every enabled transition of state `i` is accounted for.
pub open spec fn state_handled(
    net: PtNet,
    ms: Seq<Seq<usize>>,
    steps: Seq<Step>,
    failures: Seq<Failed>,
    truncated: bool,
    max_states: nat,
    i: int,
) -> bool {
    forall|t: usize|
        net.enabled_in(ms[i], t) ==> #[trigger] transition_handled(
            net,
            ms,
            steps,
            failures,
            truncated,
            max_states,
            i,
            t,
        )
}

/// Whether state `j` was discovered from an earlier state: the first step
/// into it comes from a state of smaller index.
pub open spec fn discovered(steps: Seq<Step>, j: int) -> bool {
    exists|k: int|
        #![trigger steps[k]]
        0 <= k < steps.len() && steps[k].target == j && steps[k].source < j && forall|k2: int|
            0 <= k2 < k ==> #[trigger] steps[k2].target != j
}

/// No marking occurs twice.
pub open spec fn distinct_markings(ms: Seq<Seq<usize>>) -> bool {
    forall|i: int, j: int| 0 <= i < j < ms.len() ==> ms[i] != ms[j]
}

/// No index occurs twice.
pub open spec fn distinct(ids: Seq<usize>) -> bool {
    forall|i: int, j: int| 0 <= i < j < ids.len() ==> ids[i] != ids[j]
}

/// Whether `ids` lists `i`.
pub open spec fn lists(ids: Seq<usize>, i: int) -> bool {
    exists|k: int| 0 <= k < ids.len() && ids[k] == i
}

/// Whether no transition is enabled in `m`.
pub open spec fn dead(net: PtNet, m: Seq<usize>) -> bool {
    forall|t: usize| !net.enabled_in(m, t)
}

/// The markings of a list of markings.
pub open spec fn views(markings: Seq<Marking>) -> Seq<Seq<usize>> {
    Seq::new(markings.len(), |i: int| markings[i]@)
}

/// The enabled lists of a list of transition lists.
pub open spec fn id_views(lists: Seq<Vec<TransitionId>>) -> Seq<Seq<TransitionId>> {
    Seq::new(lists.len(), |i: int| lists[i]@)
}

/// Whether `ms`, `enabled`, `steps`, `blocked`, `failures` and `truncated`
/// are a sound exploration of `net` from `m0` with at most `max_states`
/// states: state 0 holds `m0`, markings are distinct, each state lists its
/// enabled transitions, steps are firings, failures are failed firings, the
/// dead states are exactly those listed as blocked, and every state but the
/// first was discovered from an earlier one.
pub open spec fn sound(
    net: PtNet,
    m0: Seq<usize>,
    max_states: nat,
    ms: Seq<Seq<usize>>,
    enabled: Seq<Seq<TransitionId>>,
    steps: Seq<Step>,
    blocked: Seq<usize>,
    failures: Seq<Failed>,
    truncated: bool,
) -> bool {
    &&& 0 < ms.len() <= max_states
    &&& ms[0] == m0
    &&& forall|i: int| 0 <= i < ms.len() ==> (#[trigger] ms[i]).len() == net.places@.len()
    &&& distinct_markings(ms)
    &&& enabled.len() == ms.len()
    &&& forall|i: int|
        0 <= i < ms.len() ==> sorted_selection(
            #[trigger] enabled[i],
            net.transitions@.len(),
            net.enabled_pred(ms[i]),
        )
    &&& forall|k: int| 0 <= k < steps.len() ==> step_ok(net, ms, #[trigger] steps[k])
    &&& forall|k: int| 0 <= k < failures.len() ==> failed_ok(net, ms, #[trigger] failures[k])
    &&& distinct(blocked)
    &&& forall|k: int|
        0 <= k < blocked.len() ==> #[trigger] blocked[k] < ms.len() && dead(net, ms[blocked[k] as int])
    &&& forall|i: int| 0 <= i < ms.len() && dead(net, ms[i]) ==> #[trigger] lists(blocked, i)
    &&& truncated ==> ms.len() == max_states
    &&& forall|j: int| 0 < j < ms.len() ==> #[trigger] discovered(steps, j)
}

/// Whether the exploration is sound (see `sound`) and complete: every
/// enabled transition of every state is accounted for.
pub open spec fn explored(
    net: PtNet,
    m0: Seq<usize>,
    max_states: nat,
    ms: Seq<Seq<usize>>,
    enabled: Seq<Seq<TransitionId>>,
    steps: Seq<Step>,
    blocked: Seq<usize>,
    failures: Seq<Failed>,
    truncated: bool,
) -> bool {
    &&& sound(net, m0, max_states, ms, enabled, steps, blocked, failures, truncated)
    &&& forall|i: int|
        0 <= i < ms.len() ==> #[trigger] state_handled(net, ms, steps, failures, truncated, max_states, i)
}

impl Search {
    /// The explored markings, by state index.
    pub open spec fn ms(&self) -> Seq<Seq<usize>> {
        views(self.markings@)
    }

    /// Whether this is a complete exploration of `net` from `m0` with at
    /// most `max_states` states.
    pub open spec fn complete(&self, net: PtNet, m0: Seq<usize>, max_states: nat) -> bool {
        explored(
            net,
            m0,
            max_states,
            self.ms(),
            id_views(self.enabled@),
            self.steps@,
            self.blocked@,
            self.failures@,
            self.truncated,
        )
    }
}

/// The working state of an exploration.
struct Explorer {
    markings: Vec<Marking>,
    enabled: Vec<Vec<TransitionId>>,
    steps: Vec<Step>,
    blocked: Vec<usize>,
    failures: Vec<Failed>,
    truncated: bool,
    pending: VecDeque<usize>,
}

impl Explorer {
    spec fn ms(&self) -> Seq<Seq<usize>> {
        views(self.markings@)
    }

    /// The invariant of the exploration loop; `active` is the state being
    /// expanded, if any.
    spec fn inv(&self, net: PtNet, m0: Seq<usize>, max_states: nat, done: Seq<bool>, active: int) -> bool {
        let ms = self.ms();
        &&& net.wf()
        &&& 0 < ms.len() <= max_states
        &&& ms[0] == m0
        &&& forall|i: int| 0 <= i < ms.len() ==> (#[trigger] ms[i]).len() == net.places@.len()
        &&& distinct_markings(ms)
        &&& self.enabled@.len() == ms.len()
        &&& done.len() == ms.len()
        &&& forall|k: int| 0 <= k < self.steps@.len() ==> step_ok(net, ms, #[trigger] self.steps@[k])
        &&& forall|k: int|
            0 <= k < self.failures@.len() ==> failed_ok(net, ms, #[trigger] self.failures@[k])
        &&& distinct(self.blocked@)
        &&& forall|k: int|
            0 <= k < self.blocked@.len() ==> #[trigger] self.blocked@[k] < ms.len() && dead(
                net,
                ms[self.blocked@[k] as int],
            ) && done[self.blocked@[k] as int]
        &&& forall|i: int| 0 <= i < ms.len() && done[i] && dead(net, ms[i]) ==> #[trigger] lists(self.blocked@, i)
        &&& forall|i: int|
            0 <= i < ms.len() && done[i] ==> #[trigger] state_handled(
                net,
                ms,
                self.steps@,
                self.failures@,
                self.truncated,
                max_states,
                i,
            )
        &&& forall|i: int|
            0 <= i < ms.len() && done[i] ==> sorted_selection(
                #[trigger] self.enabled@[i]@,
                net.transitions@.len(),
                net.enabled_pred(ms[i]),
            )
        &&& self.truncated ==> ms.len() >= max_states
        &&& forall|j: int| 0 < j < ms.len() ==> #[trigger] discovered(self.steps@, j)
        &&& distinct(self.pending@)
        &&& forall|k: int|
            0 <= k < self.pending@.len() ==> #[trigger] self.pending@[k] < ms.len()
                && !done[self.pending@[k] as int] && self.pending@[k] != active
        &&& forall|i: int| 0 <= i < ms.len() && i != active && !done[i] ==> #[trigger] lists(self.pending@, i)
        &&& (0 <= active < ms.len() ==> !done[active])
    }
}

/// What an exploration may grow into: the states, steps and failures only
/// gain entries at their end, and new states appear only below the limit.
spec fn grows(
    ms: Seq<Seq<usize>>,
    steps: Seq<Step>,
    failures: Seq<Failed>,
    truncated: bool,
    ms2: Seq<Seq<usize>>,
    steps2: Seq<Step>,
    failures2: Seq<Failed>,
    truncated2: bool,
    max_states: nat,
) -> bool {
    &&& ms.len() <= ms2.len()
    &&& forall|j: int| 0 <= j < ms.len() ==> ms2[j] == ms[j]
    &&& steps.len() <= steps2.len()
    &&& forall|k: int| 0 <= k < steps.len() ==> steps2[k] == steps[k]
    &&& failures.len() <= failures2.len()
    &&& forall|k: int| 0 <= k < failures.len() ==> failures2[k] == failures[k]
    &&& (truncated ==> truncated2)
    &&& (ms2.len() > ms.len() ==> ms.len() < max_states)
}

/// Accounting for a firing survives the growth of the exploration.
proof fn lemma_transition_handled_grows(
    net: PtNet,
    ms: Seq<Seq<usize>>,
    steps: Seq<Step>,
    failures: Seq<Failed>,
    truncated: bool,
    ms2: Seq<Seq<usize>>,
    steps2: Seq<Step>,
    failures2: Seq<Failed>,
    truncated2: bool,
    max_states: nat,
    i: int,
    t: usize,
)
    requires
        0 <= i < ms.len(),
        forall|k: int| 0 <= k < steps.len() ==> (#[trigger] steps[k]).target < ms.len(),
        grows(ms, steps, failures, truncated, ms2, steps2, failures2, truncated2, max_states),
        transition_handled(net, ms, steps, failures, truncated, max_states, i, t),
    ensures
        transition_handled(net, ms2, steps2, failures2, truncated2, max_states, i, t),
{
    match net.fire_result(ms[i], t) {
        Ok(m2) => {
            assert(ms2[i] == ms[i]);
            if exists|k: int|
                #![trigger steps[k]]
                0 <= k < steps.len() && steps[k].source == i && steps[k].transition.0 == t
                    && ms[steps[k].target as int] == m2 {
                let k = choose|k: int|
                    #![trigger steps[k]]
                    0 <= k < steps.len() && steps[k].source == i && steps[k].transition.0 == t
                        && ms[steps[k].target as int] == m2;
                assert(steps2[k] == steps[k]);
                assert(ms2[steps2[k].target as int] == m2);
            } else {
                assert(ms2.len() == ms.len());
                assert(ms2 =~= ms);
            }
        },
        Err(e) => {
            assert(ms2[i] == ms[i]);
            let k = choose|k: int|
                #![trigger failures[k]]
                0 <= k < failures.len() && failures[k] == Failed {
                    source: i as usize,
                    transition: TransitionId(t),
                    error: e,
                };
            assert(failures2[k] == failures[k]);
        },
    }
}

/// Accounting for a whole state survives the growth of the exploration.
proof fn lemma_state_handled_grows(
    net: PtNet,
    ms: Seq<Seq<usize>>,
    steps: Seq<Step>,
    failures: Seq<Failed>,
    truncated: bool,
    ms2: Seq<Seq<usize>>,
    steps2: Seq<Step>,
    failures2: Seq<Failed>,
    truncated2: bool,
    max_states: nat,
    i: int,
)
    requires
        0 <= i < ms.len(),
        forall|k: int| 0 <= k < steps.len() ==> (#[trigger] steps[k]).target < ms.len(),
        grows(ms, steps, failures, truncated, ms2, steps2, failures2, truncated2, max_states),
        state_handled(net, ms, steps, failures, truncated, max_states, i),
    ensures
        state_handled(net, ms2, steps2, failures2, truncated2, max_states, i),
{
    assert(ms2[i] == ms[i]);
    assert forall|t: usize| net.enabled_in(ms2[i], t) implies #[trigger] transition_handled(
        net,
        ms2,
        steps2,
        failures2,
        truncated2,
        max_states,
        i,
        t,
    ) by {
        assert(transition_handled(net, ms, steps, failures, truncated, max_states, i, t));
        lemma_transition_handled_grows(
            net,
            ms,
            steps,
            failures,
            truncated,
            ms2,
            steps2,
            failures2,
            truncated2,
            max_states,
            i,
            t,
        );
    }
}

/// A discovered state stays discovered as steps are appended.
pub(crate) proof fn lemma_discovered_grows(steps: Seq<Step>, steps2: Seq<Step>, j: int)
    requires
        steps.len() <= steps2.len(),
        forall|k: int| 0 <= k < steps.len() ==> steps2[k] == steps[k],
        discovered(steps, j),
    ensures
        discovered(steps2, j),
{
    let k = choose|k: int|
        #![trigger steps[k]]
        0 <= k < steps.len() && steps[k].target == j && steps[k].source < j && forall|k2: int|
            0 <= k2 < k ==> #[trigger] steps[k2].target != j;
    assert(steps2[k] == steps[k]);
    assert forall|k2: int| 0 <= k2 < k implies #[trigger] steps2[k2].target != j by {
        assert(steps2[k2] == steps[k2]);
    }
}

/// The index of the marking equal to `m`, if any.
pub(crate) fn find_marking(markings: &Vec<Marking>, m: &Marking) -> (r: Option<usize>)
    ensures
        match r {
            Some(j) => j < markings@.len() && markings@[j as int]@ == m@,
            None => forall|j: int| 0 <= j < markings@.len() ==> markings@[j]@ != m@,
        },
{
    for j in 0..markings.len()
        invariant
            forall|i: int| 0 <= i < j ==> markings@[i]@ != m@,
    {
        if markings[j].same(m) {
            return Some(j);
        }
    }
    None
}

/// A copy of a list of transitions.
pub fn copy_ids(v: &Vec<TransitionId>) -> (r: Vec<TransitionId>)
    ensures
        r@ == v@,
{
    let mut r: Vec<TransitionId> = Vec::new();
    for i in 0..v.len()
        invariant
            r@ == v@.take(i as int),
    {
        r.push(v[i]);
        assert(v@.take(i + 1) == v@.take(i as int).push(v@[i as int]));
    }
    assert(v@.take(v@.len() as int) == v@);
    r
}

impl Explorer {
    /// Fires `t` in state `source` and records the outcome: a failure, an
    /// step to a known or a new state, or the truncation of the graph.
    #[verifier::rlimit(40)]
    #[verifier::spinoff_prover]
    fn expand(
        &mut self,
        net: &PtNet,
        max_states: usize,
        source: usize,
        t: TransitionId,
        Ghost(done): Ghost<Seq<bool>>,
        Ghost(m0): Ghost<Seq<usize>>,
    )
        requires
            old(self).inv(*net, m0, max_states as nat, done, source as int),
            source < old(self).markings@.len(),
            net.enabled_in(old(self).ms()[source as int], t.0),
        ensures
            final(self).inv(
                *net,
                m0,
                max_states as nat,
                if final(self).markings@.len() > old(self).markings@.len() {
                    done.push(false)
                } else {
                    done
                },
                source as int,
            ),
            final(self).markings@.len() <= old(self).markings@.len() + 1,
            final(self).pending@.len() == old(self).pending@.len() + (final(self).markings@.len()
                - old(self).markings@.len()),
            grows(
                old(self).ms(),
                old(self).steps@,
                old(self).failures@,
                old(self).truncated,
                final(self).ms(),
                final(self).steps@,
                final(self).failures@,
                final(self).truncated,
                max_states as nat,
            ),
            final(self).blocked@ == old(self).blocked@,
            forall|i: int|
                0 <= i < old(self).markings@.len() ==> final(self).enabled@[i] == old(self).enabled@[i],
            transition_handled(
                *net,
                final(self).ms(),
                final(self).steps@,
                final(self).failures@,
                final(self).truncated,
                max_states as nat,
                source as int,
                t.0,
            ),
    {
        let ghost ms0 = self.ms();
        let ghost steps0 = self.steps@;
        let ghost failures0 = self.failures@;
        let ghost tr0 = self.truncated;
        let ghost enabled0 = self.enabled@;
        let ghost pending0 = self.pending@;
        let ghost maxn = max_states as nat;
        let ghost src = source as int;
        assert(self.markings@[src]@ == ms0[src]);
        match net.fire(&self.markings[source], t) {
            Err(error) => {
                let f = Failed { source, transition: t, error };
                self.failures.push(f);
                proof {
                    assert(self.ms() =~= ms0);
                    assert(failed_ok(*net, ms0, f));
                    assert(self.failures@[failures0.len() as int] == f);
                    assert(grows(ms0, steps0, failures0, tr0, ms0, steps0, self.failures@, tr0, maxn));
                    assert forall|i: int|
                        0 <= i < ms0.len() && done[i] implies #[trigger] state_handled(
                        *net,
                        ms0,
                        steps0,
                        self.failures@,
                        tr0,
                        maxn,
                        i,
                    ) by {
                        lemma_state_handled_grows(
                            *net,
                            ms0,
                            steps0,
                            failures0,
                            tr0,
                            ms0,
                            steps0,
                            self.failures@,
                            tr0,
                            maxn,
                            i,
                        );
                    }
                    assert forall|k: int| 0 <= k < self.failures@.len() implies failed_ok(
                        *net,
                        ms0,
                        #[trigger] self.failures@[k],
                    ) by {
                        if k < failures0.len() {
                            assert(self.failures@[k] == failures0[k]);
                        }
                    }
                }
            },
            Ok(next) => {
                let found = find_marking(&self.markings, &next);
                match found {
                    Some(j) => {
                        let e = Step { source, target: j, transition: t };
                        self.steps.push(e);
                        proof {
                            assert(self.ms() =~= ms0);
                            assert(self.markings@[j as int]@ == ms0[j as int]);
                            assert(step_ok(*net, ms0, e));
                            assert(self.steps@[steps0.len() as int] == e);
                            assert(grows(ms0, steps0, failures0, tr0, ms0, self.steps@, failures0, tr0, maxn));
                            assert forall|k: int| 0 <= k < self.steps@.len() implies step_ok(*net, ms0,
                                #[trigger] self.steps@[k],
                            ) by {
                                if k < steps0.len() {
                                    assert(self.steps@[k] == steps0[k]);
                                }
                            }
                            assert forall|i: int|
                                0 <= i < ms0.len() && done[i] implies #[trigger] state_handled(
                                *net,
                                ms0,
                                self.steps@,
                                failures0,
                                tr0,
                                maxn,
                                i,
                            ) by {
                                lemma_state_handled_grows(
                                    *net,
                                    ms0,
                                    steps0,
                                    failures0,
                                    tr0,
                                    ms0,
                                    self.steps@,
                                    failures0,
                                    tr0,
                                    maxn,
                                    i,
                                );
                            }
                            assert forall|jj: int| 0 < jj < ms0.len() implies #[trigger] discovered(
                                self.steps@,
                                jj,
                            ) by {
                                lemma_discovered_grows(steps0, self.steps@, jj);
                            }
                        }
                    },
                    None => {
                        if self.markings.len() >= max_states {
                            self.truncated = true;
                            proof {
                                assert(self.ms() =~= ms0);
                                assert(grows(ms0, steps0, failures0, tr0, ms0, steps0, failures0, true, maxn));
                                assert forall|i: int|
                                    0 <= i < ms0.len() && done[i] implies #[trigger] state_handled(
                                    *net,
                                    ms0,
                                    steps0,
                                    failures0,
                                    true,
                                    maxn,
                                    i,
                                ) by {
                                    lemma_state_handled_grows(
                                        *net,
                                        ms0,
                                        steps0,
                                        failures0,
                                        tr0,
                                        ms0,
                                        steps0,
                                        failures0,
                                        true,
                                        maxn,
                                        i,
                                    );
                                }
                            }
                            return;
                        }
                        let j = self.markings.len();
                        self.markings.push(next);
                        self.enabled.push(Vec::new());
                        self.pending.push_back(j);
                        let e = Step { source, target: j, transition: t };
                        self.steps.push(e);
                        proof {
                            let ms1 = self.ms();
                            let done1 = done.push(false);
                            assert(ms1 =~= ms0.push(next@));
                            assert(self.markings@[src]@ == ms0[src]);
                            assert(step_ok(*net, ms1, e));
                            assert(self.steps@[steps0.len() as int] == e);
                            assert(grows(ms0, steps0, failures0, tr0, ms1, self.steps@, failures0, tr0, maxn));
                            assert forall|k: int| 0 <= k < self.steps@.len() implies step_ok(*net, ms1,
                                #[trigger] self.steps@[k],
                            ) by {
                                if k < steps0.len() {
                                    assert(self.steps@[k] == steps0[k]);
                                    assert(step_ok(*net, ms0, steps0[k]));
                                    assert(ms1[steps0[k].source as int] == ms0[steps0[k].source as int]);
                                    assert(ms1[steps0[k].target as int] == ms0[steps0[k].target as int]);
                                }
                            }
                            assert forall|k: int| 0 <= k < failures0.len() implies failed_ok(
                                *net,
                                ms1,
                                #[trigger] failures0[k],
                            ) by {
                                assert(failed_ok(*net, ms0, failures0[k]));
                                assert(ms1[failures0[k].source as int] == ms0[failures0[k].source as int]);
                            }
                            assert forall|i: int|
                                0 <= i < ms1.len() && done1[i] implies #[trigger] state_handled(
                                *net,
                                ms1,
                                self.steps@,
                                failures0,
                                tr0,
                                maxn,
                                i,
                            ) && sorted_selection(
                                self.enabled@[i]@,
                                net.transitions@.len(),
                                net.enabled_pred(ms1[i]),
                            ) by {
                                assert(i < ms0.len());
                                assert(ms1[i] == ms0[i]);
                                assert(self.enabled@[i] == enabled0[i]);
                                assert(sorted_selection(
                                    enabled0[i]@,
                                    net.transitions@.len(),
                                    net.enabled_pred(ms0[i]),
                                ));
                                lemma_state_handled_grows(
                                    *net,
                                    ms0,
                                    steps0,
                                    failures0,
                                    tr0,
                                    ms1,
                                    self.steps@,
                                    failures0,
                                    tr0,
                                    maxn,
                                    i,
                                );
                            }
                            assert forall|k: int| 0 <= k < self.blocked@.len() implies #[trigger] self.blocked@[k]
                                < ms1.len() && dead(*net, ms1[self.blocked@[k] as int])
                                && done1[self.blocked@[k] as int] by {
                                assert(ms1[self.blocked@[k] as int] == ms0[self.blocked@[k] as int]);
                            }
                            assert forall|i: int|
                                0 <= i < ms1.len() && done1[i] && dead(*net, ms1[i]) implies #[trigger] lists(
                                self.blocked@,
                                i,
                            ) by {
                                assert(ms1[i] == ms0[i]);
                            }
                            assert forall|jj: int| 0 < jj < ms1.len() implies #[trigger] discovered(
                                self.steps@,
                                jj,
                            ) by {
                                if jj < ms0.len() {
                                    lemma_discovered_grows(steps0, self.steps@, jj);
                                } else {
                                    let k = steps0.len() as int;
                                    assert(self.steps@[k].target == jj);
                                    assert forall|k2: int| 0 <= k2 < k implies #[trigger] self.steps@[k2].target
                                        != jj by {
                                        assert(self.steps@[k2] == steps0[k2]);
                                        assert(step_ok(*net, ms0, steps0[k2]));
                                    }
                                }
                            }
                            assert forall|a: int, b: int| 0 <= a < b < ms1.len() implies ms1[a] != ms1[b] by {
                                if b == ms0.len() {
                                    assert(self.markings@[a]@ == ms0[a]);
                                }
                            }
                            assert forall|k: int| 0 <= k < self.pending@.len() implies #[trigger] self.pending@[k]
                                < ms1.len() && !done1[self.pending@[k] as int] && self.pending@[k] != src by {
                            }
                            assert forall|i: int|
                                0 <= i < ms1.len() && i != src && !done1[i] implies #[trigger] lists(
                                self.pending@,
                                i,
                            ) by {
                                if i == j {
                                    assert(self.pending@[self.pending@.len() - 1] == j);
                                } else {
                                    assert(lists(pending0, i));
                                    let k = choose|k: int| 0 <= k < pending0.len() && pending0[k] == i;
                                    assert(self.pending@[k] == pending0[k]);
                                }
                            }
                            assert(distinct(self.pending@));
                            assert forall|i: int| 0 <= i < ms1.len() implies (#[trigger] ms1[i]).len()
                                == net.places@.len() by {
                                if i < ms0.len() {
                                    assert(ms1[i] == ms0[i]);
                                }
                            }
                        }
                    },
                }
            },
        }
    }
}

/// Explores the markings reachable from `m0`, expanding the oldest pending
/// state first, or the newest when `depth_first`, and keeping at most
/// `max_states` states.
pub fn search(net: &PtNet, m0: &Marking, max_states: usize, depth_first: bool) -> (r: Search)
    requires
    net.wf(),
    m0@.len() == net.places@.len(),
    max_states > 0,
    ensures
    r.complete(*net, m0@, max_states as nat),
{
    let mut markings: Vec<Marking> = Vec::new();
    markings.push(m0.clone());
    let mut enabled: Vec<Vec<TransitionId>> = Vec::new();
    enabled.push(Vec::new());
    let mut pending: VecDeque<usize> = VecDeque::new();
    pending.push_back(0);
    let mut w = Explorer {
        markings,
        enabled,
        steps: Vec::new(),
        blocked: Vec::new(),
        failures: Vec::new(),
        truncated: false,
        pending,
    };
    let ghost mut done: Seq<bool> = seq![false];
    proof {
        assert(w.ms() =~= seq![m0@]);
        assert(w.pending@[0] == 0);
        assert(lists(w.pending@, 0));
    }
    while w.pending.len() > 0
        invariant
            w.inv(*net, m0@, max_states as nat, done, -1),
            max_states > 0,
        decreases max_states - w.markings@.len(), w.pending@.len(),
    {
        let ghost pending_before = w.pending@;
        let popped = if depth_first {
            w.pending.pop_back()
        } else {
            w.pending.pop_front()
        };
        let source = match popped {
            Some(id) => id,
            None => 0,
        };
        let ghost len0 = w.markings@.len();
        let ghost pend0 = w.pending@.len();
        proof {
            let ms = w.ms();
            let pk: int = if depth_first {
                pending_before.len() - 1
            } else {
                0
            };
            assert(pending_before[pk] == source);
            assert forall|k: int| 0 <= k < w.pending@.len() implies #[trigger] w.pending@[k]
                < ms.len() && !done[w.pending@[k] as int] && w.pending@[k] != source by {
                let kk = if pk == 0 { k + 1 } else { k };
                assert(w.pending@[k] == pending_before[kk]);
                assert(pending_before[kk] != pending_before[pk]);
            }
            assert forall|i: int| 0 <= i < ms.len() && i != source && !done[i] implies #[trigger] lists(
                w.pending@,
                i,
            ) by {
                assert(lists(pending_before, i));
                let k = choose|k: int| 0 <= k < pending_before.len() && pending_before[k] == i;
                assert(k != pk);
                let kk = if pk == 0 { k - 1 } else { k };
                assert(w.pending@[kk] == pending_before[k]);
            }
            assert forall|a: int, b: int| 0 <= a < b < w.pending@.len() implies w.pending@[a] != w.pending@[b] by {
                let aa = if pk == 0 { a + 1 } else { a };
                let bb = if pk == 0 { b + 1 } else { b };
                assert(w.pending@[a] == pending_before[aa]);
                assert(w.pending@[b] == pending_before[bb]);
            }
            assert(w.inv(*net, m0@, max_states as nat, done, source as int));
        }
        assert(w.ms()[source as int] == w.markings@[source as int]@);
        let en = net.enabled(&w.markings[source]);
        w.enabled.set(source, copy_ids(&en));
        if en.len() == 0 {
            let ghost blocked0 = w.blocked@;
            w.blocked.push(source);
            proof {
                let ms = w.ms();
                assert(dead(*net, ms[source as int])) by {
                    assert forall|t: usize| !net.enabled_in(ms[source as int], t) by {
                        if net.enabled_in(ms[source as int], t) {
                            assert(net.enabled_pred(ms[source as int])(t));
                        }
                    }
                }
                let done1 = done.update(source as int, true);
                assert(state_handled(
                    *net,
                    ms,
                    w.steps@,
                    w.failures@,
                    w.truncated,
                    max_states as nat,
                    source as int,
                ));
                assert forall|k: int| 0 <= k < w.blocked@.len() implies #[trigger] w.blocked@[k]
                    < ms.len() && dead(*net, ms[w.blocked@[k] as int])
                    && done1[w.blocked@[k] as int] by {
                }
                assert forall|i: int| 0 <= i < ms.len() && done1[i] && dead(*net, ms[i]) implies #[trigger] lists(
                    w.blocked@,
                    i,
                ) by {
                    if i == source {
                        assert(w.blocked@[w.blocked@.len() - 1] == source);
                    } else {
                        assert(lists(blocked0, i));
                        let k = choose|k: int| 0 <= k < blocked0.len() && blocked0[k] == i;
                        assert(w.blocked@[k] == blocked0[k]);
                    }
                }
                assert forall|a: int, b: int| 0 <= a < b < w.blocked@.len() implies w.blocked@[a]
                    != w.blocked@[b] by {
                    assert(w.blocked@[a] == blocked0[a]);
                    if b < w.blocked@.len() - 1 {
                        assert(w.blocked@[b] == blocked0[b]);
                    }
                }
                done = done1;
            }
        } else {
            let ghost ms_at_start = w.ms();
            for k in 0..en.len()
                invariant
                    w.inv(*net, m0@, max_states as nat, done, source as int),
                    source < len0,
                    ms_at_start.len() == len0,
                    len0 <= w.markings@.len(),
                    w.pending@.len() == pend0 + (w.markings@.len() - len0),
                    w.enabled@[source as int]@ == en@,
                    w.ms()[source as int] == ms_at_start[source as int],
                    sorted_selection(
                        en@,
                        net.transitions@.len(),
                        net.enabled_pred(ms_at_start[source as int]),
                    ),
                    forall|j: int|
                        0 <= j < k ==> #[trigger] transition_handled(
                            *net,
                            w.ms(),
                            w.steps@,
                            w.failures@,
                            w.truncated,
                            max_states as nat,
                            source as int,
                            en@[j].0,
                        ),
            {
                let t = en[k];
                let ghost ms1 = w.ms();
                let ghost steps1 = w.steps@;
                let ghost failures1 = w.failures@;
                let ghost tr1 = w.truncated;
                proof {
                    assert(net.enabled_pred(ms_at_start[source as int])(t.0));
                }
                w.expand(net, max_states, source, t, Ghost(done), Ghost(m0@));
                proof {
                    if w.markings@.len() > ms1.len() {
                        done = done.push(false);
                    }
                    assert forall|j: int| 0 <= j < k + 1 implies #[trigger] transition_handled(
                        *net,
                        w.ms(),
                        w.steps@,
                        w.failures@,
                        w.truncated,
                        max_states as nat,
                        source as int,
                        en@[j].0,
                    ) by {
                        if j < k {
                            lemma_transition_handled_grows(
                                *net,
                                ms1,
                                steps1,
                                failures1,
                                tr1,
                                w.ms(),
                                w.steps@,
                                w.failures@,
                                w.truncated,
                                max_states as nat,
                                source as int,
                                en@[j].0,
                            );
                        }
                    }
                    assert(w.ms()[source as int] == ms1[source as int]);
                }
            }
            proof {
                let ms = w.ms();
                assert forall|t: usize| net.enabled_in(ms[source as int], t) implies #[trigger] transition_handled(
                    *net,
                    ms,
                    w.steps@,
                    w.failures@,
                    w.truncated,
                    max_states as nat,
                    source as int,
                    t,
                ) by {
                    assert(net.enabled_pred(ms_at_start[source as int])(t));
                    let j = choose|j: int| 0 <= j < en@.len() && en@[j].0 == t;
                    assert(transition_handled(
                        *net,
                        ms,
                        w.steps@,
                        w.failures@,
                        w.truncated,
                        max_states as nat,
                        source as int,
                        en@[j].0,
                    ));
                }
                let done1 = done.update(source as int, true);
                assert forall|i: int| 0 <= i < ms.len() && done1[i] && dead(*net, ms[i]) implies #[trigger] lists(
                    w.blocked@,
                    i,
                ) by {
                    if i == source {
                        assert(net.enabled_pred(ms[source as int])(en@[0].0));
                    }
                }
                done = done1;
            }
        }
    }
    proof {
        assert forall|i: int| 0 <= i < done.len() implies done[i] by {
            if !done[i] {
                assert(lists(w.pending@, i));
            }
        }
    }
    let r = Search {
        markings: w.markings,
        enabled: w.enabled,
        steps: w.steps,
        blocked: w.blocked,
        failures: w.failures,
        truncated: w.truncated,
    };
    proof {
        assert(r.ms() == w.ms());
        assert forall|i: int| 0 <= i < r.ms().len() implies sorted_selection(
            #[trigger] r.enabled@[i]@,
            net.transitions@.len(),
            net.enabled_pred(r.ms()[i]),
        ) by {
            assert(done[i]);
        }
        assert forall|i: int| 0 <= i < r.ms().len() && dead(*net, r.ms()[i]) implies #[trigger] lists(
            r.blocked@,
            i,
        ) by {
            assert(done[i]);
        }
        assert forall|i: int| 0 <= i < r.ms().len() implies #[trigger] state_handled(
            *net,
            r.ms(),
            r.steps@,
            r.failures@,
            r.truncated,
            max_states as nat,
            i,
        ) by {
            assert(done[i]);
        }
    }
    r
}

/// Every explored marking is reachable from the start marking.
pub proof fn law_explored_markings_are_reachable(
    net: PtNet,
    m0: Seq<usize>,
    max_states: nat,
    ms: Seq<Seq<usize>>,
    enabled: Seq<Seq<TransitionId>>,
    steps: Seq<Step>,
    blocked: Seq<usize>,
    failures: Seq<Failed>,
    truncated: bool,
    i: int,
)
    requires
        sound(net, m0, max_states, ms, enabled, steps, blocked, failures, truncated),
        0 <= i < ms.len(),
    ensures
        net.reachable(m0, ms[i]),
    decreases i,
{
    if i == 0 {
        assert(net.run(m0, Seq::<TransitionId>::empty()) == Some(ms[0]));
    } else {
        assert(discovered(steps, i));
        let k = choose|k: int|
            #![trigger steps[k]]
            0 <= k < steps.len() && steps[k].target == i && steps[k].source < i && forall|k2: int|
                0 <= k2 < k ==> #[trigger] steps[k2].target != i;
        let e = steps[k];
        assert(step_ok(net, ms, e));
        let src = e.source as int;
        law_explored_markings_are_reachable(
            net,
            m0,
            max_states,
            ms,
            enabled,
            steps,
            blocked,
            failures,
            truncated,
            src,
        );
        let w = choose|w: Seq<TransitionId>| net.run(m0, w) == Some(ms[src]);
        let w2 = w.push(e.transition);
        assert(w2.drop_last() == w);
        assert(net.run(m0, w2) == Some(ms[i]));
    }
}

/// An exploration that the state limit did not cut short holds every
/// marking reachable from the start marking.
pub proof fn law_complete_search_covers_reachable(
    net: PtNet,
    m0: Seq<usize>,
    max_states: nat,
    ms: Seq<Seq<usize>>,
    enabled: Seq<Seq<TransitionId>>,
    steps: Seq<Step>,
    blocked: Seq<usize>,
    failures: Seq<Failed>,
    w: Seq<TransitionId>,
)
    requires
        explored(net, m0, max_states, ms, enabled, steps, blocked, failures, false),
        net.run(m0, w) is Some,
    ensures
        exists|i: int| 0 <= i < ms.len() && ms[i] == net.run(m0, w)->0,
    decreases w.len(),
{
    if w.len() == 0 {
        assert(ms[0] == net.run(m0, w)->0);
    } else {
        let w1 = w.drop_last();
        let t = w.last().0;
        law_complete_search_covers_reachable(net, m0, max_states, ms, enabled, steps, blocked, failures, w1);
        let m1 = net.run(m0, w1)->0;
        let i = choose|i: int| 0 <= i < ms.len() && ms[i] == m1;
        let m2 = net.run(m0, w)->0;
        assert(net.fire_result(m1, t) == Ok::<Seq<usize>, PtExecutionError>(m2));
        assert(net.enabled_in(ms[i], t));
        assert(state_handled(net, ms, steps, failures, false, max_states, i));
        assert(transition_handled(net, ms, steps, failures, false, max_states, i, t));
        let k = choose|k: int|
            #![trigger steps[k]]
            0 <= k < steps.len() && steps[k].source == i && steps[k].transition.0 == t
                && ms[steps[k].target as int] == m2;
        assert(step_ok(net, ms, steps[k]));
    }
}

} // verus!
