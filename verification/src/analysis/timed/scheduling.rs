//! Structural enabling, priority enabling per core, and suspension.
use vstd::prelude::*;
use std::collections::HashMap;

use crate::ids::TransitionId;
use crate::pt::{Marking, PtNet};
use crate::timed::TimedNet;

use super::state_class::contains;

verus! {

broadcast use vstd::std_specs::hash::group_hash_axioms;

/// The transitions below `n` enabled in `m`, in increasing order.
pub open spec fn enabled_below(net: PtNet, m: Seq<usize>, n: nat) -> Seq<usize>
    decreases n,
{
    if n == 0 {
        Seq::empty()
    } else {
        let prev = enabled_below(net, m, (n - 1) as nat);
        if net.enabled_in(m, (n - 1) as usize) {
            prev.push((n - 1) as usize)
        } else {
            prev
        }
    }
}

/// The enabled transitions below `n` are listed in increasing order, each
/// below `n`, and every enabled transition below `n` is listed.
pub proof fn lemma_enabled_below(net: PtNet, m: Seq<usize>, n: nat)
    requires
        n <= usize::MAX + 1,
    ensures
        forall|a: int, b: int|
            0 <= a < b < enabled_below(net, m, n).len() ==> enabled_below(net, m, n)[a] < enabled_below(net, m, n)[b],
        forall|a: int|
            0 <= a < enabled_below(net, m, n).len() ==> (#[trigger] enabled_below(net, m, n)[a]) < n
                && net.enabled_in(m, enabled_below(net, m, n)[a]),
        forall|t: usize| (t as int) < n ==> (#[trigger] enabled_below(net, m, n).contains(t) <==> net.enabled_in(m, t)),
    decreases n,
{
    if n > 0 {
        lemma_enabled_below(net, m, (n - 1) as nat);
        let prev = enabled_below(net, m, (n - 1) as nat);
        assert forall|t: usize| (t as int) < n implies (#[trigger] enabled_below(net, m, n).contains(t) <==> net.enabled_in(m, t)) by {
            if t == n - 1 {
                if !net.enabled_in(m, t) {
                    if enabled_below(net, m, n).contains(t) {
                        let a = choose|a: int| 0 <= a < prev.len() && prev[a] == t;
                        assert(prev[a] < n - 1);
                    }
                } else {
                    assert(enabled_below(net, m, n).last() == t);
                }
            } else {
                if enabled_below(net, m, n).contains(t) && !prev.contains(t) {
                    let a = choose|a: int| 0 <= a < enabled_below(net, m, n).len() && enabled_below(net, m, n)[a] == t;
                    assert(a == prev.len());
                }
                if prev.contains(t) {
                    let a = choose|a: int| 0 <= a < prev.len() && prev[a] == t;
                    assert(enabled_below(net, m, n)[a] == t);
                }
            }
        }
    }
}

/// The priority of transition `t` (zero without timing).
pub open spec fn priority_of(net: TimedNet, t: int) -> i32 {
    match net.timing_of(t) {
        Some(x) => x.priority,
        None => 0,
    }
}

/// The core of transition `t` (zero without timing).
pub open spec fn core_of(net: TimedNet, t: int) -> i32 {
    match net.timing_of(t) {
        Some(x) => x.core,
        None => 0,
    }
}

/// Whether transition `t` can be suspended (not without timing).
pub open spec fn suspendable_of(net: TimedNet, t: int) -> bool {
    match net.timing_of(t) {
        Some(x) => x.suspendable,
        None => false,
    }
}

/// The parallelism bound of `core`: zero ("no bound") for a negative core
/// or one without an entry.
pub open spec fn parallelism_spec(cp: Map<i32, i32>, core: i32) -> i32 {
    if core < 0 {
        0
    } else if cp.contains_key(core) {
        cp[core]
    } else {
        0
    }
}

/// Whether `u` comes before `t` in the core of `t`: same core, and higher
/// priority or the same priority and a lower index.
pub open spec fn ahead_of(net: TimedNet, u: usize, t: usize) -> bool {
    core_of(net, u as int) == core_of(net, t as int) && (priority_of(net, u as int) > priority_of(net, t as int) || (
    priority_of(net, u as int) == priority_of(net, t as int) && u < t))
}

/// Whether `u` has a higher priority than `t` in the core of `t`.
pub open spec fn outranks(net: TimedNet, u: usize, t: usize) -> bool {
    core_of(net, u as int) == core_of(net, t as int) && priority_of(net, u as int) > priority_of(net, t as int)
}

/// The number of transitions of `s` that come before `t` in its core.
pub open spec fn rank_in_core(s: Seq<usize>, net: TimedNet, t: usize) -> nat
    decreases s.len(),
{
    if s.len() == 0 {
        0
    } else {
        rank_in_core(s.drop_last(), net, t) + if ahead_of(net, s.last(), t) {
            1nat
        } else {
            0nat
        }
    }
}

/// The number of transitions of `s` with a higher priority than `t` in its
/// core.
pub open spec fn outranked_by(s: Seq<usize>, net: TimedNet, t: usize) -> nat
    decreases s.len(),
{
    if s.len() == 0 {
        0
    } else {
        outranked_by(s.drop_last(), net, t) + if outranks(net, s.last(), t) {
            1nat
        } else {
            0nat
        }
    }
}

/// Whether enabled transition `t` keeps running among the enabled
/// transitions `s`: in an unbounded core when no transition of its core has
/// a higher priority, in a core bounded by `k` when fewer than `k` come
/// before it.
pub open spec fn keeps_running(s: Seq<usize>, net: TimedNet, cp: Map<i32, i32>, t: usize) -> bool {
    let cap = parallelism_spec(cp, core_of(net, t as int));
    if cap <= 0 {
        outranked_by(s, net, t) == 0
    } else {
        rank_in_core(s, net, t) < cap
    }
}

/// The transitions of `s` that keep running.
pub open spec fn priority_filter(s: Seq<usize>, net: TimedNet, cp: Map<i32, i32>) -> Seq<usize> {
    s.filter(|t: usize| keeps_running(s, net, cp, t))
}

/// The enabled transitions outside `pe` that can be suspended.
pub open spec fn suspended_of(se: Seq<usize>, pe: Seq<usize>, net: TimedNet) -> Seq<usize> {
    se.filter(|t: usize| !pe.contains(t) && suspendable_of(net, t as int))
}

/// Structural enabling, priority enabling per core, and suspension.
pub struct Scheduling;

/// The parallelism bound of `core_id`: zero ("no bound") for a negative core
/// or one without an entry.
fn parallelism_of_core(core_parallelism: &HashMap<i32, i32>, core_id: i32) -> (r: i32)
    ensures
        r == parallelism_spec(core_parallelism@, core_id),
{
    if core_id < 0 {
        return 0;
    }
    match core_parallelism.get(&core_id) {
        Some(v) => *v,
        None => 0,
    }
}

fn priority_exec(net: &TimedNet, t: usize) -> (r: i32)
    ensures
        r == priority_of(*net, t as int),
{
    match net.transition(TransitionId(t)) {
        Some(x) => x.priority,
        None => 0,
    }
}

fn core_exec(net: &TimedNet, t: usize) -> (r: i32)
    ensures
        r == core_of(*net, t as int),
{
    match net.transition(TransitionId(t)) {
        Some(x) => x.core,
        None => 0,
    }
}

impl Scheduling {
    /// The transitions whose input places hold enough tokens, in increasing
    /// order.
    pub fn structural_enabled(net: &TimedNet, marking: &Marking) -> (r: Vec<usize>)
        requires
            net.wf(),
            marking@.len() == net.net.places@.len(),
        ensures
            r@ == enabled_below(net.net, marking@, net.net.transitions@.len()),
    {
        let mut enabled: Vec<usize> = Vec::new();
        let nt = net.num_transitions();
        for t in 0..nt
            invariant
                net.wf(),
                marking@.len() == net.net.places@.len(),
                enabled@ == enabled_below(net.net, marking@, t as nat),
        {
            if net.is_enabled(marking, TransitionId(t)) {
                enabled.push(t);
            }
        }
        enabled
    }

    /// Within every core, the enabled transitions that keep running: in a
    /// core without bound, those of the highest priority; in a core bounded
    /// by `k`, the first `k` by priority, ties broken by lower index. The
    /// result keeps the order of `struct_enabled`.
    pub fn filter_priority_per_core(
        struct_enabled: &Vec<usize>,
        net: &TimedNet,
        core_parallelism: &HashMap<i32, i32>,
    ) -> (r: Vec<usize>)
        ensures
            r@ == priority_filter(struct_enabled@, *net, core_parallelism@),
    {
        let ghost s = struct_enabled@;
        let ghost pred = |t: usize| keeps_running(s, *net, core_parallelism@, t);
        let mut active: Vec<usize> = Vec::new();
        for k in 0..struct_enabled.len()
            invariant
                s == struct_enabled@,
                pred == (|t: usize| keeps_running(s, *net, core_parallelism@, t)),
                active@ == s.take(k as int).filter(pred),
        {
            let t = struct_enabled[k];
            let core = core_exec(net, t);
            let prio = priority_exec(net, t);
            let cap = parallelism_of_core(core_parallelism, core);
            let mut rank: usize = 0;
            let mut higher: usize = 0;
            for j in 0..struct_enabled.len()
                invariant
                    s == struct_enabled@,
                    0 <= k < s.len(),
                    t == s[k as int],
                    core == core_of(*net, t as int),
                    prio == priority_of(*net, t as int),
                    rank == rank_in_core(s.take(j as int), *net, t),
                    higher == outranked_by(s.take(j as int), *net, t),
                    rank <= j,
                    higher <= j,
            {
                let u = struct_enabled[j];
                let cu = core_exec(net, u);
                let pu = priority_exec(net, u);
                assert(s.take(j + 1).drop_last() == s.take(j as int));
                if cu == core && (pu > prio || (pu == prio && u < t)) {
                    rank = rank + 1;
                }
                if cu == core && pu > prio {
                    higher = higher + 1;
                }
            }
            assert(s.take(s.len() as int) == s);
            let keep = if cap <= 0 {
                higher == 0
            } else {
                rank < cap as usize
            };
            proof {
                assert(s.take(k + 1) == s.take(k as int).push(t));
                s.take(k as int).lemma_filter_push(t, pred);
            }
            if keep {
                active.push(t);
            }
        }
        assert(s.take(s.len() as int) == s);
        active
    }

    /// The enabled, priority-enabled and suspended transitions in `marking`.
    pub fn compute_sets(net: &TimedNet, marking: &Marking, core_parallelism: &HashMap<i32, i32>) -> (r: (
        Vec<usize>,
        Vec<usize>,
        Vec<usize>,
    ))
        requires
            net.wf(),
            marking@.len() == net.net.places@.len(),
        ensures
            r.0@ == enabled_below(net.net, marking@, net.net.transitions@.len()),
            r.1@ == priority_filter(r.0@, *net, core_parallelism@),
            r.2@ == suspended_of(r.0@, r.1@, *net),
    {
        let struct_enabled = Self::structural_enabled(net, marking);
        let priority_enabled = Self::filter_priority_per_core(&struct_enabled, net, core_parallelism);
        let ghost se = struct_enabled@;
        let ghost pe = priority_enabled@;
        let ghost pred = |t: usize| !pe.contains(t) && suspendable_of(*net, t as int);
        let mut suspended: Vec<usize> = Vec::new();
        for k in 0..struct_enabled.len()
            invariant
                se == struct_enabled@,
                pe == priority_enabled@,
                pred == (|t: usize| !pe.contains(t) && suspendable_of(*net, t as int)),
                suspended@ == se.take(k as int).filter(pred),
        {
            let t = struct_enabled[k];
            proof {
                assert(se.take(k + 1) == se.take(k as int).push(t));
                se.take(k as int).lemma_filter_push(t, pred);
            }
            if !contains(&priority_enabled, t) {
                let susp = match net.transition(TransitionId(t)) {
                    Some(x) => x.suspendable,
                    None => false,
                };
                if susp {
                    suspended.push(t);
                }
            }
        }
        assert(se.take(se.len() as int) == se);
        (struct_enabled, priority_enabled, suspended)
    }
}

/// The transitions of `s` on the core of `t`.
pub open spec fn on_core_of(s: Seq<usize>, net: TimedNet, t: usize) -> Seq<usize> {
    s.filter(|u: usize| core_of(net, u as int) == core_of(net, t as int))
}

/// Only the transitions on the core of `t` count for its rank and for the
/// transitions that outrank it.
proof fn lemma_counts_on_core(s: Seq<usize>, net: TimedNet, t: usize)
    ensures
        rank_in_core(on_core_of(s, net, t), net, t) == rank_in_core(s, net, t),
        outranked_by(on_core_of(s, net, t), net, t) == outranked_by(s, net, t),
    decreases s.len(),
{
    let pred = |u: usize| core_of(net, u as int) == core_of(net, t as int);
    if s.len() == 0 {
        assert(on_core_of(s, net, t) =~= s);
    } else {
        let w = s.drop_last();
        let x = s.last();
        assert(w.push(x) == s);
        lemma_counts_on_core(w, net, t);
        w.lemma_filter_push(x, pred);
        if pred(x) {
            assert(on_core_of(s, net, t).drop_last() == on_core_of(w, net, t));
            assert(on_core_of(s, net, t).last() == x);
        } else {
            assert(on_core_of(s, net, t) == on_core_of(w, net, t));
        }
    }
}

/// `x` is kept by filtering `s` with `pred` exactly when `s` holds it and
/// it passes.
proof fn lemma_filter_has(s: Seq<usize>, pred: spec_fn(usize) -> bool, x: usize)
    ensures
        s.filter(pred).contains(x) == (s.contains(x) && pred(x)),
{
    if s.contains(x) && pred(x) {
        let i = choose|i: int| 0 <= i < s.len() && s[i] == x;
        s.lemma_filter_contains(pred, i);
    }
    if s.filter(pred).contains(x) {
        s.lemma_filter_contains_rev(pred, x);
        let j = choose|j: int| 0 <= j < s.filter(pred).len() && s.filter(pred)[j] == x;
        s.lemma_filter_pred(pred, j);
    }
}

/// Priority enabling is decided core by core: whether `t` is kept among
/// the enabled transitions `s1` and among `s2` is the same whenever the two
/// hold the same transitions, in the same order, on the core of `t`; adding
/// or removing enabled transitions of other cores never changes it.
pub proof fn law_priority_enabling_is_per_core(s1: Seq<usize>, s2: Seq<usize>, net: TimedNet, cp: Map<i32, i32>, t: usize)
    requires
        on_core_of(s1, net, t) == on_core_of(s2, net, t),
    ensures
        priority_filter(s1, net, cp).contains(t) == priority_filter(s2, net, cp).contains(t),
{
    let pred = |u: usize| core_of(net, u as int) == core_of(net, t as int);
    lemma_counts_on_core(s1, net, t);
    lemma_counts_on_core(s2, net, t);
    assert(keeps_running(s1, net, cp, t) == keeps_running(s2, net, cp, t));
    lemma_filter_has(s1, pred, t);
    lemma_filter_has(s2, pred, t);
    lemma_filter_has(s1, |u: usize| keeps_running(s1, net, cp, u), t);
    lemma_filter_has(s2, |u: usize| keeps_running(s2, net, cp, u), t);
}

/// No transition of `s` on the core of `t` comes before `t`: none has a
/// higher priority, and none of the same priority has a lower index.
proof fn lemma_first_on_core(s: Seq<usize>, net: TimedNet, t: usize)
    requires
        forall|u: usize|
            #[trigger] s.contains(u) && core_of(net, u as int) == core_of(net, t as int) ==> priority_of(net, u as int)
                < priority_of(net, t as int) || (priority_of(net, u as int) == priority_of(net, t as int) && u >= t),
    ensures
        rank_in_core(s, net, t) == 0,
        outranked_by(s, net, t) == 0,
    decreases s.len(),
{
    if s.len() > 0 {
        let w = s.drop_last();
        assert forall|u: usize|
            #[trigger] w.contains(u) && core_of(net, u as int) == core_of(net, t as int) implies priority_of(net, u as int)
                < priority_of(net, t as int) || (priority_of(net, u as int) == priority_of(net, t as int) && u >= t) by {
            let i = choose|i: int| 0 <= i < w.len() && w[i] == u;
            assert(s[i] == u);
            assert(s.contains(u));
        }
        lemma_first_on_core(w, net, t);
        assert(s[s.len() - 1] == s.last());
        assert(s.contains(s.last()));
    }
}

/// The transition that comes first on its core, by priority and then by
/// index, is always kept, whatever the core's bound and whatever runs on
/// other cores.
pub proof fn law_first_on_its_core_is_kept(s: Seq<usize>, net: TimedNet, cp: Map<i32, i32>, t: usize)
    requires
        s.contains(t),
        forall|u: usize|
            #[trigger] s.contains(u) && core_of(net, u as int) == core_of(net, t as int) ==> priority_of(net, u as int)
                < priority_of(net, t as int) || (priority_of(net, u as int) == priority_of(net, t as int) && u >= t),
    ensures
        priority_filter(s, net, cp).contains(t),
{
    lemma_first_on_core(s, net, t);
    let k = |u: usize| keeps_running(s, net, cp, u);
    assert(keeps_running(s, net, cp, t));
    lemma_filter_has(s, k, t);
}

/// The transitions of `s` on the core of `t` that come before `t`: a higher
/// priority, or the same priority and a lower index.
pub open spec fn before_on_core(s: Seq<usize>, net: TimedNet, t: usize) -> Seq<usize> {
    s.filter(
        |u: usize|
            core_of(net, u as int) == core_of(net, t as int) && (priority_of(net, u as int) > priority_of(net, t as int) || (
            priority_of(net, u as int) == priority_of(net, t as int) && u < t)),
    )
}

proof fn lemma_rank_counts(s: Seq<usize>, net: TimedNet, t: usize)
    ensures
        rank_in_core(s, net, t) == before_on_core(s, net, t).len(),
        outranked_by(s, net, t) == 0 <==> forall|u: usize|
            #[trigger] s.contains(u) && core_of(net, u as int) == core_of(net, t as int) ==> priority_of(net, u as int)
                <= priority_of(net, t as int),
    decreases s.len(),
{
    let pred = |u: usize|
        core_of(net, u as int) == core_of(net, t as int) && (priority_of(net, u as int) > priority_of(net, t as int) || (
        priority_of(net, u as int) == priority_of(net, t as int) && u < t));
    if s.len() == 0 {
        assert(before_on_core(s, net, t) =~= s);
    } else {
        let w = s.drop_last();
        let x = s.last();
        assert(w.push(x) == s);
        lemma_rank_counts(w, net, t);
        w.lemma_filter_push(x, pred);
        assert forall|u: usize| #[trigger] s.contains(u) <==> (w.contains(u) || u == x) by {
            if s.contains(u) {
                let i = choose|i: int| 0 <= i < s.len() && s[i] == u;
                if i < w.len() {
                    assert(w[i] == u);
                }
            }
            if w.contains(u) {
                let i = choose|i: int| 0 <= i < w.len() && w[i] == u;
                assert(s[i] == u);
            }
            if u == x {
                assert(s[s.len() - 1] == u);
            }
        }
        let all_s = forall|u: usize|
            #[trigger] s.contains(u) && core_of(net, u as int) == core_of(net, t as int) ==> priority_of(net, u as int)
                <= priority_of(net, t as int);
        let all_w = forall|u: usize|
            #[trigger] w.contains(u) && core_of(net, u as int) == core_of(net, t as int) ==> priority_of(net, u as int)
                <= priority_of(net, t as int);
        if all_s {
            assert(all_w) by {
                assert forall|u: usize| #[trigger] w.contains(u) && core_of(net, u as int) == core_of(net, t as int) implies priority_of(
                    net,
                    u as int,
                ) <= priority_of(net, t as int) by {
                    assert(s.contains(u));
                }
            }
            assert(s.contains(x));
            assert(!outranks(net, x, t));
        }
        if outranked_by(s, net, t) == 0 {
            assert(outranked_by(w, net, t) == 0);
            assert(!outranks(net, x, t));
            assert(all_w);
            assert(all_s) by {
                assert forall|u: usize| #[trigger] s.contains(u) && core_of(net, u as int) == core_of(net, t as int) implies priority_of(
                    net,
                    u as int,
                ) <= priority_of(net, t as int) by {
                    if u != x {
                        assert(w.contains(u));
                    }
                }
            }
        }
    }
}

/// Priority enabling exactly: in a core without bound, an enabled
/// transition is kept when no enabled transition of its core has a higher
/// priority; in a core bounded by `k`, when fewer than `k` enabled
/// transitions of its core come before it (by priority, ties by lower
/// index).
pub proof fn law_priority_enabling_exact(s: Seq<usize>, net: TimedNet, cp: Map<i32, i32>, t: usize)
    ensures
        priority_filter(s, net, cp).contains(t) == (s.contains(t) && if parallelism_spec(cp, core_of(net, t as int)) <= 0 {
            forall|u: usize|
                #[trigger] s.contains(u) && core_of(net, u as int) == core_of(net, t as int) ==> priority_of(net, u as int)
                    <= priority_of(net, t as int)
        } else {
            before_on_core(s, net, t).len() < parallelism_spec(cp, core_of(net, t as int))
        }),
{
    lemma_rank_counts(s, net, t);
    lemma_filter_has(s, |u: usize| keeps_running(s, net, cp, u), t);
}

} // verus!
