//! Enabling and firing of a colored verification net. Besides the token
//! counts, an input-arc guard that is false disables a transition (an
//! unknown one does not), and so does an update that would take an integer
//! variable out of its declared bounds. Firing consumes and produces tokens,
//! refusing to overfill a bounded resource place, applies the updates
//! against the store as it was before the firing, ends the scopes of
//! variables and empties the reset places.
//!
//! Guards and updates may compute on doubles; the caller supplies those
//! operations, and the contracts say what every other part gives.
use vstd::prelude::*;

use super::builder::{first_named, lemma_first_named_prefix};
use super::expr::{
    computes_arith, computes_compare, eval_expr, eval_guard, expr_value, expr_value_with, guard_value, guard_value_with, ConcreteVal,
    CmpOp, Expr, GuardResult, Op, Val, VarStore, conforms,
};
use super::net::{Arc, CvnArcKind, CvnNet, CvnState};
use crate::ids::{PlaceId, TransitionId};
use crate::pt::ArcDir;

verus! {

/// The token count of `p` in `m`; zero for a place `m` does not cover.
pub open spec fn tokens_at(m: Seq<usize>, p: PlaceId) -> nat {
    if p.0 < m.len() {
        m[p.0 as int] as nat
    } else {
        0
    }
}

/// Whether `a` is an arc of transition `t` in direction `d`.
pub open spec fn arc_of(a: Arc, t: TransitionId, d: ArcDir) -> bool {
    a.transition == t && a.direction == d
}

/// The sum of the weights of the input arcs of `t` from `p` among the
/// first `n` arcs.
pub open spec fn input_weight(arcs: Seq<Arc>, t: TransitionId, p: PlaceId, n: nat) -> nat
    decreases n,
{
    if n == 0 {
        0
    } else {
        input_weight(arcs, t, p, (n - 1) as nat) + if arc_of(arcs[n - 1], t, ArcDir::Input) && arcs[n - 1].place == p {
            arcs[n - 1].weight as nat
        } else {
            0
        }
    }
}

/// The tokens `t` needs on `p`: the weights of its input arcs from `p`
/// together, capped at the largest `usize`.
pub open spec fn required(arcs: Seq<Arc>, t: TransitionId, p: PlaceId) -> nat {
    let w = input_weight(arcs, t, p, arcs.len());
    if w <= usize::MAX {
        w
    } else {
        usize::MAX as nat
    }
}

/// Whether the token counts of `m` let `t` fire: each place it consumes
/// from holds what it needs, each place it reads holds the arc's weight, and
/// each place inhibiting it holds less than the arc's weight.
pub open spec fn structurally_enabled(net: CvnNet, m: Seq<usize>, t: TransitionId) -> bool {
    forall|k: int| 0 <= k < net.arcs@.len() ==> #[trigger] arc_allows(net, m, t, net.arcs@[k])
}

/// Whether arc `a` lets `t` fire in `m`.
pub open spec fn arc_allows(net: CvnNet, m: Seq<usize>, t: TransitionId, a: Arc) -> bool {
    &&& arc_of(a, t, ArcDir::Input) ==> tokens_at(m, a.place) >= required(net.arcs@, t, a.place)
    &&& arc_of(a, t, ArcDir::Read) ==> tokens_at(m, a.place) >= a.weight
    &&& arc_of(a, t, ArcDir::Inhibitor) ==> tokens_at(m, a.place) < a.weight
}

/// The result of the guard of arc `a` for `t`: true for an arc without
/// one; none when it turns on a comparison of doubles.
pub open spec fn arc_guard(a: Arc, t: TransitionId, vars: Map<Seq<char>, Val>) -> Option<GuardResult> {
    if arc_of(a, t, ArcDir::Input) {
        match a.kind {
            CvnArcKind::Guard(g) => guard_value(g, vars),
            _ => Some(GuardResult::True),
        }
    } else {
        Some(GuardResult::True)
    }
}

/// Whether no guard of `t` is false: false when one is, none when one
/// turns on a comparison of doubles and none is false.
pub open spec fn guards_value(net: CvnNet, vars: Map<Seq<char>, Val>, t: TransitionId) -> Option<bool> {
    if exists|k: int| 0 <= k < net.arcs@.len() && #[trigger] arc_guard(net.arcs@[k], t, vars) == Some(GuardResult::False) {
        Some(false)
    } else if exists|k: int| 0 <= k < net.arcs@.len() && #[trigger] arc_guard(net.arcs@[k], t, vars) is None {
        None
    } else {
        Some(true)
    }
}

/// Whether setting `name` to the value of `e` keeps it in its declared
/// bounds: a variable without bounds, or a value that is not an integer,
/// always does.
pub open spec fn update_in_domain(
    domains: Seq<(String, (i64, i64))>,
    vars: Map<Seq<char>, Val>,
    name: String,
    e: Expr,
) -> bool {
    let i = first_named(domains, name@);
    i >= 0 ==> match expr_value(e, vars) {
        Some(Val::Concrete(ConcreteVal::Int(v))) => domains[i].1.0 <= v <= domains[i].1.1,
        _ => true,
    }
}

/// Whether every update of an output arc of `t` keeps its variable in
/// bounds.
pub open spec fn domains_respected(
    net: CvnNet,
    vars: Map<Seq<char>, Val>,
    domains: Seq<(String, (i64, i64))>,
    t: TransitionId,
) -> bool {
    forall|k: int| 0 <= k < net.arcs@.len() ==> #[trigger] updates_in_domain(net.arcs@[k], t, vars, domains)
}

/// Whether the updates of arc `a`, if it is an output arc of `t`, keep
/// their variables in bounds.
pub open spec fn updates_in_domain(
    a: Arc,
    t: TransitionId,
    vars: Map<Seq<char>, Val>,
    domains: Seq<(String, (i64, i64))>,
) -> bool {
    arc_of(a, t, ArcDir::Output) ==> match a.kind {
        CvnArcKind::Update(u) => forall|j: int| 0 <= j < u@.len() ==> update_in_domain(domains, vars, (#[trigger] u@[j]).0, u@[j].1),
        _ => true,
    }
}

/// Whether `t` is enabled in `state`; none when that turns on a comparison
/// of doubles.
pub open spec fn enabled_value(net: CvnNet, state: CvnState, t: TransitionId) -> Option<bool> {
    if !structurally_enabled(net, state.marking@, t) || !domains_respected(
        net,
        state.extra.vars@,
        state.extra.domains@,
        t,
    ) {
        Some(false)
    } else {
        guards_value(net, state.extra.vars@, t)
    }
}

/// The result of the guard of arc `a` for `t`, with `fa` and `fc` as the
/// arithmetic and comparison of doubles: true for an arc without one.
pub open spec fn arc_guard_with(
    a: Arc,
    t: TransitionId,
    vars: Map<Seq<char>, Val>,
    fa: spec_fn(Op, u64, u64) -> u64,
    fc: spec_fn(CmpOp, u64, u64) -> bool,
) -> GuardResult {
    if arc_of(a, t, ArcDir::Input) {
        match a.kind {
            CvnArcKind::Guard(g) => guard_value_with(g, vars, fa, fc),
            _ => GuardResult::True,
        }
    } else {
        GuardResult::True
    }
}

/// Whether none of the guards of `t` on the first `k` arcs is false, with
/// `fa` and `fc` as the arithmetic and comparison of doubles.
pub open spec fn guards_pass_below(
    net: CvnNet,
    vars: Map<Seq<char>, Val>,
    t: TransitionId,
    fa: spec_fn(Op, u64, u64) -> u64,
    fc: spec_fn(CmpOp, u64, u64) -> bool,
    k: int,
) -> bool {
    forall|j: int| 0 <= j < k ==> #[trigger] arc_guard_with(net.arcs@[j], t, vars, fa, fc) != GuardResult::False
}

/// Whether `t` is enabled in `state`, with `fa` and `fc` as the arithmetic
/// and comparison of doubles: the token counts allow it, no update leaves
/// its bounds and no guard is false.
pub open spec fn enabled_under(
    net: CvnNet,
    state: CvnState,
    t: TransitionId,
    fa: spec_fn(Op, u64, u64) -> u64,
    fc: spec_fn(CmpOp, u64, u64) -> bool,
) -> bool {
    &&& structurally_enabled(net, state.marking@, t)
    &&& domains_respected(net, state.extra.vars@, state.extra.domains@, t)
    &&& guards_pass_below(net, state.extra.vars@, t, fa, fc, net.arcs@.len() as int)
}

/// Whether the transitions below `k` that `ts` holds are exactly those
/// enabled in `state`, with `fa` and `fc` as the arithmetic and comparison
/// of doubles.
pub open spec fn lists_enabled_below(
    net: CvnNet,
    state: CvnState,
    ts: Seq<TransitionId>,
    fa: spec_fn(Op, u64, u64) -> u64,
    fc: spec_fn(CmpOp, u64, u64) -> bool,
    k: int,
) -> bool {
    forall|u: int|
        0 <= u < k ==> (ts.contains(TransitionId(u as usize)) <==> #[trigger] enabled_under(
            net,
            state,
            TransitionId(u as usize),
            fa,
            fc,
        ))
}

/// Whether the arcs of `net` name places `m` covers.
pub open spec fn places_covered(net: CvnNet, m: Seq<usize>) -> bool {
    forall|k: int| 0 <= k < net.arcs@.len() ==> (#[trigger] net.arcs@[k]).place.0 < m.len()
}

/// The token counts after `t` takes the tokens of its input arcs among
/// the first `n` arcs, in order; none when a place holds too few.
pub open spec fn consumed(arcs: Seq<Arc>, t: TransitionId, m: Seq<usize>, n: nat) -> Option<Seq<usize>>
    decreases n,
{
    if n == 0 {
        Some(m)
    } else {
        match consumed(arcs, t, m, (n - 1) as nat) {
            None => None,
            Some(m1) => {
                let a = arcs[n - 1];
                if arc_of(a, t, ArcDir::Input) {
                    if a.weight <= tokens_at(m1, a.place) {
                        Some(m1.update(a.place.0 as int, (m1[a.place.0 as int] - a.weight) as usize))
                    } else {
                        None
                    }
                } else {
                    Some(m1)
                }
            },
        }
    }
}

/// The token counts after `t` puts the tokens of its output arcs among
/// the first `n` arcs, in order; none when a count would not fit in a
/// `usize` or would exceed the capacity of its place.
pub open spec fn produced(net: CvnNet, t: TransitionId, m: Seq<usize>, n: nat) -> Option<Seq<usize>>
    decreases n,
{
    if n == 0 {
        Some(m)
    } else {
        match produced(net, t, m, (n - 1) as nat) {
            None => None,
            Some(m1) => {
                let a = net.arcs@[n - 1];
                if arc_of(a, t, ArcDir::Output) {
                    let v = tokens_at(m1, a.place) + a.weight;
                    if v > usize::MAX {
                        None
                    } else if net.capacity_spec(a.place) matches Some(c) && v > c {
                        None
                    } else {
                        Some(m1.update(a.place.0 as int, v as usize))
                    }
                } else {
                    Some(m1)
                }
            },
        }
    }
}

/// The token counts after the reset arcs of `t` among the first `n` arcs
/// empty their places.
pub open spec fn reset(arcs: Seq<Arc>, t: TransitionId, m: Seq<usize>, n: nat) -> Seq<usize>
    decreases n,
{
    if n == 0 {
        m
    } else {
        let m1 = reset(arcs, t, m, (n - 1) as nat);
        let a = arcs[n - 1];
        if arc_of(a, t, ArcDir::Reset) {
            m1.update(a.place.0 as int, 0)
        } else {
            m1
        }
    }
}

/// The token counts after firing `t` in `m`: inputs taken, outputs put,
/// reset places emptied; none when a place holds too few or would hold too
/// many.
pub open spec fn fire_marking(net: CvnNet, m: Seq<usize>, t: TransitionId) -> Option<Seq<usize>> {
    let n = net.arcs@.len();
    match consumed(net.arcs@, t, m, n) {
        None => None,
        Some(m1) => match produced(net, t, m1, n) {
            None => None,
            Some(m2) => Some(reset(net.arcs@, t, m2, n)),
        },
    }
}

/// The store `cur` after the first `n` updates of `u`, each evaluated
/// against `pre`; none once a value is a double computed by floating-point
/// arithmetic.
pub open spec fn apply_updates(
    pre: Map<Seq<char>, Val>,
    cur: Map<Seq<char>, Val>,
    u: Seq<(String, Expr)>,
    n: nat,
) -> Option<Map<Seq<char>, Val>>
    decreases n,
{
    if n == 0 {
        Some(cur)
    } else {
        match apply_updates(pre, cur, u, (n - 1) as nat) {
            None => None,
            Some(c) => match expr_value(u[n - 1].1, pre) {
                Some(v) => Some(c.insert(u[n - 1].0@, v)),
                None => None,
            },
        }
    }
}

/// The store after the updates of the output arcs of `t` among the first
/// `n` arcs, evaluated against `pre`.
pub open spec fn updated(arcs: Seq<Arc>, t: TransitionId, pre: Map<Seq<char>, Val>, n: nat) -> Option<
    Map<Seq<char>, Val>,
>
    decreases n,
{
    if n == 0 {
        Some(pre)
    } else {
        match updated(arcs, t, pre, (n - 1) as nat) {
            None => None,
            Some(c) => {
                let a = arcs[n - 1];
                if arc_of(a, t, ArcDir::Output) {
                    match a.kind {
                        CvnArcKind::Update(u) => apply_updates(pre, c, u@, u@.len()),
                        _ => Some(c),
                    }
                } else {
                    Some(c)
                }
            },
        }
    }
}

/// `vars` without the first `n` of `names`.
pub open spec fn drop_names(vars: Map<Seq<char>, Val>, names: Seq<String>, n: nat) -> Map<Seq<char>, Val>
    decreases n,
{
    if n == 0 {
        vars
    } else {
        drop_names(vars, names, (n - 1) as nat).remove(names[n - 1]@)
    }
}

/// `vars` without the variables whose scope the output arcs of `t` among
/// the first `n` arcs end.
pub open spec fn dropped(arcs: Seq<Arc>, t: TransitionId, vars: Map<Seq<char>, Val>, n: nat) -> Map<Seq<char>, Val>
    decreases n,
{
    if n == 0 {
        vars
    } else {
        let v1 = dropped(arcs, t, vars, (n - 1) as nat);
        let a = arcs[n - 1];
        if arc_of(a, t, ArcDir::Output) {
            match a.kind {
                CvnArcKind::DropVars(names) => drop_names(v1, names@, names@.len()),
                _ => v1,
            }
        } else {
            v1
        }
    }
}

/// The store after firing `t` from `pre`: updates applied, then scopes
/// ended; none when an update computes a double.
pub open spec fn fire_vars(net: CvnNet, pre: Map<Seq<char>, Val>, t: TransitionId) -> Option<Map<Seq<char>, Val>> {
    match updated(net.arcs@, t, pre, net.arcs@.len()) {
        Some(v) => Some(dropped(net.arcs@, t, v, net.arcs@.len())),
        None => None,
    }
}

/// The store `cur` after the first `n` updates of `u`, each evaluated
/// against `pre` with `fa` as the arithmetic of doubles.
pub open spec fn apply_updates_with(
    pre: Map<Seq<char>, Val>,
    cur: Map<Seq<char>, Val>,
    u: Seq<(String, Expr)>,
    n: nat,
    fa: spec_fn(Op, u64, u64) -> u64,
) -> Map<Seq<char>, Val>
    decreases n,
{
    if n == 0 {
        cur
    } else {
        apply_updates_with(pre, cur, u, (n - 1) as nat, fa).insert(u[n - 1].0@, expr_value_with(u[n - 1].1, pre, fa))
    }
}

/// The store after the updates of the output arcs of `t` among the first
/// `n` arcs, evaluated against `pre` with `fa` as the arithmetic of doubles.
pub open spec fn updated_with(
    arcs: Seq<Arc>,
    t: TransitionId,
    pre: Map<Seq<char>, Val>,
    n: nat,
    fa: spec_fn(Op, u64, u64) -> u64,
) -> Map<Seq<char>, Val>
    decreases n,
{
    if n == 0 {
        pre
    } else {
        let c = updated_with(arcs, t, pre, (n - 1) as nat, fa);
        let a = arcs[n - 1];
        if arc_of(a, t, ArcDir::Output) {
            match a.kind {
                CvnArcKind::Update(u) => apply_updates_with(pre, c, u@, u@.len(), fa),
                _ => c,
            }
        } else {
            c
        }
    }
}

/// The store after firing `t` from `pre`, with `fa` as the arithmetic of
/// doubles: updates applied, then scoped variables dropped.
pub open spec fn fire_vars_with(net: CvnNet, pre: Map<Seq<char>, Val>, t: TransitionId, fa: spec_fn(Op, u64, u64) -> u64) -> Map<
    Seq<char>,
    Val,
> {
    dropped(net.arcs@, t, updated_with(net.arcs@, t, pre, net.arcs@.len(), fa), net.arcs@.len())
}

/// Whether `r` is what firing `t` in `state` gives, with `fa` and `fc` as
/// the arithmetic and comparison of doubles: a state exactly when `t` is
/// enabled and the new marking exists, and then one whose store is the one
/// `fire_vars_with` gives.
pub open spec fn fires_under(
    net: CvnNet,
    state: CvnState,
    t: TransitionId,
    fa: spec_fn(Op, u64, u64) -> u64,
    fc: spec_fn(CmpOp, u64, u64) -> bool,
    r: Option<CvnState>,
) -> bool {
    match r {
        None => !(enabled_under(net, state, t, fa, fc) && fire_marking(net, state.marking@, t) is Some),
        Some(next) => {
            &&& enabled_under(net, state, t, fa, fc)
            &&& next.extra.vars@ == fire_vars_with(net, state.extra.vars@, t, fa)
        },
    }
}

/// `a` plus `b`, or the largest `usize` when that is more.
fn saturating_sum(a: usize, b: usize) -> (r: usize)
    ensures
        r == if a + b <= usize::MAX {
            (a + b) as usize
        } else {
            usize::MAX
        },
{
    if a > usize::MAX - b {
        usize::MAX
    } else {
        a + b
    }
}

/// The declared bounds of variable `name`, if it has any.
fn domain_of(domains: &Vec<(String, (i64, i64))>, name: &String) -> (r: Option<(i64, i64)>)
    ensures
        match r {
            Some(b) => first_named(domains@, name@) >= 0 && domains@[first_named(domains@, name@)].1 == b,
            None => first_named(domains@, name@) < 0,
        },
{
    let n = domains.len();
    let mut i: usize = 0;
    while i < n
        invariant
            i <= n,
            n == domains@.len(),
            first_named(domains@.take(i as int), name@) < 0,
        decreases n - i,
    {
        proof {
            lemma_first_named_prefix(domains@, i as int, name@);
        }
        if domains[i].0 == *name {
            proof {
                lemma_first_named_prefix(domains@, i + 1, name@);
                assert(first_named(domains@.take(i + 1), name@) == i);
            }
            return Some(domains[i].1);
        }
        i = i + 1;
    }
    proof {
        lemma_first_named_prefix(domains@, n as int, name@);
    }
    None
}

impl CvnNet {
    /// The tokens `t` needs on `place`.
    fn required_tokens(&self, t: TransitionId, place: PlaceId) -> (r: usize)
        ensures
            r == required(self.arcs@, t, place),
    {
        let n = self.arcs.len();
        let mut total: usize = 0;
        let mut k: usize = 0;
        while k < n
            invariant
                k <= n,
                n == self.arcs@.len(),
                total == (if input_weight(self.arcs@, t, place, k as nat) <= usize::MAX {
                    input_weight(self.arcs@, t, place, k as nat)
                } else {
                    usize::MAX as nat
                }),
            decreases n - k,
        {
            let a = &self.arcs[k];
            if a.transition == t && a.direction == ArcDir::Input && a.place == place {
                total = saturating_sum(total, a.weight);
            }
            k = k + 1;
        }
        total
    }

    /// Whether every update of arc `k`, if it is an output arc of `t`,
    /// keeps its variable in bounds.
    fn arc_updates_in_domain<F: Fn(Op, u64, u64) -> u64>(
        &self,
        state: &CvnState,
        t: TransitionId,
        k: usize,
        float_arith: &F,
    ) -> (r: bool)
        requires
            k < self.arcs@.len(),
            forall|op: Op, a: u64, b: u64| float_arith.requires((op, a, b)),
        ensures
            r == updates_in_domain(self.arcs@[k as int], t, state.extra.vars@, state.extra.domains@),
    {
        let a = &self.arcs[k];
        if !(a.transition == t && a.direction == ArcDir::Output) {
            return true;
        }
        match &a.kind {
            CvnArcKind::Update(u) => {
                let m = u.len();
                let mut j: usize = 0;
                while j < m
                    invariant
                        j <= m,
                        m == u@.len(),
                        k < self.arcs@.len(),
                        self.arcs@[k as int].kind == CvnArcKind::Update(*u),
                        arc_of(self.arcs@[k as int], t, ArcDir::Output),
                        forall|op: Op, x: u64, y: u64| float_arith.requires((op, x, y)),
                        forall|i: int|
                            0 <= i < j ==> update_in_domain(
                                state.extra.domains@,
                                state.extra.vars@,
                                (#[trigger] u@[i]).0,
                                u@[i].1,
                            ),
                    decreases m - j,
                {
                    let (name, e) = &u[j];
                    match domain_of(&state.extra.domains, name) {
                        Some((lo, hi)) => {
                            let v = eval_expr(e, &state.extra.vars, float_arith);
                            match v {
                                Val::Concrete(ConcreteVal::Int(x)) => {
                                    if x < lo || x > hi {
                                        assert(self.arcs@[k as int].kind == CvnArcKind::Update(*u));
                                        assert(!update_in_domain(
                                            state.extra.domains@,
                                            state.extra.vars@,
                                            u@[j as int].0,
                                            u@[j as int].1,
                                        ));
                                        assert(!updates_in_domain(
                                            self.arcs@[k as int],
                                            t,
                                            state.extra.vars@,
                                            state.extra.domains@,
                                        )) by {
                                            let uu = self.arcs@[k as int].kind->Update_0;
                                            assert(uu == *u);
                                            assert(uu@[j as int] == u@[j as int]);
                                        }
                                        return false;
                                    }
                                },
                                _ => {},
                            }
                        },
                        None => {},
                    }
                    j = j + 1;
                }
                true
            },
            _ => true,
        }
    }

    /// Whether `t` is enabled in `state`: the token counts allow it, no
    /// guard is false and no update leaves its bounds. The result is the one
    /// `enabled_value` gives, wherever it gives one, and whenever the two
    /// closures compute spec functions `fa` and `fc`, the one
    /// `enabled_under` gives.
    pub fn is_enabled_with<F: Fn(Op, u64, u64) -> u64, C: Fn(CmpOp, u64, u64) -> bool>(
        &self,
        state: &CvnState,
        t: TransitionId,
        float_arith: &F,
        float_compare: &C,
    ) -> (r: bool)
        requires
            forall|op: Op, a: u64, b: u64| float_arith.requires((op, a, b)),
            forall|op: CmpOp, a: u64, b: u64| float_compare.requires((op, a, b)),
        ensures
            enabled_value(*self, *state, t) matches Some(b) ==> r == b,
            forall|fa: spec_fn(Op, u64, u64) -> u64, fc: spec_fn(CmpOp, u64, u64) -> bool|
                computes_arith(*float_arith, fa) && computes_compare(*float_compare, fc) ==> r
                    == #[trigger] enabled_under(*self, *state, t, fa, fc),
    {
        let n = self.arcs.len();
        let mut k: usize = 0;
        while k < n
            invariant
                k <= n,
                n == self.arcs@.len(),
                forall|op: Op, a: u64, b: u64| float_arith.requires((op, a, b)),
                forall|op: CmpOp, a: u64, b: u64| float_compare.requires((op, a, b)),
                forall|j: int| 0 <= j < k ==> #[trigger] arc_allows(*self, state.marking@, t, self.arcs@[j]),
                forall|j: int|
                    0 <= j < k ==> #[trigger] arc_guard(self.arcs@[j], t, state.extra.vars@) != Some(GuardResult::False),
                forall|fa: spec_fn(Op, u64, u64) -> u64, fc: spec_fn(CmpOp, u64, u64) -> bool|
                    computes_arith(*float_arith, fa) && computes_compare(*float_compare, fc)
                        ==> #[trigger] guards_pass_below(*self, state.extra.vars@, t, fa, fc, k as int),
            decreases n - k,
        {
            let a = &self.arcs[k];
            if a.transition == t {
                match a.direction {
                    ArcDir::Input => {
                        let need = self.required_tokens(t, a.place);
                        if state.marking.tokens(a.place) < need {
                            assert(!arc_allows(*self, state.marking@, t, self.arcs@[k as int]));
                            assert(!structurally_enabled(*self, state.marking@, t));
                            return false;
                        }
                        match &a.kind {
                            CvnArcKind::Guard(g) => {
                                let gr = eval_guard(g, &state.extra.vars, float_arith, float_compare);
                                if gr == GuardResult::False {
                                    proof {
                                        assert forall|fa: spec_fn(Op, u64, u64) -> u64, fc: spec_fn(CmpOp, u64, u64) -> bool|
                                            computes_arith(*float_arith, fa) && computes_compare(*float_compare, fc)
                                            implies !#[trigger] enabled_under(*self, *state, t, fa, fc) by {
                                            assert(arc_guard_with(self.arcs@[k as int], t, state.extra.vars@, fa, fc)
                                                == GuardResult::False);
                                        }
                                        if arc_guard(self.arcs@[k as int], t, state.extra.vars@) is Some {
                                            assert(arc_guard(self.arcs@[k as int], t, state.extra.vars@) == Some(
                                                GuardResult::False,
                                            ));
                                        }
                                    }
                                    return false;
                                }
                                proof {
                                    assert forall|fa: spec_fn(Op, u64, u64) -> u64, fc: spec_fn(CmpOp, u64, u64) -> bool|
                                        computes_arith(*float_arith, fa) && computes_compare(*float_compare, fc)
                                        implies arc_guard_with(self.arcs@[k as int], t, state.extra.vars@, fa, fc)
                                        != GuardResult::False by {
                                        assert(gr == guard_value_with(*g, state.extra.vars@, fa, fc));
                                    }
                                }
                            },
                            _ => {},
                        }
                    },
                    ArcDir::Read => {
                        if state.marking.tokens(a.place) < a.weight {
                            assert(!arc_allows(*self, state.marking@, t, self.arcs@[k as int]));
                            return false;
                        }
                    },
                    ArcDir::Inhibitor => {
                        if state.marking.tokens(a.place) >= a.weight {
                            assert(!arc_allows(*self, state.marking@, t, self.arcs@[k as int]));
                            return false;
                        }
                    },
                    _ => {},
                }
            }
            proof {
                assert(arc_allows(*self, state.marking@, t, self.arcs@[k as int]));
                assert(arc_guard(self.arcs@[k as int], t, state.extra.vars@) != Some(GuardResult::False));
                assert forall|fa: spec_fn(Op, u64, u64) -> u64, fc: spec_fn(CmpOp, u64, u64) -> bool|
                    computes_arith(*float_arith, fa) && computes_compare(*float_compare, fc)
                    implies #[trigger] guards_pass_below(*self, state.extra.vars@, t, fa, fc, k + 1) by {
                    assert(guards_pass_below(*self, state.extra.vars@, t, fa, fc, k as int));
                    assert(arc_guard_with(self.arcs@[k as int], t, state.extra.vars@, fa, fc) != GuardResult::False);
                }
            }
            k = k + 1;
        }
        let mut k: usize = 0;
        while k < n
            invariant
                k <= n,
                n == self.arcs@.len(),
                forall|op: Op, a: u64, b: u64| float_arith.requires((op, a, b)),
                forall|j: int|
                    0 <= j < k ==> #[trigger] updates_in_domain(
                        self.arcs@[j],
                        t,
                        state.extra.vars@,
                        state.extra.domains@,
                    ),
            decreases n - k,
        {
            if !self.arc_updates_in_domain(state, t, k, float_arith) {
                return false;
            }
            k = k + 1;
        }
        true
    }

    /// The transitions enabled in `state`, by index: each one whose
    /// enabling `enabled_value` decides is there exactly when it is enabled,
    /// and none it decides against is; whenever the two closures compute spec
    /// functions `fa` and `fc`, it holds exactly the transitions that
    /// `enabled_under` calls enabled.
    pub fn enabled_with<F: Fn(Op, u64, u64) -> u64, C: Fn(CmpOp, u64, u64) -> bool>(
        &self,
        state: &CvnState,
        float_arith: &F,
        float_compare: &C,
    ) -> (r: Vec<TransitionId>)
        requires
            forall|op: Op, a: u64, b: u64| float_arith.requires((op, a, b)),
            forall|op: CmpOp, a: u64, b: u64| float_compare.requires((op, a, b)),
        ensures
            forall|i: int, j: int| 0 <= i < j < r@.len() ==> (#[trigger] r@[i]).0 < (#[trigger] r@[j]).0,
            forall|i: int| 0 <= i < r@.len() ==> (#[trigger] r@[i]).0 < self.transitions@.len(),
            forall|i: int| 0 <= i < r@.len() ==> enabled_value(*self, *state, #[trigger] r@[i]) != Some(false),
            forall|t: int|
                0 <= t < self.transitions@.len() && #[trigger] enabled_value(*self, *state, TransitionId(t as usize))
                    == Some(true) ==> r@.contains(TransitionId(t as usize)),
            forall|fa: spec_fn(Op, u64, u64) -> u64, fc: spec_fn(CmpOp, u64, u64) -> bool|
                computes_arith(*float_arith, fa) && computes_compare(*float_compare, fc)
                    ==> #[trigger] lists_enabled_below(*self, *state, r@, fa, fc, self.transitions@.len() as int),
    {
        let n = self.transitions.len();
        let mut r: Vec<TransitionId> = Vec::new();
        let mut t: usize = 0;
        while t < n
            invariant
                t <= n,
                n == self.transitions@.len(),
                forall|op: Op, a: u64, b: u64| float_arith.requires((op, a, b)),
                forall|op: CmpOp, a: u64, b: u64| float_compare.requires((op, a, b)),
                forall|i: int, j: int| 0 <= i < j < r@.len() ==> (#[trigger] r@[i]).0 < (#[trigger] r@[j]).0,
                forall|i: int| 0 <= i < r@.len() ==> (#[trigger] r@[i]).0 < t,
                forall|i: int| 0 <= i < r@.len() ==> enabled_value(*self, *state, #[trigger] r@[i]) != Some(false),
                forall|u: int|
                    0 <= u < t && #[trigger] enabled_value(*self, *state, TransitionId(u as usize)) == Some(true)
                        ==> r@.contains(TransitionId(u as usize)),
                forall|fa: spec_fn(Op, u64, u64) -> u64, fc: spec_fn(CmpOp, u64, u64) -> bool|
                    computes_arith(*float_arith, fa) && computes_compare(*float_compare, fc)
                        ==> #[trigger] lists_enabled_below(*self, *state, r@, fa, fc, t as int),
            decreases n - t,
        {
            let id = TransitionId(t);
            let ghost before = r@;
            let on = self.is_enabled_with(state, id, float_arith, float_compare);
            if on {
                r.push(id);
                proof {
                    assert(r@[before.len() as int] == id);
                    assert forall|u: int|
                        0 <= u < t + 1 && #[trigger] enabled_value(*self, *state, TransitionId(u as usize))
                            == Some(true) implies r@.contains(TransitionId(u as usize)) by {
                        if u < t {
                            let i = choose|i: int| 0 <= i < before.len() && before[i] == TransitionId(u as usize);
                            assert(r@[i] == before[i]);
                        }
                    }
                }
            }
            proof {
                assert forall|fa: spec_fn(Op, u64, u64) -> u64, fc: spec_fn(CmpOp, u64, u64) -> bool|
                    computes_arith(*float_arith, fa) && computes_compare(*float_compare, fc)
                    implies #[trigger] lists_enabled_below(*self, *state, r@, fa, fc, t + 1) by {
                    assert(lists_enabled_below(*self, *state, before, fa, fc, t as int));
                    assert(on == enabled_under(*self, *state, id, fa, fc));
                    assert forall|u: int| 0 <= u < t + 1 implies (r@.contains(TransitionId(u as usize))
                        <==> #[trigger] enabled_under(*self, *state, TransitionId(u as usize), fa, fc)) by {
                        if u < t {
                            assert(TransitionId(u as usize) != id);
                            if before.contains(TransitionId(u as usize)) {
                                let i = choose|i: int| 0 <= i < before.len() && before[i] == TransitionId(u as usize);
                                assert(r@[i] == before[i]);
                            }
                            if r@.contains(TransitionId(u as usize)) {
                                let i = choose|i: int| 0 <= i < r@.len() && r@[i] == TransitionId(u as usize);
                                if i < before.len() {
                                    assert(before[i] == r@[i]);
                                }
                            }
                        } else {
                            if on {
                                assert(r@[before.len() as int] == id);
                            } else {
                                if r@.contains(id) {
                                    let i = choose|i: int| 0 <= i < r@.len() && r@[i] == id;
                                    assert(before[i].0 < t);
                                }
                            }
                        }
                    }
                }
            }
            t = t + 1;
        }
        r
    }

    /// Fires `t` in `state`: none when it is not enabled, when a place
    /// holds too few tokens, or when a count would not fit or would exceed
    /// the capacity of its place. The new marking is the one
    /// `fire_marking` gives; the domains stay; the store is the one
    /// `fire_vars` gives, wherever it gives one. Whenever the two closures
    /// compute spec functions `fa` and `fc`, the result is the one
    /// `fires_under` describes.
    pub fn fire_with<F: Fn(Op, u64, u64) -> u64, C: Fn(CmpOp, u64, u64) -> bool>(
        &self,
        state: &CvnState,
        t: TransitionId,
        float_arith: &F,
        float_compare: &C,
    ) -> (r: Option<CvnState>)
        requires
            places_covered(*self, state.marking@),
            forall|op: Op, a: u64, b: u64| float_arith.requires((op, a, b)),
            forall|op: CmpOp, a: u64, b: u64| float_compare.requires((op, a, b)),
        ensures
            enabled_value(*self, *state, t) == Some(false) ==> r is None,
            fire_marking(*self, state.marking@, t) is None ==> r is None,
            enabled_value(*self, *state, t) == Some(true) && fire_marking(*self, state.marking@, t) is Some ==> r is Some,
            r matches Some(next) ==> {
                &&& next.marking@ == fire_marking(*self, state.marking@, t)->Some_0
                &&& next.extra.domains@ == state.extra.domains@
                &&& fire_vars(*self, state.extra.vars@, t) matches Some(v) ==> next.extra.vars@ == v
            },
            forall|fa: spec_fn(Op, u64, u64) -> u64, fc: spec_fn(CmpOp, u64, u64) -> bool|
                computes_arith(*float_arith, fa) && computes_compare(*float_compare, fc) ==> #[trigger] fires_under(
                    *self,
                    *state,
                    t,
                    fa,
                    fc,
                    r,
                ),
    {
        if !self.is_enabled_with(state, t, float_arith, float_compare) {
            return None;
        }
        let mut next = state.clone();
        let n = self.arcs.len();
        let ghost m0 = state.marking@;
        let mut k: usize = 0;
        while k < n
            invariant
                k <= n,
                n == self.arcs@.len(),
                places_covered(*self, m0),
                m0 == state.marking@,
                next.marking@.len() == m0.len(),
                consumed(self.arcs@, t, m0, k as nat) == Some(next.marking@),
                next.extra.domains@ == state.extra.domains@,
                forall|fa: spec_fn(Op, u64, u64) -> u64, fc: spec_fn(CmpOp, u64, u64) -> bool|
                    computes_arith(*float_arith, fa) && computes_compare(*float_compare, fc) ==> #[trigger] enabled_under(
                        *self,
                        *state,
                        t,
                        fa,
                        fc,
                    ),
                next.extra.vars@ == state.extra.vars@,
            decreases n - k,
        {
            let a = &self.arcs[k];
            if a.transition == t && a.direction == ArcDir::Input {
                let p = a.place.0;
                let cur = next.marking.0[p];
                if cur < a.weight {
                    proof {
                        assert(consumed(self.arcs@, t, m0, (k + 1) as nat) is None);
                        lemma_consumed_stays_none(self.arcs@, t, m0, (k + 1) as nat, n as nat);
                    }
                    return None;
                }
                next.marking.0.set(p, cur - a.weight);
            }
            k = k + 1;
        }
        let ghost m1 = next.marking@;
        let mut k: usize = 0;
        while k < n
            invariant
                k <= n,
                n == self.arcs@.len(),
                places_covered(*self, m0),
                m0 == state.marking@,
                next.marking@.len() == m0.len(),
                consumed(self.arcs@, t, m0, n as nat) == Some(m1),
                produced(*self, t, m1, k as nat) == Some(next.marking@),
                next.extra.domains@ == state.extra.domains@,
                forall|fa: spec_fn(Op, u64, u64) -> u64, fc: spec_fn(CmpOp, u64, u64) -> bool|
                    computes_arith(*float_arith, fa) && computes_compare(*float_compare, fc) ==> #[trigger] enabled_under(
                        *self,
                        *state,
                        t,
                        fa,
                        fc,
                    ),
                next.extra.vars@ == state.extra.vars@,
            decreases n - k,
        {
            let a = &self.arcs[k];
            if a.transition == t && a.direction == ArcDir::Output {
                let p = a.place.0;
                let cur = next.marking.0[p];
                if cur > usize::MAX - a.weight {
                    proof {
                        lemma_produced_stays_none(*self, t, m1, (k + 1) as nat, n as nat);
                    }
                    return None;
                }
                let v = cur + a.weight;
                match self.capacity_of(a.place) {
                    Some(c) => {
                        if v > c {
                            proof {
                                lemma_produced_stays_none(*self, t, m1, (k + 1) as nat, n as nat);
                            }
                            return None;
                        }
                    },
                    None => {},
                }
                next.marking.0.set(p, v);
            }
            k = k + 1;
        }
        let ghost m2 = next.marking@;
        let ghost pre = state.extra.vars@;
        let mut k: usize = 0;
        while k < n
            invariant
                k <= n,
                n == self.arcs@.len(),
                forall|op: Op, a: u64, b: u64| float_arith.requires((op, a, b)),
                next.marking@ == m2,
                m2.len() == m0.len(),
                next.extra.domains@ == state.extra.domains@,
                forall|fa: spec_fn(Op, u64, u64) -> u64, fc: spec_fn(CmpOp, u64, u64) -> bool|
                    computes_arith(*float_arith, fa) && computes_compare(*float_compare, fc) ==> #[trigger] enabled_under(
                        *self,
                        *state,
                        t,
                        fa,
                        fc,
                    ),
                pre == state.extra.vars@,
                updated(self.arcs@, t, pre, k as nat) matches Some(c) ==> next.extra.vars@ == c,
                forall|fa: spec_fn(Op, u64, u64) -> u64|
                    computes_arith(*float_arith, fa) ==> next.extra.vars@ == #[trigger] updated_with(
                        self.arcs@,
                        t,
                        pre,
                        k as nat,
                        fa,
                    ),
            decreases n - k,
        {
            let a = &self.arcs[k];
            if a.transition == t && a.direction == ArcDir::Output {
                match &a.kind {
                    CvnArcKind::Update(u) => {
                        let ghost c0 = updated(self.arcs@, t, pre, k as nat);
                        let m = u.len();
                        let mut j: usize = 0;
                        while j < m
                            invariant
                                j <= m,
                                m == u@.len(),
                                forall|op: Op, x: u64, y: u64| float_arith.requires((op, x, y)),
                                next.marking@ == m2,
                                next.extra.domains@ == state.extra.domains@,
                        forall|fa: spec_fn(Op, u64, u64) -> u64, fc: spec_fn(CmpOp, u64, u64) -> bool|
                            computes_arith(*float_arith, fa) && computes_compare(*float_compare, fc) ==> #[trigger] enabled_under(
                                *self,
                                *state,
                                t,
                                fa,
                                fc,
                            ),
                forall|fa: spec_fn(Op, u64, u64) -> u64, fc: spec_fn(CmpOp, u64, u64) -> bool|
                    computes_arith(*float_arith, fa) && computes_compare(*float_compare, fc) ==> #[trigger] enabled_under(
                        *self,
                        *state,
                        t,
                        fa,
                        fc,
                    ),
                                pre == state.extra.vars@,
                                c0 matches Some(c) ==> (apply_updates(pre, c, u@, j as nat) matches Some(c2)
                                    ==> next.extra.vars@ == c2),
                                forall|fa: spec_fn(Op, u64, u64) -> u64|
                                    computes_arith(*float_arith, fa) ==> next.extra.vars@ == #[trigger] apply_updates_with(
                                        pre,
                                        updated_with(self.arcs@, t, pre, k as nat, fa),
                                        u@,
                                        j as nat,
                                        fa,
                                    ),
                            decreases m - j,
                        {
                            let (name, e) = &u[j];
                            let value = eval_expr(e, &state.extra.vars, float_arith);
                            let ghost before = next.extra.vars@;
                            let ghost j0 = j;
                            next.extra.vars.insert(name.clone(), value);
                            j = j + 1;
                            proof {
                                assert forall|fa: spec_fn(Op, u64, u64) -> u64| computes_arith(*float_arith, fa) implies next.extra.vars@
                                    == #[trigger] apply_updates_with(
                                    pre,
                                    updated_with(self.arcs@, t, pre, k as nat, fa),
                                    u@,
                                    j as nat,
                                    fa,
                                ) by {
                                    assert(value == expr_value_with(*e, pre, fa));
                                    assert(before == apply_updates_with(
                                        pre,
                                        updated_with(self.arcs@, t, pre, k as nat, fa),
                                        u@,
                                        j0 as nat,
                                        fa,
                                    ));
                                }
                            }
                        }
                        proof {
                            assert(self.arcs@[k as int].kind == CvnArcKind::Update(*u));
                        }
                    },
                    _ => {},
                }
            }
            proof {
                assert forall|fa: spec_fn(Op, u64, u64) -> u64| computes_arith(*float_arith, fa) implies next.extra.vars@
                    == #[trigger] updated_with(self.arcs@, t, pre, (k + 1) as nat, fa) by {
                    let a = self.arcs@[k as int];
                    if arc_of(a, t, ArcDir::Output) {
                        match a.kind {
                            CvnArcKind::Update(u) => {
                                assert(next.extra.vars@ == apply_updates_with(
                                    pre,
                                    updated_with(self.arcs@, t, pre, k as nat, fa),
                                    u@,
                                    u@.len(),
                                    fa,
                                ));
                            },
                            _ => {
                                assert(next.extra.vars@ == updated_with(self.arcs@, t, pre, k as nat, fa));
                            },
                        }
                    } else {
                        assert(next.extra.vars@ == updated_with(self.arcs@, t, pre, k as nat, fa));
                    }
                }
            }
            k = k + 1;
        }
        let ghost v1 = next.extra.vars@;
        let mut k: usize = 0;
        while k < n
            invariant
                k <= n,
                n == self.arcs@.len(),
                next.marking@ == m2,
                m2.len() == m0.len(),
                next.extra.domains@ == state.extra.domains@,
                forall|fa: spec_fn(Op, u64, u64) -> u64, fc: spec_fn(CmpOp, u64, u64) -> bool|
                    computes_arith(*float_arith, fa) && computes_compare(*float_compare, fc) ==> #[trigger] enabled_under(
                        *self,
                        *state,
                        t,
                        fa,
                        fc,
                    ),
                updated(self.arcs@, t, pre, n as nat) matches Some(c) ==> v1 == c,
                forall|fa: spec_fn(Op, u64, u64) -> u64|
                    computes_arith(*float_arith, fa) ==> v1 == #[trigger] updated_with(self.arcs@, t, pre, n as nat, fa),
                pre == state.extra.vars@,
                next.extra.vars@ == dropped(self.arcs@, t, v1, k as nat),
            decreases n - k,
        {
            let a = &self.arcs[k];
            if a.transition == t && a.direction == ArcDir::Output {
                match &a.kind {
                    CvnArcKind::DropVars(names) => {
                        let ghost d0 = next.extra.vars@;
                        let m = names.len();
                        let mut j: usize = 0;
                        while j < m
                            invariant
                                j <= m,
                                m == names@.len(),
                                next.marking@ == m2,
                                next.extra.domains@ == state.extra.domains@,
                        forall|fa: spec_fn(Op, u64, u64) -> u64, fc: spec_fn(CmpOp, u64, u64) -> bool|
                            computes_arith(*float_arith, fa) && computes_compare(*float_compare, fc) ==> #[trigger] enabled_under(
                                *self,
                                *state,
                                t,
                                fa,
                                fc,
                            ),
                forall|fa: spec_fn(Op, u64, u64) -> u64, fc: spec_fn(CmpOp, u64, u64) -> bool|
                    computes_arith(*float_arith, fa) && computes_compare(*float_compare, fc) ==> #[trigger] enabled_under(
                        *self,
                        *state,
                        t,
                        fa,
                        fc,
                    ),
                                next.extra.vars@ == drop_names(d0, names@, j as nat),
                            decreases m - j,
                        {
                            next.extra.vars.remove(&names[j]);
                            j = j + 1;
                        }
                        proof {
                            assert(self.arcs@[k as int].kind == CvnArcKind::DropVars(*names));
                        }
                    },
                    _ => {},
                }
            }
            k = k + 1;
        }
        let mut k: usize = 0;
        while k < n
            invariant
                k <= n,
                n == self.arcs@.len(),
                places_covered(*self, m0),
                m2.len() == m0.len(),
                next.marking@.len() == m0.len(),
                next.marking@ == reset(self.arcs@, t, m2, k as nat),
                next.extra.domains@ == state.extra.domains@,
                forall|fa: spec_fn(Op, u64, u64) -> u64, fc: spec_fn(CmpOp, u64, u64) -> bool|
                    computes_arith(*float_arith, fa) && computes_compare(*float_compare, fc) ==> #[trigger] enabled_under(
                        *self,
                        *state,
                        t,
                        fa,
                        fc,
                    ),
                updated(self.arcs@, t, pre, n as nat) matches Some(c) ==> next.extra.vars@ == dropped(
                    self.arcs@,
                    t,
                    c,
                    n as nat,
                ),
                pre == state.extra.vars@,
                forall|fa: spec_fn(Op, u64, u64) -> u64|
                    computes_arith(*float_arith, fa) ==> next.extra.vars@ == #[trigger] fire_vars_with(*self, pre, t, fa),
            decreases n - k,
        {
            let a = &self.arcs[k];
            if a.transition == t && a.direction == ArcDir::Reset {
                next.marking.0.set(a.place.0, 0);
            }
            k = k + 1;
        }
        Some(next)
    }
}

/// Once the inputs fail, they fail whatever arcs follow.
proof fn lemma_consumed_stays_none(arcs: Seq<Arc>, t: TransitionId, m: Seq<usize>, k: nat, n: nat)
    requires
        k <= n,
        consumed(arcs, t, m, k) is None,
    ensures
        consumed(arcs, t, m, n) is None,
    decreases n - k,
{
    if k < n {
        lemma_consumed_stays_none(arcs, t, m, k + 1, n);
    }
}

/// Once the outputs fail, they fail whatever arcs follow.
proof fn lemma_produced_stays_none(net: CvnNet, t: TransitionId, m: Seq<usize>, k: nat, n: nat)
    requires
        k <= n,
        produced(net, t, m, k) is None,
    ensures
        produced(net, t, m, n) is None,
    decreases n - k,
{
    if k < n {
        lemma_produced_stays_none(net, t, m, k + 1, n);
    }
}

} // verus!
