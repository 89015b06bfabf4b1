//! Boundness of P/T nets via the Karp–Miller coverability tree: a marking
//! that strictly covers one of its ancestors marks the places that grew as
//! unbounded (ω).
use std::collections::VecDeque;
use vstd::prelude::*;

use crate::ids::{PlaceId, TransitionId};
use crate::pt::{Marking, PtExecutionError, PtNet};
use crate::analysis::pt::state_dot::comma_joined;
use crate::text::{decimal, push_char, push_decimal, push_str, string_of};

verus! {

/// The outcome of a boundness check.
#[derive(Clone, Debug, PartialEq, Eq)]
pub enum BoundnessResult {
    /// The net is bounded.
    Bounded,
    /// The net is unbounded: the places that became ω, and the firing
    /// sequence that led there.
    Unbounded { unbounded_places: Vec<PlaceId>, witness_sequence: Option<Vec<TransitionId>> },
    /// The state limit was exceeded before the question was settled.
    Unknown { reason: String },
}

/// A coverability-tree node: a marking in which `None` stands for ω, and the
/// link to the node it was reached from.
struct Node {
    marking: Vec<Option<usize>>,
    parent: Option<usize>,
    transition_from_parent: Option<TransitionId>,
}

/// A boundness analyzer with an optional limit on the nodes it expands.
#[derive(Clone, Copy, Debug)]
pub struct BoundnessAnalyzer {
    state_limit: Option<usize>,
}

/// The marking `m` with every count finite.
pub open spec fn somes(m: Seq<usize>) -> Seq<Option<usize>> {
    Seq::new(m.len(), |p: int| Some(m[p]))
}

/// Whether no count of `m` is ω.
pub open spec fn finite(m: Seq<Option<usize>>) -> bool {
    forall|p: int| 0 <= p < m.len() ==> (#[trigger] m[p]) is Some
}

/// The finite counts of `m`, with 0 in place of ω.
pub open spec fn strip(m: Seq<Option<usize>>) -> Seq<usize> {
    Seq::new(
        m.len(),
        |p: int|
            match m[p] {
                Some(x) => x,
                None => 0,
            },
    )
}

/// Whether `b` has at least the tokens of `a` on every place.
pub open spec fn covers(a: Seq<usize>, b: Seq<usize>) -> bool {
    &&& a.len() == b.len()
    &&& forall|p: int| 0 <= p < a.len() ==> a[p] <= b[p]
}

/// `b` with ω on every place where it holds more tokens than `a`.
pub open spec fn accelerate(a: Seq<usize>, b: Seq<usize>) -> Seq<Option<usize>> {
    Seq::new(
        b.len(),
        |p: int|
            if a[p] < b[p] {
                None
            } else {
                Some(b[p])
            },
    )
}

/// The places among the first `n` where `b` holds more tokens than `a`, in
/// increasing order.
pub open spec fn increased(a: Seq<usize>, b: Seq<usize>, n: nat) -> Seq<PlaceId>
    decreases n,
{
    if n == 0 {
        Seq::empty()
    } else {
        let prev = increased(a, b, (n - 1) as nat);
        if a[n - 1] < b[n - 1] {
            prev.push(PlaceId((n - 1) as usize))
        } else {
            prev
        }
    }
}

/// Whether firing `w` from `m0` passes through a marking that the final
/// marking covers, strictly on exactly the places `places`: the suffix of
/// `w` after that point can be fired again and again, and grows those places.
pub open spec fn pumping_witness(net: PtNet, m0: Seq<usize>, w: Seq<TransitionId>, places: Seq<PlaceId>) -> bool {
    exists|j: int|
        0 <= j < w.len() && net.run(m0, w.take(j)) is Some && net.run(m0, w) is Some && {
            let mj = net.run(m0, w.take(j))->0;
            let mk = net.run(m0, w)->0;
            &&& covers(mj, mk)
            &&& places == increased(mj, mk, mk.len())
            &&& places.len() > 0
        }
}

/// Whether `s` holds `m0` and every marking that a successful firing reaches
/// from a marking of `s`.
pub open spec fn closed_cover(net: PtNet, m0: Seq<usize>, s: Seq<Seq<usize>>) -> bool {
    &&& s.contains(m0)
    &&& forall|i: int, t: usize|
        #![trigger s[i], net.fire_result(s[i], t)]
        0 <= i < s.len() ==> match net.fire_result(s[i], t) {
            Ok(m2) => s.contains(m2),
            Err(_) => true,
        }
}

/// Whether `s` holds distinct markings, each reached from `m0` by some
/// firing sequence.
pub open spec fn distinct_reachable(net: PtNet, m0: Seq<usize>, s: Seq<Seq<usize>>) -> bool {
    &&& forall|a: int, b: int| 0 <= a < b < s.len() ==> s[a] != s[b]
    &&& forall|i: int| 0 <= i < s.len() ==> exists|w: Seq<TransitionId>| net.run(m0, w) == Some(#[trigger] s[i])
}

/// The reason given when the node limit is exceeded.
pub open spec fn limit_reason(limit: nat) -> Seq<char> {
    "Exceeded state limit "@ + decimal(limit)
}

impl BoundnessAnalyzer {
    /// The limit on the nodes expanded; `None` for no limit.
    pub closed spec fn limit(&self) -> Option<usize> {
        self.state_limit
    }

    /// The analyzer with the default limit of 10 000 nodes.
    pub fn new() -> (r: Self)
        ensures
            r.limit() == Some(10_000usize),
    {
        BoundnessAnalyzer { state_limit: Some(10_000) }
    }

    /// The analyzer with the node limit `limit`.
    pub fn with_state_limit(self, limit: Option<usize>) -> (r: Self)
        ensures
            r.limit() == limit,
    {
        let mut r = self;
        r.state_limit = limit;
        r
    }
}

impl Default for BoundnessAnalyzer {
    fn default() -> (r: Self)
        ensures
            r.limit() == Some(10_000usize),
    {
        BoundnessAnalyzer::new()
    }
}

/// The places among the first `n` whose count in `m` is ω, in increasing
/// order.
pub open spec fn omega_places(m: Seq<Option<usize>>, n: nat) -> Seq<PlaceId>
    decreases n,
{
    if n == 0 {
        Seq::empty()
    } else {
        let prev = omega_places(m, (n - 1) as nat);
        if m[n - 1] is None {
            prev.push(PlaceId((n - 1) as usize))
        } else {
            prev
        }
    }
}

/// The places that grew from `a` to `b` are among the ω places of `m`
/// when `m` has ω wherever `a` is lower than `b`.
proof fn lemma_increased_in_omega(a: Seq<usize>, b: Seq<usize>, m: Seq<Option<usize>>, n: nat)
    requires
        n <= b.len(),
        a.len() == b.len(),
        m.len() == b.len(),
        forall|p: int| 0 <= p < m.len() && a[p] < b[p] ==> #[trigger] m[p] is None,
    ensures
        forall|k: int| 0 <= k < increased(a, b, n).len() ==> omega_places(m, n).contains(#[trigger] increased(a, b, n)[k]),
    decreases n,
{
    if n > 0 {
        lemma_increased_in_omega(a, b, m, (n - 1) as nat);
        let prev = increased(a, b, (n - 1) as nat);
        let om = omega_places(m, (n - 1) as nat);
        assert forall|k: int| 0 <= k < increased(a, b, n).len() implies omega_places(m, n).contains(
            #[trigger] increased(a, b, n)[k],
        ) by {
            if k < prev.len() {
                assert(increased(a, b, n)[k] == prev[k]);
                assert(om.contains(prev[k]));
                let i = choose|i: int| 0 <= i < om.len() && om[i] == prev[k];
                assert(omega_places(m, n)[i] == om[i]);
            } else {
                assert(a[n - 1] < b[n - 1]);
                assert(m[n - 1] is None);
                assert(omega_places(m, n).last() == PlaceId((n - 1) as usize));
            }
        }
    }
}

/// A marking with an ω place has a nonempty list of ω places.
proof fn lemma_omega_places_nonempty(m: Seq<Option<usize>>, n: nat, p: int)
    requires
        0 <= p < n <= m.len(),
        m[p] is None,
    ensures
        omega_places(m, n).len() > 0,
    decreases n,
{
    if p < n - 1 {
        lemma_omega_places_nonempty(m, (n - 1) as nat, p);
    }
}

proof fn lemma_omega_places_accelerate(a: Seq<usize>, b: Seq<usize>, n: nat)
    requires
        n <= b.len(),
        a.len() == b.len(),
    ensures
        omega_places(accelerate(a, b), n) == increased(a, b, n),
    decreases n,
{
    if n > 0 {
        lemma_omega_places_accelerate(a, b, (n - 1) as nat);
    }
}

proof fn lemma_increased_nonempty(a: Seq<usize>, b: Seq<usize>, n: nat, p: int)
    requires
        0 <= p < n <= b.len(),
        a.len() == b.len(),
        a[p] < b[p],
    ensures
        increased(a, b, n).len() > 0,
    decreases n,
{
    if p < n - 1 {
        lemma_increased_nonempty(a, b, (n - 1) as nat, p);
    }
}

/// The transitions fired on the way from the root to node `i`.
spec fn path_of(nodes: Seq<Node>, i: int) -> Seq<TransitionId>
    decreases i,
{
    if 0 < i < nodes.len() {
        match nodes[i].parent {
            Some(q) => if (q as int) < i {
                path_of(nodes, q as int).push(
                    match nodes[i].transition_from_parent {
                        Some(t) => t,
                        None => TransitionId(0),
                    },
                )
            } else {
                Seq::empty()
            },
            None => Seq::empty(),
        }
    } else {
        Seq::empty()
    }
}

/// Whether `m` is the marking reached along `w` with ω on some places, and
/// some marking passed along `w` is covered by it and strictly below it:
/// every place that grew since then is ω, every finite count is the one
/// reached, and at least one place grew.
pub open spec fn omega_ok(net: PtNet, m0: Seq<usize>, w: Seq<TransitionId>, m: Seq<Option<usize>>) -> bool {
    exists|j: int|
        0 <= j < w.len() && net.run(m0, w.take(j)) is Some && net.run(m0, w) is Some && #[trigger] grown_from(
            net.run(m0, w.take(j))->0,
            net.run(m0, w)->0,
            m,
        )
}

/// Whether `m` is `mk` with ω on at least the places where `mj`, which `mk`
/// covers, is strictly lower, and on at least one.
pub open spec fn grown_from(mj: Seq<usize>, mk: Seq<usize>, m: Seq<Option<usize>>) -> bool {
    &&& covers(mj, mk)
    &&& m.len() == mk.len()
    &&& forall|p: int| 0 <= p < m.len() && mj[p] < mk[p] ==> #[trigger] m[p] is None
    &&& forall|p: int| 0 <= p < m.len() && (#[trigger] m[p]) is Some ==> m[p] == Some(mk[p])
    &&& exists|p: int| 0 <= p < m.len() && mj[p] < mk[p]
}

/// Node `i` of the tree: the root carries `m0`; every other node hangs
/// below a finite node; a finite node carries the marking its path reaches,
/// an ω-node an acceleration along its path.
spec fn node_ok(net: PtNet, m0: Seq<usize>, nodes: Seq<Node>, i: int) -> bool {
    let n = nodes[i];
    &&& n.marking@.len() == m0.len()
    &&& (i == 0 ==> n.parent is None && n.marking@ == somes(m0))
    &&& (i > 0 ==> n.parent is Some && n.parent->0 < i && n.transition_from_parent is Some
        && finite(nodes[n.parent->0 as int].marking@))
    &&& (finite(n.marking@) ==> net.run(m0, path_of(nodes, i)) == Some(strip(n.marking@)))
    &&& (!finite(n.marking@) ==> omega_ok(net, m0, path_of(nodes, i), n.marking@))
}

proof fn lemma_run_len(net: PtNet, m0: Seq<usize>, w: Seq<TransitionId>)
    requires
        net.run(m0, w) is Some,
    ensures
        (net.run(m0, w)->0).len() == m0.len(),
    decreases w.len(),
{
    if w.len() > 0 {
        lemma_run_len(net, m0, w.drop_last());
    }
}

proof fn lemma_path_of_grows(nodes: Seq<Node>, nodes2: Seq<Node>, i: int)
    requires
        0 <= i < nodes.len() <= nodes2.len(),
        forall|k: int| 0 <= k < nodes.len() ==> nodes2[k] == nodes[k],
    ensures
        path_of(nodes2, i) == path_of(nodes, i),
    decreases i,
{
    if 0 < i {
        match nodes[i].parent {
            Some(q) => if (q as int) < i {
                lemma_path_of_grows(nodes, nodes2, q as int);
            },
            None => {},
        }
    }
}

/// Componentwise `≤` over the common length, with ω as +∞: every count is
/// below ω, and ω is below nothing finite.
spec fn le_opt(x: Option<usize>, y: Option<usize>) -> bool {
    match (x, y) {
        (Some(a), Some(b)) => a <= b,
        (None, Some(_)) => false,
        (None, None) => true,
        (Some(_), None) => true,
    }
}

spec fn is_le_spec(a: Seq<Option<usize>>, b: Seq<Option<usize>>) -> bool {
    forall|p: int| 0 <= p < a.len() && p < b.len() ==> le_opt(#[trigger] a[p], b[p])
}

/// Componentwise `≤` with ω treated as +∞ over the common length: every
/// count is below ω, and ω is never below a finite count.
fn is_le(a: &Vec<Option<usize>>, b: &Vec<Option<usize>>) -> (r: bool)
    ensures
        r == is_le_spec(a@, b@),
{
    let n = if a.len() < b.len() {
        a.len()
    } else {
        b.len()
    };
    for p in 0..n
        invariant
            n <= a@.len(),
            n <= b@.len(),
            n == a@.len() || n == b@.len(),
            forall|q: int| 0 <= q < p ==> le_opt(#[trigger] a@[q], b@[q]),
    {
        let ok = match (a[p], b[p]) {
            (Some(x), Some(y)) => x <= y,
            (None, Some(_)) => false,
            (None, None) => true,
            (Some(_), None) => true,
        };
        if !ok {
            return false;
        }
    }
    true
}

/// Whether two ω-markings are equal.
fn same_marking(a: &Vec<Option<usize>>, b: &Vec<Option<usize>>) -> (r: bool)
    ensures
        r == (a@ == b@),
{
    if a.len() != b.len() {
        return false;
    }
    for p in 0..a.len()
        invariant
            a@.len() == b@.len(),
            forall|q: int| 0 <= q < p ==> a@[q] == b@[q],
    {
        let eq = match (a[p], b[p]) {
            (Some(x), Some(y)) => x == y,
            (None, None) => true,
            _ => false,
        };
        if !eq {
            return false;
        }
    }
    assert(a@ =~= b@);
    true
}

/// The places whose count in `m` is ω.
fn omega_places_of(m: &Vec<Option<usize>>) -> (r: Vec<PlaceId>)
    ensures
        r@ == omega_places(m@, m@.len()),
{
    let mut r: Vec<PlaceId> = Vec::new();
    for p in 0..m.len()
        invariant
            r@ == omega_places(m@, p as nat),
    {
        if m[p].is_none() {
            r.push(PlaceId(p));
        }
    }
    r
}

/// The transitions on the path from the root to node `i`.
fn path_to_node(nodes: &Vec<Node>, i: usize, Ghost(net): Ghost<PtNet>, Ghost(m0): Ghost<Seq<usize>>) -> (r: Vec<TransitionId>)
    requires
        i < nodes@.len(),
        forall|k: int| 0 <= k < nodes@.len() ==> node_ok(net, m0, nodes@, k),
    ensures
        r@ == path_of(nodes@, i as int),
{
    let mut back: Vec<TransitionId> = Vec::new();
    let mut current = i;
    while current > 0
        invariant
            current < nodes@.len(),
            forall|k: int| 0 <= k < nodes@.len() ==> node_ok(net, m0, nodes@, k),
            path_of(nodes@, i as int) == path_of(nodes@, current as int) + back@.reverse(),
        decreases current,
    {
        assert(node_ok(net, m0, nodes@, current as int));
        let q = match nodes[current].parent {
            Some(q) => q,
            None => 0,
        };
        let t = match nodes[current].transition_from_parent {
            Some(t) => t,
            None => TransitionId(0),
        };
        proof {
            assert(path_of(nodes@, current as int) == path_of(nodes@, q as int).push(t));
            assert(back@.push(t).reverse() == seq![t] + back@.reverse());
            assert(path_of(nodes@, q as int).push(t) + back@.reverse() == path_of(nodes@, q as int) + (seq![t] + back@.reverse()));
        }
        back.push(t);
        current = q;
    }
    let mut r: Vec<TransitionId> = Vec::new();
    let n = back.len();
    for k in 0..n
        invariant
            n == back@.len(),
            r@ == back@.reverse().take(k as int),
    {
        r.push(back[n - 1 - k]);
        assert(back@.reverse().take(k + 1) == back@.reverse().take(k as int).push(back@[n - 1 - k]));
    }
    assert(back@.reverse().take(n as int) == back@.reverse());
    assert(path_of(nodes@, 0) == Seq::<TransitionId>::empty());
    r
}

/// Whether a successful firing of `t` from node `i` reaches a marking that
/// some node carries, or some node already carries an ω.
spec fn succ_handled(net: PtNet, nodes: Seq<Node>, i: int, t: usize) -> bool {
    net.fire_result(strip(nodes[i].marking@), t) is Ok ==> (exists|j: int|
        0 <= j < nodes.len() && nodes[j].marking@ == somes(
            net.fire_result(strip(nodes[i].marking@), t)->Ok_0,
        )) || (exists|j: int| 0 <= j < nodes.len() && !finite(nodes[j].marking@))
}

/// Whether every successful firing from node `i` is accounted for.
spec fn expanded(net: PtNet, nodes: Seq<Node>, i: int) -> bool {
    forall|t: usize| #[trigger] succ_handled(net, nodes, i, t)
}

proof fn lemma_succ_handled_grows(net: PtNet, nodes: Seq<Node>, nodes2: Seq<Node>, i: int, t: usize)
    requires
        0 <= i < nodes.len() <= nodes2.len(),
        forall|k: int| 0 <= k < nodes.len() ==> nodes2[k] == nodes[k],
        succ_handled(net, nodes, i, t),
    ensures
        succ_handled(net, nodes2, i, t),
{
    assert(nodes2[i] == nodes[i]);
    if net.fire_result(strip(nodes[i].marking@), t) is Ok {
        let m2 = net.fire_result(strip(nodes[i].marking@), t)->Ok_0;
        if exists|j: int| 0 <= j < nodes.len() && nodes[j].marking@ == somes(m2) {
            let j = choose|j: int| 0 <= j < nodes.len() && nodes[j].marking@ == somes(m2);
            assert(nodes2[j] == nodes[j]);
        } else {
            let j = choose|j: int| 0 <= j < nodes.len() && !finite(nodes[j].marking@);
            assert(nodes2[j] == nodes[j]);
        }
    }
}

/// `next` with ω on every place where it holds more tokens than the
/// marking `m`, when `m` is below `next`; `next` itself otherwise.
spec fn accel_step(m: Seq<Option<usize>>, next: Seq<Option<usize>>) -> Seq<Option<usize>> {
    if is_le_spec(m, next) {
        Seq::new(
            next.len(),
            |p: int|
                match (m[p], next[p]) {
                    (Some(x), Some(y)) => if x < y {
                        None
                    } else {
                        next[p]
                    },
                    _ => next[p],
                },
        )
    } else {
        next
    }
}

/// `next` after the acceleration step against node `a` and then against
/// each of its ancestors in turn, up to the root.
spec fn accelerated_from(nodes: Seq<Node>, a: int, next: Seq<Option<usize>>) -> Seq<Option<usize>>
    decreases a,
{
    if a < 0 || a >= nodes.len() {
        next
    } else {
        let n2 = accel_step(nodes[a].marking@, next);
        match nodes[a].parent {
            Some(q) => if (q as int) < a {
                accelerated_from(nodes, q as int, n2)
            } else {
                n2
            },
            None => n2,
        }
    }
}

/// Accelerates `next` against node `q` and each of its ancestors in turn,
/// up to the root: against each one that `next` covers, every place that
/// grew becomes ω.
fn accelerate_along(
    nodes: &Vec<Node>,
    q: usize,
    next: &mut Vec<Option<usize>>,
    Ghost(net): Ghost<PtNet>,
    Ghost(m0): Ghost<Seq<usize>>,
    Ghost(t): Ghost<TransitionId>,
    Ghost(mk): Ghost<Seq<usize>>,
)
    requires
        q < nodes@.len(),
        forall|k: int| 0 <= k < nodes@.len() ==> node_ok(net, m0, nodes@, k),
        finite(nodes@[q as int].marking@),
        old(next)@ == somes(mk),
        net.run(m0, path_of(nodes@, q as int).push(t)) == Some(mk),
    ensures
        final(next)@ == accelerated_from(nodes@, q as int, old(next)@),
        final(next)@.len() == mk.len(),
        final(next)@ == somes(mk) || (!finite(final(next)@) && omega_ok(
            net,
            m0,
            path_of(nodes@, q as int).push(t),
            final(next)@,
        )),
{
    let ghost pq = path_of(nodes@, q as int);
    let ghost w = pq.push(t);
    proof {
        lemma_run_len(net, m0, w);
    }
    let mut current: Option<usize> = Some(q);
    let ghost goal = accelerated_from(nodes@, q as int, next@);
    while current.is_some()
        invariant
            goal == match current {
                Some(a) => accelerated_from(nodes@, a as int, next@),
                None => next@,
            },
            forall|k: int| 0 <= k < nodes@.len() ==> node_ok(net, m0, nodes@, k),
            pq == path_of(nodes@, q as int),
            w == pq.push(t),
            net.run(m0, w) == Some(mk),
            mk.len() == m0.len(),
            current matches Some(a) ==> a < nodes@.len() && finite(nodes@[a as int].marking@)
                && path_of(nodes@, a as int).len() <= pq.len() && pq.take(
                path_of(nodes@, a as int).len() as int,
            ) == path_of(nodes@, a as int),
            next@.len() == mk.len(),
            next@ == somes(mk) || (!finite(next@) && omega_ok(net, m0, w, next@)),
        decreases
            match current {
                Some(a) => a + 1,
                None => 0,
            },
    {
        let a = match current {
            Some(a) => a,
            None => 0,
        };
        assert(node_ok(net, m0, nodes@, a as int));
        let ghost pa = path_of(nodes@, a as int);
        let ghost ma = strip(nodes@[a as int].marking@);
        let ghost before = next@;
        if is_le(&nodes[a].marking, next) {
            proof {
                assert(w.take(pa.len() as int) == pa);
                assert(net.run(m0, pa) == Some(ma));
            }
            let n = next.len();
            for p in 0..n
                invariant
                    a < nodes@.len(),
                    n == next@.len(),
                    n == mk.len(),
                    before.len() == n,
                    ma.len() == n,
                    nodes@[a as int].marking@.len() == n,
                    finite(nodes@[a as int].marking@),
                    ma == strip(nodes@[a as int].marking@),
                    is_le_spec(nodes@[a as int].marking@, before),
                    forall|r: int| 0 <= r < p ==> next@[r] == accel_step(nodes@[a as int].marking@, before)[r],
                    forall|r: int| p <= r < n ==> next@[r] == before[r],
            {
                assert(nodes@[a as int].marking@[p as int] is Some);
                match (nodes[a].marking[p], next[p]) {
                    (Some(x), Some(y)) => {
                        if x < y {
                            next.set(p, None);
                        }
                    },
                    _ => {},
                }
            }
            proof {
                assert(next@ =~= accel_step(nodes@[a as int].marking@, before));
                if before == somes(mk) {
                    assert forall|p: int| 0 <= p < ma.len() implies ma[p] <= mk[p] by {
                        assert(le_opt(nodes@[a as int].marking@[p], before[p]));
                        assert(nodes@[a as int].marking@[p] is Some);
                    }
                    assert(next@ =~= accelerate(ma, mk)) by {
                        assert forall|p: int| 0 <= p < n implies next@[p] == accelerate(ma, mk)[p] by {
                            assert(nodes@[a as int].marking@[p] is Some);
                        }
                    }
                    if !finite(next@) {
                        assert(pa.len() < w.len());
                        let pp = choose|pp: int| 0 <= pp < next@.len() && !(next@[pp] is Some);
                        assert(ma[pp] < mk[pp]);
                        assert(grown_from(ma, mk, next@));
                        assert(omega_ok(net, m0, w, next@)) by {
                            let j = pa.len() as int;
                            assert(w.take(j) == pa);
                            assert(net.run(m0, w.take(j))->0 == ma);
                            assert(net.run(m0, w)->0 == mk);
                        }
                    } else {
                        assert(next@ =~= somes(mk)) by {
                            assert forall|p: int| 0 <= p < n implies next@[p] == somes(mk)[p] by {
                                assert(next@[p] is Some);
                            }
                        }
                    }
                } else {
                    assert(!finite(before) && omega_ok(net, m0, w, before));
                    let j = choose|j: int|
                        0 <= j < w.len() && net.run(m0, w.take(j)) is Some && net.run(m0, w) is Some && #[trigger] grown_from(
                            net.run(m0, w.take(j))->0,
                            net.run(m0, w)->0,
                            before,
                        );
                    let mj = net.run(m0, w.take(j))->0;
                    assert(grown_from(mj, mk, next@)) by {
                        assert forall|p: int| 0 <= p < next@.len() && mj[p] < mk[p] implies #[trigger] next@[p] is None by {
                            assert(before[p] is None);
                        }
                        assert forall|p: int| 0 <= p < next@.len() && (#[trigger] next@[p]) is Some implies next@[p] == Some(mk[p]) by {
                            assert(before[p] is Some);
                        }
                    }
                    assert(omega_ok(net, m0, w, next@));
                    let pp = choose|pp: int| 0 <= pp < before.len() && !(before[pp] is Some);
                    assert(next@[pp] is None);
                }
            }
        }
        let parent = nodes[a].parent;
        proof {
            if !is_le_spec(nodes@[a as int].marking@, before) {
                assert(next@ == accel_step(nodes@[a as int].marking@, before));
            }
            if a > 0 {
                let qa = nodes@[a as int].parent->0;
                assert(pa == path_of(nodes@, qa as int).push(nodes@[a as int].transition_from_parent->0));
                assert(pq.take(pa.len() - 1) == pa.drop_last());
            }
        }
        current = parent;
    }
}

/// The finite marking with the counts of `m`.
fn somes_of(m: &Marking) -> (r: Vec<Option<usize>>)
    ensures
        r@ == somes(m@),
{
    let mut r: Vec<Option<usize>> = Vec::new();
    for p in 0..m.0.len()
        invariant
            r@.len() == p,
            forall|q: int| 0 <= q < p ==> r@[q] == Some(m@[q]),
    {
        r.push(Some(m.0[p]));
    }
    assert(r@ =~= somes(m@));
    r
}

/// The finite counts of `m`, with 0 in place of ω.
fn strip_of(m: &Vec<Option<usize>>) -> (r: Marking)
    ensures
        r@ == strip(m@),
{
    let mut v: Vec<usize> = Vec::new();
    for p in 0..m.len()
        invariant
            v@.len() == p,
            forall|q: int| 0 <= q < p ==> v@[q] == strip(m@)[q],
    {
        v.push(
            match m[p] {
                Some(x) => x,
                None => 0,
            },
        );
    }
    assert(v@ =~= strip(m@));
    Marking(v)
}

/// Whether some node carries the ω-marking `m`.
fn has_node(nodes: &Vec<Node>, m: &Vec<Option<usize>>) -> (r: bool)
    ensures
        r == exists|j: int| 0 <= j < nodes@.len() && nodes@[j].marking@ == m@,
{
    for j in 0..nodes.len()
        invariant
            forall|i: int| 0 <= i < j ==> nodes@[i].marking@ != m@,
    {
        if same_marking(&nodes[j].marking, m) {
            return true;
        }
    }
    false
}

/// Whether `m` has an ω.
fn has_omega(m: &Vec<Option<usize>>) -> (r: bool)
    ensures
        r == !finite(m@),
{
    for p in 0..m.len()
        invariant
            forall|q: int| 0 <= q < p ==> (#[trigger] m@[q]) is Some,
    {
        if m[p].is_none() {
            return true;
        }
    }
    false
}

impl BoundnessAnalyzer {
    /// Checks boundness by building the coverability tree of `net` from
    /// `initial`, breadth first. The first node found with an ω makes the
    /// net unbounded; a tree completed without one makes it bounded. Each
    /// expansion counts against the limit; without a limit, the count still
    /// stops at `usize::MAX`.
    pub fn check(&self, net: &PtNet, initial: &Marking) -> (r: BoundnessResult)
        requires
            net.wf(),
            initial@.len() == net.places@.len(),
        ensures
            match r {
                BoundnessResult::Bounded => exists|s: Seq<Seq<usize>>| closed_cover(*net, initial@, s),
                BoundnessResult::Unbounded { unbounded_places, witness_sequence } => {
                    &&& witness_sequence is Some
                    &&& unbounded_places@.len() > 0
                    &&& exists|m: Seq<Option<usize>>|
                        omega_ok(*net, initial@, witness_sequence->0@, m) && unbounded_places@ == #[trigger] omega_places(
                            m,
                            m.len(),
                        )
                    &&& exists|sub: Seq<PlaceId>|
                        pumping_witness(*net, initial@, witness_sequence->0@, sub) && forall|k: int|
                            0 <= k < sub.len() ==> unbounded_places@.contains(#[trigger] sub[k])
                },
                BoundnessResult::Unknown { reason } => {
                    let limit = match self.limit() {
                        Some(l) => l as nat,
                        None => usize::MAX as nat,
                    };
                    &&& reason@ == limit_reason(limit)
                    &&& exists|s: Seq<Seq<usize>>| s.len() == limit && distinct_reachable(*net, initial@, s)
                },
            },
            self.limit() == Some(0usize) ==> r is Unknown,
    {
        let limit: usize = match self.state_limit {
            Some(l) => l,
            None => usize::MAX,
        };
        let ghost m0 = initial@;
        let mut nodes: Vec<Node> = Vec::new();
        nodes.push(Node { marking: somes_of(initial), parent: None, transition_from_parent: None });
        let mut queue: VecDeque<usize> = VecDeque::new();
        queue.push_back(0);
        let mut visited: usize = 0;
        let ghost mut popped: Seq<bool> = seq![false];
        let ghost mut seen: Seq<int> = Seq::empty();
        proof {
            assert(path_of(nodes@, 0) == Seq::<TransitionId>::empty());
            assert(strip(somes(m0)) =~= m0);
            assert(queue@[0] == 0);
        }
        while queue.len() > 0
            invariant
                net.wf(),
                m0 == initial@,
                m0.len() == net.places@.len(),
                limit == match self.limit() {
                    Some(l) => l,
                    None => usize::MAX,
                },
                0 < nodes@.len(),
                forall|k: int| 0 <= k < nodes@.len() ==> node_ok(*net, m0, nodes@, k),
                popped.len() == nodes@.len(),
                forall|i: int|
                    0 <= i < nodes@.len() && popped[i] ==> finite(nodes@[i].marking@) && expanded(
                        *net,
                        nodes@,
                        i,
                    ),
                forall|i: int|
                    0 <= i < nodes@.len() && !popped[i] ==> exists|k: int|
                        0 <= k < queue@.len() && queue@[k] == i,
                forall|k: int| 0 <= k < queue@.len() ==> queue@[k] < nodes@.len(),
                forall|k: int| 0 <= k < queue@.len() ==> !popped[queue@[k] as int],
                forall|k1: int, k2: int| 0 <= k1 < k2 < queue@.len() ==> queue@[k1] != queue@[k2],
                forall|i: int, j: int| 0 <= i < j < nodes@.len() ==> nodes@[i].marking@ != nodes@[j].marking@,
                seen.len() == visited,
                forall|k: int| 0 <= k < seen.len() ==> 0 <= #[trigger] seen[k] < nodes@.len() && popped[seen[k]],
                forall|k1: int, k2: int| 0 <= k1 < k2 < seen.len() ==> seen[k1] != seen[k2],
                limit == 0 ==> queue@.len() > 0,
                visited <= limit,
            decreases limit - visited,
        {
            let ghost queue0 = queue@;
            let idx = match queue.pop_front() {
                Some(i) => i,
                None => 0,
            };
            if visited >= limit {
                let mut reason = String::new();
                push_str(&mut reason, "Exceeded state limit ");
                push_decimal(&mut reason, limit as u64);
                proof {
                    let sm = Seq::new(seen.len(), |k: int| strip(nodes@[seen[k]].marking@));
                    assert forall|a: int, b: int| 0 <= a < b < sm.len() implies sm[a] != sm[b] by {
                        let ia = seen[a];
                        let ib = seen[b];
                        assert(finite(nodes@[ia].marking@) && finite(nodes@[ib].marking@));
                        if sm[a] == sm[b] {
                            assert(nodes@[ia].marking@ =~= nodes@[ib].marking@) by {
                                assert(node_ok(*net, m0, nodes@, ia));
                                assert(node_ok(*net, m0, nodes@, ib));
                                assert forall|p: int| 0 <= p < nodes@[ia].marking@.len() implies nodes@[ia].marking@[p] == nodes@[ib].marking@[p] by {
                                    assert(nodes@[ia].marking@[p] is Some);
                                    assert(nodes@[ib].marking@[p] is Some);
                                    assert(strip(nodes@[ia].marking@)[p] == strip(nodes@[ib].marking@)[p]);
                                }
                            }
                            if ia < ib {
                                assert(nodes@[ia].marking@ != nodes@[ib].marking@);
                            } else {
                                assert(nodes@[ib].marking@ != nodes@[ia].marking@);
                            }
                        }
                    }
                    assert forall|i: int| 0 <= i < sm.len() implies exists|w: Seq<TransitionId>| net.run(m0, w) == Some(#[trigger] sm[i]) by {
                        assert(node_ok(*net, m0, nodes@, seen[i]));
                        assert(net.run(m0, path_of(nodes@, seen[i])) == Some(sm[i]));
                    }
                    assert(distinct_reachable(*net, initial@, sm));
                }
                return BoundnessResult::Unknown { reason };
            }
            proof {
                assert(!popped[idx as int]) by {
                    assert(!popped[queue0[0] as int]);
                }
                assert forall|k: int| 0 <= k < seen.len() implies seen[k] != idx by {
                    assert(popped[seen[k]]);
                }
                seen = seen.push(idx as int);
            }
            visited = visited + 1;
            proof {
                assert forall|i: int| 0 <= i < nodes@.len() && !popped[i] && i != idx implies exists|k: int|
                    0 <= k < queue@.len() && queue@[k] == i by {
                    let k = choose|k: int| 0 <= k < queue0.len() && queue0[k] == i;
                    assert(k != 0);
                    assert(queue@[k - 1] == queue0[k]);
                }
                assert(node_ok(*net, m0, nodes@, idx as int));
            }
            if has_omega(&nodes[idx].marking) {
                let unbounded_places = omega_places_of(&nodes[idx].marking);
                let witness = path_to_node(&nodes, idx, Ghost(*net), Ghost(m0));
                proof {
                    let w = path_of(nodes@, idx as int);
                    let m = nodes@[idx as int].marking@;
                    let j = choose|j: int|
                        0 <= j < w.len() && net.run(m0, w.take(j)) is Some && net.run(m0, w) is Some && #[trigger] grown_from(
                            net.run(m0, w.take(j))->0,
                            net.run(m0, w)->0,
                            m,
                        );
                    let mj = net.run(m0, w.take(j))->0;
                    let mk = net.run(m0, w)->0;
                    lemma_run_len(*net, m0, w);
                    lemma_run_len(*net, m0, w.take(j));
                    let p = choose|p: int| 0 <= p < m.len() && mj[p] < mk[p];
                    lemma_increased_nonempty(mj, mk, mk.len(), p);
                    lemma_increased_in_omega(mj, mk, m, mk.len());
                    assert(m[p] is None);
                    lemma_omega_places_nonempty(m, m.len(), p);
                    let sub = increased(mj, mk, mk.len());
                    assert(pumping_witness(*net, m0, w, sub)) by {
                        assert(grown_from(mj, mk, m));
                    }
                    assert(unbounded_places@ == omega_places(m, m.len()));
                    assert(witness@ == w);
                    assert(node_ok(*net, m0, nodes@, idx as int));
                    assert(omega_ok(*net, m0, w, m));
                    assert forall|k: int| 0 <= k < sub.len() implies unbounded_places@.contains(#[trigger] sub[k]) by {
                        assert(omega_places(m, m.len()).contains(increased(mj, mk, mk.len())[k]));
                    }
                }
                let ghost places_v = unbounded_places@;
                let ghost w_v = witness@;
                let result = BoundnessResult::Unbounded { unbounded_places, witness_sequence: Some(witness) };
                proof {
                    let m = nodes@[idx as int].marking@;
                    assert(omega_ok(*net, initial@, w_v, m) && places_v == omega_places(m, m.len()));
                    let w = path_of(nodes@, idx as int);
                    let j = choose|j: int|
                        0 <= j < w.len() && net.run(m0, w.take(j)) is Some && net.run(m0, w) is Some && #[trigger] grown_from(
                            net.run(m0, w.take(j))->0,
                            net.run(m0, w)->0,
                            m,
                        );
                    let mj = net.run(m0, w.take(j))->0;
                    let mk = net.run(m0, w)->0;
                    lemma_run_len(*net, m0, w);
                    lemma_run_len(*net, m0, w.take(j));
                    let p = choose|p: int| 0 <= p < m.len() && mj[p] < mk[p];
                    lemma_increased_nonempty(mj, mk, mk.len(), p);
                    lemma_increased_in_omega(mj, mk, m, mk.len());
                    let sub = increased(mj, mk, mk.len());
                    assert(pumping_witness(*net, m0, w, sub));
                    assert forall|k: int| 0 <= k < sub.len() implies places_v.contains(#[trigger] sub[k]) by {
                        assert(omega_places(m, m.len()).contains(increased(mj, mk, mk.len())[k]));
                    }
                    assert(m[p] is None);
                    lemma_omega_places_nonempty(m, m.len(), p);
                    assert(places_v.len() > 0);
                    match &result {
                        BoundnessResult::Unbounded { unbounded_places: up, witness_sequence: ws } => {
                            assert(up@ == places_v);
                            assert(ws->0@ == w_v);
                            assert(w_v == w);
                            assert(exists|m2: Seq<Option<usize>>|
                                omega_ok(*net, initial@, ws->0@, m2) && up@ == #[trigger] omega_places(m2, m2.len()));
                            assert(exists|sub2: Seq<PlaceId>|
                                pumping_witness(*net, initial@, ws->0@, sub2) && forall|k: int|
                                    0 <= k < sub2.len() ==> up@.contains(#[trigger] sub2[k]));
                        },
                        _ => {},
                    }
                }
                return result;
            }
            proof {
                assert forall|kq: int| 0 <= kq < queue@.len() implies queue@[kq] != idx by {
                    assert(queue@[kq] == queue0[kq + 1]);
                    assert(queue0[0] == idx);
                }
                assert forall|kq: int| 0 <= kq < queue@.len() implies !popped[queue@[kq] as int] by {
                    assert(queue@[kq] == queue0[kq + 1]);
                }
                assert forall|k1: int, k2: int| 0 <= k1 < k2 < queue@.len() implies queue@[k1] != queue@[k2] by {
                    assert(queue@[k1] == queue0[k1 + 1]);
                    assert(queue@[k2] == queue0[k2 + 1]);
                }
            }
            let concrete = strip_of(&nodes[idx].marking);
            let en = net.enabled(&concrete);
            let ghost nodes_at_start = nodes@;
            for k in 0..en.len()
                invariant
                    net.wf(),
                    m0 == initial@,
                    m0.len() == net.places@.len(),
                    concrete@ == strip(nodes@[idx as int].marking@),
                    concrete@.len() == net.places@.len(),
                    idx < nodes_at_start.len(),
                    nodes_at_start.len() <= nodes@.len(),
                    forall|i: int| 0 <= i < nodes_at_start.len() ==> nodes@[i] == nodes_at_start[i],
                    finite(nodes@[idx as int].marking@),
                    net.run(m0, path_of(nodes@, idx as int)) == Some(concrete@),
                    forall|kk: int| 0 <= kk < nodes@.len() ==> node_ok(*net, m0, nodes@, kk),
                    popped.len() == nodes@.len(),
                    forall|i: int|
                        0 <= i < nodes@.len() && popped[i] ==> finite(nodes@[i].marking@) && expanded(
                            *net,
                            nodes@,
                            i,
                        ),
                    forall|i: int|
                        0 <= i < nodes@.len() && !popped[i] && i != idx ==> exists|kq: int|
                            0 <= kq < queue@.len() && queue@[kq] == i,
                    forall|kq: int| 0 <= kq < queue@.len() ==> queue@[kq] < nodes@.len(),
                    forall|kq: int| 0 <= kq < queue@.len() ==> !popped[queue@[kq] as int] && queue@[kq] != idx,
                    forall|k1: int, k2: int| 0 <= k1 < k2 < queue@.len() ==> queue@[k1] != queue@[k2],
                    forall|i: int, j: int| 0 <= i < j < nodes@.len() ==> nodes@[i].marking@ != nodes@[j].marking@,
                    forall|kk: int| 0 <= kk < seen.len() ==> 0 <= #[trigger] seen[kk] < nodes@.len() && (popped[seen[kk]] || seen[kk] == idx),
                    forall|j: int| 0 <= j < k ==> #[trigger] succ_handled(*net, nodes@, idx as int, en@[j].0),
            {
                let t = en[k];
                let ghost nodes1 = nodes@;
                match net.fire(&concrete, t) {
                    Err(_) => {
                        proof {
                            assert(succ_handled(*net, nodes@, idx as int, t.0));
                        }
                    },
                    Ok(nm) => {
                        let mut next = somes_of(&nm);
                        proof {
                            let w = path_of(nodes@, idx as int);
                            assert(w.push(t).drop_last() == w);
                            assert(net.run(m0, w.push(t)) == Some(nm@));
                        }
                        accelerate_along(&nodes, idx, &mut next, Ghost(*net), Ghost(m0), Ghost(t), Ghost(nm@));
                        if !has_node(&nodes, &next) {
                            let child = nodes.len();
                            let ghost queue1 = queue@;
                            nodes.push(Node { marking: next, parent: Some(idx), transition_from_parent: Some(t) });
                            queue.push_back(child);
                            proof {
                                popped = popped.push(false);
                                assert forall|kk: int| 0 <= kk < nodes1.len() implies path_of(nodes@, kk) == path_of(nodes1, kk) by {
                                    lemma_path_of_grows(nodes1, nodes@, kk);
                                }
                                assert(path_of(nodes@, child as int) == path_of(nodes1, idx as int).push(t));
                                assert forall|kk: int| 0 <= kk < nodes@.len() implies node_ok(*net, m0, nodes@, kk) by {
                                    if kk < nodes1.len() {
                                        assert(nodes@[kk] == nodes1[kk]);
                                        assert(node_ok(*net, m0, nodes1, kk));
                                        if kk > 0 {
                                            assert(nodes@[nodes1[kk].parent->0 as int] == nodes1[nodes1[kk].parent->0 as int]);
                                        }
                                    } else {
                                        lemma_run_len(*net, m0, path_of(nodes1, idx as int).push(t));
                                        if finite(nodes@[kk].marking@) {
                                            assert(strip(somes(nm@)) =~= nm@);
                                        }
                                    }
                                }
                                assert forall|i: int|
                                    0 <= i < nodes@.len() && popped[i] implies finite(nodes@[i].marking@) && expanded(
                                    *net,
                                    nodes@,
                                    i,
                                ) by {
                                    assert(nodes@[i] == nodes1[i]);
                                    assert forall|u: usize| #[trigger] succ_handled(*net, nodes@, i, u) by {
                                        assert(succ_handled(*net, nodes1, i, u));
                                        lemma_succ_handled_grows(*net, nodes1, nodes@, i, u);
                                    }
                                }
                                assert forall|j: int| 0 <= j < k implies #[trigger] succ_handled(*net, nodes@, idx as int, en@[j].0) by {
                                    lemma_succ_handled_grows(*net, nodes1, nodes@, idx as int, en@[j].0);
                                }
                                assert(nodes@[child as int].marking@ == next@);
                                assert(succ_handled(*net, nodes@, idx as int, t.0));
                                assert forall|i: int|
                                    0 <= i < nodes@.len() && !popped[i] && i != idx implies exists|kq: int|
                                        0 <= kq < queue@.len() && queue@[kq] == i by {
                                    if i == child {
                                        assert(queue@[queue@.len() - 1] == child);
                                    } else {
                                        let kq = choose|kq: int| 0 <= kq < queue1.len() && queue1[kq] == i;
                                        assert(queue@[kq] == queue1[kq]);
                                    }
                                }
                                assert forall|kq: int| 0 <= kq < queue@.len() implies !popped[queue@[kq] as int] && queue@[kq] != idx by {
                                    if kq < queue1.len() {
                                        assert(queue@[kq] == queue1[kq]);
                                    }
                                }
                                assert forall|k1: int, k2: int| 0 <= k1 < k2 < queue@.len() implies queue@[k1] != queue@[k2] by {
                                    assert(queue@[k1] == queue1[k1]);
                                    if k2 < queue1.len() {
                                        assert(queue@[k2] == queue1[k2]);
                                    }
                                }
                                assert forall|i: int, j: int| 0 <= i < j < nodes@.len() implies nodes@[i].marking@ != nodes@[j].marking@ by {
                                    if j < nodes1.len() {
                                        assert(nodes@[i] == nodes1[i]);
                                        assert(nodes@[j] == nodes1[j]);
                                    } else {
                                        assert(nodes@[i] == nodes1[i]);
                                    }
                                }
                                assert forall|kk: int| 0 <= kk < seen.len() implies 0 <= #[trigger] seen[kk] < nodes@.len() && (popped[seen[kk]] || seen[kk] == idx) by {
                                }
                            }
                        } else {
                            proof {
                                assert(succ_handled(*net, nodes@, idx as int, t.0));
                            }
                        }
                    },
                }
            }
            proof {
                assert forall|u: usize| #[trigger] succ_handled(*net, nodes@, idx as int, u) by {
                    if net.fire_result(strip(nodes@[idx as int].marking@), u) is Ok {
                        assert(net.enabled_pred(concrete@)(u));
                        let j = choose|j: int| 0 <= j < en@.len() && en@[j].0 == u;
                        assert(succ_handled(*net, nodes@, idx as int, en@[j].0));
                    }
                }
                popped = popped.update(idx as int, true);
            }
        }
        proof {
            assert forall|i: int| 0 <= i < nodes@.len() implies popped[i] by {
                if !popped[i] {
                    let k = choose|k: int| 0 <= k < queue@.len() && queue@[k] == i;
                }
            }
            let s = Seq::new(nodes@.len(), |i: int| strip(nodes@[i].marking@));
            assert(s[0] == m0) by {
                assert(node_ok(*net, m0, nodes@, 0));
                assert(strip(somes(m0)) =~= m0);
            }
            assert(s.contains(m0));
            assert forall|i: int, t: usize|
                #![trigger s[i], net.fire_result(s[i], t)]
                0 <= i < s.len() implies match net.fire_result(s[i], t) {
                    Ok(m2) => s.contains(m2),
                    Err(_) => true,
                } by {
                if net.fire_result(s[i], t) is Ok {
                    let m2 = net.fire_result(s[i], t)->Ok_0;
                    assert(popped[i]);
                    assert(expanded(*net, nodes@, i));
                    assert(succ_handled(*net, nodes@, i, t));
                    if exists|j: int| 0 <= j < nodes@.len() && nodes@[j].marking@ == somes(m2) {
                        let j = choose|j: int| 0 <= j < nodes@.len() && nodes@[j].marking@ == somes(m2);
                        assert(strip(somes(m2)) =~= m2);
                        assert(s[j] == m2);
                    } else {
                        let j = choose|j: int| 0 <= j < nodes@.len() && !finite(nodes@[j].marking@);
                        assert(popped[j]);
                    }
                }
            }
            assert(closed_cover(*net, initial@, s));
        }
        BoundnessResult::Bounded
    }
}

/// Checks boundness with the default analyzer.
pub fn check_boundness(net: &PtNet, initial: &Marking) -> (r: BoundnessResult)
    requires
        net.wf(),
        initial@.len() == net.places@.len(),
    ensures
        match r {
            BoundnessResult::Bounded => exists|s: Seq<Seq<usize>>| closed_cover(*net, initial@, s),
            BoundnessResult::Unbounded { unbounded_places, witness_sequence } => {
                &&& witness_sequence is Some
                &&& unbounded_places@.len() > 0
                &&& exists|m: Seq<Option<usize>>|
                    omega_ok(*net, initial@, witness_sequence->0@, m) && unbounded_places@ == #[trigger] omega_places(
                        m,
                        m.len(),
                    )
                &&& exists|sub: Seq<PlaceId>|
                    pumping_witness(*net, initial@, witness_sequence->0@, sub) && forall|k: int|
                        0 <= k < sub.len() ==> unbounded_places@.contains(#[trigger] sub[k])
            },
            BoundnessResult::Unknown { reason } => {
                &&& reason@ == limit_reason(10_000)
                &&& exists|s: Seq<Seq<usize>>| s.len() == 10_000 && distinct_reachable(*net, initial@, s)
            },
        },
{
    BoundnessAnalyzer::new().check(net, initial)
}

/// Checks boundness with the default analyzer and reports on `place` only:
/// unbounded when the check found `place` among the unbounded places,
/// bounded when the net is bounded or `place` stayed finite.
pub fn check_place_boundness(net: &PtNet, initial: &Marking, place: PlaceId) -> (r: BoundnessResult)
    requires
        net.wf(),
        initial@.len() == net.places@.len(),
    ensures
        match r {
            BoundnessResult::Bounded => (exists|s: Seq<Seq<usize>>| closed_cover(*net, initial@, s)) || (exists|
                w: Seq<TransitionId>,
                m: Seq<Option<usize>>,
            | #[trigger] omega_ok(*net, initial@, w, m) && !omega_places(m, m.len()).contains(place)),
            BoundnessResult::Unbounded { unbounded_places, witness_sequence } => {
                &&& unbounded_places@ == seq![place]
                &&& witness_sequence is Some
                &&& exists|m: Seq<Option<usize>>|
                    #[trigger] omega_ok(*net, initial@, witness_sequence->0@, m) && omega_places(m, m.len()).contains(
                        place,
                    )
            },
            BoundnessResult::Unknown { reason } => {
                &&& reason@ == limit_reason(10_000)
                &&& exists|s: Seq<Seq<usize>>| s.len() == 10_000 && distinct_reachable(*net, initial@, s)
            },
        },
{
    match BoundnessAnalyzer::new().check(net, initial) {
        BoundnessResult::Bounded => BoundnessResult::Bounded,
        BoundnessResult::Unbounded { unbounded_places, witness_sequence } => {
            let mut found = false;
            for k in 0..unbounded_places.len()
                invariant
                    found == exists|j: int| 0 <= j < k && unbounded_places@[j] == place,
            {
                if unbounded_places[k] == place {
                    found = true;
                }
            }
            let ghost m = choose|m: Seq<Option<usize>>|
                omega_ok(*net, initial@, witness_sequence->0@, m) && unbounded_places@ == #[trigger] omega_places(
                    m,
                    m.len(),
                );
            if found {
                let mut only: Vec<PlaceId> = Vec::new();
                only.push(place);
                assert(only@ == seq![place]);
                proof {
                    let j = choose|j: int| 0 <= j < unbounded_places@.len() && unbounded_places@[j] == place;
                    assert(unbounded_places@.contains(place));
                }
                BoundnessResult::Unbounded { unbounded_places: only, witness_sequence }
            } else {
                proof {
                    assert(!unbounded_places@.contains(place));
                    assert(omega_ok(*net, initial@, witness_sequence->0@, m));
                }
                BoundnessResult::Bounded
            }
        },
        BoundnessResult::Unknown { reason } => BoundnessResult::Unknown { reason },
    }
}

/// A finite set of markings that holds the initial marking and is closed
/// under successful firings holds every reachable marking: a bounded answer
/// bounds every place.
pub proof fn law_closed_cover_holds_every_reachable_marking(
    net: PtNet,
    m0: Seq<usize>,
    s: Seq<Seq<usize>>,
    w: Seq<TransitionId>,
)
    requires
        closed_cover(net, m0, s),
        net.run(m0, w) is Some,
    ensures
        s.contains(net.run(m0, w)->0),
    decreases w.len(),
{
    if w.len() > 0 {
        let w1 = w.drop_last();
        law_closed_cover_holds_every_reachable_marking(net, m0, s, w1);
        let m1 = net.run(m0, w1)->0;
        let i = choose|i: int| 0 <= i < s.len() && s[i] == m1;
        let t = w.last().0;
        assert(net.fire_result(s[i], t) is Ok);
    }
}

/// The debug text of identifiers written `name(<index>)`: in brackets,
/// separated by `, `.
pub open spec fn id_list_text(name: Seq<char>, ids: Seq<usize>) -> Seq<char> {
    seq!['['] + comma_joined(Seq::new(ids.len(), |i: int| name + seq!['('] + decimal(ids[i] as nat) + seq![')']))
        + seq![']']
}

/// The text of a boundness verdict.
pub open spec fn verdict_text(r: BoundnessResult) -> Seq<char> {
    match r {
        BoundnessResult::Bounded => "Petri net is bounded"@,
        BoundnessResult::Unbounded { unbounded_places, witness_sequence } => "Petri net is unbounded; unbounded places: "@
            + id_list_text("PlaceId"@, Seq::new(unbounded_places@.len(), |i: int| unbounded_places@[i].0)) + match witness_sequence {
            Some(seq) => "; witness sequence: "@ + id_list_text(
                "TransitionId"@,
                Seq::new(seq@.len(), |i: int| seq@[i].0),
            ),
            None => Seq::empty(),
        },
        BoundnessResult::Unknown { reason } => "Could not determine boundness: "@ + reason@,
    }
}

/// Appends the debug text of `ids`, each written `name(<index>)`, to `out`.
fn push_id_list(out: &mut String, name: &str, ids: &Vec<usize>)
    ensures
        final(out)@ == old(out)@ + id_list_text(name@, ids@),
{
    let ghost o0 = out@;
    let ghost parts = Seq::new(ids@.len(), |i: int| name@ + seq!['('] + decimal(ids@[i] as nat) + seq![')']);
    push_char(out, '[');
    let n = ids.len();
    let mut i: usize = 0;
    while i < n
        invariant
            i <= n,
            n == ids@.len(),
            parts == Seq::new(ids@.len(), |k: int| name@ + seq!['('] + decimal(ids@[k] as nat) + seq![')']),
            out@ == o0 + seq!['['] + comma_joined(parts.take(i as int)),
        decreases n - i,
    {
        if i > 0 {
            push_char(out, ',');
            push_char(out, ' ');
        }
        push_str(out, name);
        push_char(out, '(');
        push_decimal(out, ids[i] as u64);
        push_char(out, ')');
        proof {
            let t = parts.take(i + 1);
            assert(t.drop_last() == parts.take(i as int));
            assert(t.last() == parts[i as int]);
            if i == 0 {
                assert(t.len() == 1);
                assert(comma_joined(t) == t[0]);
            }
        }
        i = i + 1;
    }
    push_char(out, ']');
    assert(parts.take(n as int) == parts);
}

impl BoundnessResult {
    /// The verdict in words: bounded; unbounded, with the places that grew
    /// without bound and the firing sequence that showed it; or undecided,
    /// with the reason.
    pub fn text(&self) -> (r: String)
        ensures
            r@ == verdict_text(*self),
    {
        match self {
            BoundnessResult::Bounded => string_of("Petri net is bounded"),
            BoundnessResult::Unbounded { unbounded_places, witness_sequence } => {
                let mut out = string_of("Petri net is unbounded; unbounded places: ");
                let mut ids: Vec<usize> = Vec::new();
                let mut i: usize = 0;
                while i < unbounded_places.len()
                    invariant
                        i <= unbounded_places@.len(),
                        ids@ == Seq::new(i as nat, |k: int| unbounded_places@[k].0),
                    decreases unbounded_places@.len() - i,
                {
                    ids.push(unbounded_places[i].0);
                    assert(ids@ =~= Seq::new((i + 1) as nat, |k: int| unbounded_places@[k].0));
                    i = i + 1;
                }
                push_id_list(&mut out, "PlaceId", &ids);
                match witness_sequence {
                    Some(seq) => {
                        push_str(&mut out, "; witness sequence: ");
                        let mut ts: Vec<usize> = Vec::new();
                        let mut i: usize = 0;
                        while i < seq.len()
                            invariant
                                i <= seq@.len(),
                                ts@ == Seq::new(i as nat, |k: int| seq@[k].0),
                            decreases seq@.len() - i,
                        {
                            ts.push(seq[i].0);
                            assert(ts@ =~= Seq::new((i + 1) as nat, |k: int| seq@[k].0));
                            i = i + 1;
                        }
                        push_id_list(&mut out, "TransitionId", &ts);
                        out
                    },
                    None => {
                        assert(out@ + Seq::<char>::empty() == out@);
                        out
                    },
                }
            },
            BoundnessResult::Unknown { reason } => {
                let mut out = string_of("Could not determine boundness: ");
                push_str(&mut out, reason.as_str());
                out
            },
        }
    }
}

} // verus!
