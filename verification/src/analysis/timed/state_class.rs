//! Symbolic state classes: a marking together with a clock zone over the
//! execution and suspension clocks of the enabled transitions.
use vstd::prelude::*;

use crate::pt::Marking;
use crate::text::{push_char, push_decimal, push_signed, push_str, decimal, signed_decimal, string_of};

use super::dbm::{DBM, INF_TIME};

verus! {

/// Whether `value` occurs in `set` (a list of transition indices, kept in
/// increasing order by its producers).
pub fn contains(set: &Vec<usize>, value: usize) -> (r: bool)
    ensures
        r == set@.contains(value),
{
    for k in 0..set.len()
        invariant
            forall|j: int| 0 <= j < k ==> set@[j] != value,
    {
        if set[k] == value {
            return true;
        }
    }
    false
}

/// What a row and column of a state class's zone stands for.
#[derive(Debug, Clone, Copy, PartialEq, Eq, PartialOrd, Ord, Hash, Structural)]
pub enum ClockKind {
    /// The reference clock, always at index 0.
    Zero,
    /// How long a transition has effectively been running.
    Execution,
    /// How long a suspendable transition has been suspended.
    Suspension,
}

/// The clock at one index of a state class's zone.
#[derive(Debug, Clone, Copy, PartialEq, Eq, PartialOrd, Ord, Hash, Structural)]
pub struct ClockVar {
    pub kind: ClockKind,
    pub transition: usize,
}

/// One edge of the state-class graph: the transition that fired, the window
/// of its execution clock when it fires, and how long the net may stay in
/// the source class before it.
#[derive(Debug, Clone, PartialEq, Eq, Structural)]
pub struct FiringEdge {
    pub transition_id: usize,
    pub firing_min: i32,
    pub firing_max: i32,
    pub dwell_min: i32,
    pub dwell_max: i32,
}

/// The text of an edge: `T<id>@[<min>, <max>]`, with `inf` for an unbounded
/// maximum.
pub open spec fn edge_text(e: FiringEdge) -> Seq<char> {
    seq!['T'] + decimal(e.transition_id as nat) + seq!['@', '['] + signed_decimal(e.firing_min as int) + seq![
        ',',
        ' ',
    ] + if e.firing_max == INF_TIME {
        seq!['i', 'n', 'f']
    } else {
        signed_decimal(e.firing_max as int)
    } + seq![']']
}

impl FiringEdge {
    /// The edge firing `transition_id` in `[firing_min, firing_max]`, with no
    /// dwell time.
    pub fn new(transition_id: usize, firing_min: i32, firing_max: i32) -> (r: Self)
        ensures
            r == (FiringEdge { transition_id, firing_min, firing_max, dwell_min: 0, dwell_max: 0 }),
    {
        FiringEdge { transition_id, firing_min, firing_max, dwell_min: 0, dwell_max: 0 }
    }

    /// The text of the edge.
    pub fn to_string(&self) -> (r: String)
        ensures
            r@ == edge_text(*self),
    {
        let mut s = string_of("T");
        push_decimal(&mut s, self.transition_id as u64);
        push_char(&mut s, '@');
        push_char(&mut s, '[');
        push_signed(&mut s, self.firing_min as i64);
        push_char(&mut s, ',');
        push_char(&mut s, ' ');
        if self.firing_max == INF_TIME {
            push_str(&mut s, "inf");
            proof {
                reveal_strlit("inf");
            }
        } else {
            push_signed(&mut s, self.firing_max as i64);
        }
        push_char(&mut s, ']');
        proof {
            reveal_strlit("T");
            assert(s@ =~= edge_text(*self));
        }
        s
    }
}

/// A symbolic state class: a marking, a zone over its clocks, the layout of
/// those clocks, and the transitions enabled, priority-enabled and suspended
/// in the marking.
pub struct StateClass {
    pub marking: Marking,
    pub zone: DBM,
    /// The clock at each index of the zone; index 0 is the reference clock.
    pub clock_vars: Vec<ClockVar>,
    /// For each transition, the index of its execution clock, or -1.
    pub exec_clock_of_transition: Vec<i32>,
    /// For each transition, the index of its suspension clock, or -1.
    pub susp_clock_of_transition: Vec<i32>,
    pub struct_enabled: Vec<usize>,
    pub priority_enabled: Vec<usize>,
    pub suspended: Vec<usize>,
    /// Time spent from the initial class, in time units; not part of the
    /// class's identity.
    pub elapsed_time: u64,
    pub id: usize,
}

/// Whether two classes hold the same values.
pub open spec fn same_class(a: StateClass, b: StateClass) -> bool {
    &&& a.marking@ == b.marking@
    &&& a.zone.dim() == b.zone.dim()
    &&& a.zone.m() == b.zone.m()
    &&& a.zone.frozen() == b.zone.frozen()
    &&& a.clock_vars@ == b.clock_vars@
    &&& a.exec_clock_of_transition@ == b.exec_clock_of_transition@
    &&& a.susp_clock_of_transition@ == b.susp_clock_of_transition@
    &&& a.struct_enabled@ == b.struct_enabled@
    &&& a.priority_enabled@ == b.priority_enabled@
    &&& a.suspended@ == b.suspended@
    &&& a.elapsed_time == b.elapsed_time
    &&& a.id == b.id
}

impl Clone for StateClass {
    fn clone(&self) -> (r: Self)
        ensures
            same_class(r, *self),
    {
        StateClass {
            marking: self.marking.clone(),
            zone: self.zone.clone(),
            clock_vars: self.clock_vars.clone(),
            exec_clock_of_transition: self.exec_clock_of_transition.clone(),
            susp_clock_of_transition: self.susp_clock_of_transition.clone(),
            struct_enabled: self.struct_enabled.clone(),
            priority_enabled: self.priority_enabled.clone(),
            suspended: self.suspended.clone(),
            elapsed_time: self.elapsed_time,
            id: self.id,
        }
    }
}

impl Default for StateClass {
    fn default() -> (r: Self)
        ensures
            r.marking@ == Seq::<usize>::empty(),
            r.zone.wf(),
            r.zone.dim() == 0,
            r.clock_vars@ == Seq::<ClockVar>::empty(),
            r.exec_clock_of_transition@ == Seq::<i32>::empty(),
            r.susp_clock_of_transition@ == Seq::<i32>::empty(),
            r.struct_enabled@ == Seq::<usize>::empty(),
            r.priority_enabled@ == Seq::<usize>::empty(),
            r.suspended@ == Seq::<usize>::empty(),
            r.elapsed_time == 0,
            r.id == 0,
    {
        StateClass {
            marking: Marking::new(Vec::new()),
            zone: DBM::new(0),
            clock_vars: Vec::new(),
            exec_clock_of_transition: Vec::new(),
            susp_clock_of_transition: Vec::new(),
            struct_enabled: Vec::new(),
            priority_enabled: Vec::new(),
            suspended: Vec::new(),
            elapsed_time: 0,
            id: 0,
        }
    }
}

impl StateClass {
    /// The index of the execution clock of `transition`, or -1.
    pub open spec fn exec_of(&self, transition: int) -> i32 {
        if 0 <= transition < self.exec_clock_of_transition@.len() {
            self.exec_clock_of_transition@[transition]
        } else {
            -1i32
        }
    }

    /// The index of the suspension clock of `transition`, or -1.
    pub open spec fn susp_of(&self, transition: int) -> i32 {
        if 0 <= transition < self.susp_clock_of_transition@.len() {
            self.susp_clock_of_transition@[transition]
        } else {
            -1i32
        }
    }

    /// The index of the execution clock of `transition`, or -1.
    pub fn exec_index(&self, transition: usize) -> (r: i32)
        ensures
            r == self.exec_of(transition as int),
    {
        if transition < self.exec_clock_of_transition.len() {
            self.exec_clock_of_transition[transition]
        } else {
            -1i32
        }
    }

    /// The index of the suspension clock of `transition`, or -1.
    pub fn susp_index(&self, transition: usize) -> (r: i32)
        ensures
            r == self.susp_of(transition as int),
    {
        if transition < self.susp_clock_of_transition.len() {
            self.susp_clock_of_transition[transition]
        } else {
            -1i32
        }
    }

    /// Whether `transition` has an execution clock.
    pub fn has_exec_clock(&self, transition: usize) -> (r: bool)
        ensures
            r == (self.exec_of(transition as int) > 0),
    {
        self.exec_index(transition) > 0
    }

    /// Whether `transition` has a suspension clock.
    pub fn has_susp_clock(&self, transition: usize) -> (r: bool)
        ensures
            r == (self.susp_of(transition as int) > 0),
    {
        self.susp_index(transition) > 0
    }
}

/// The seed after mixing `value` into `seed`.
pub open spec fn mix(seed: u64, value: u64) -> u64 {
    seed ^ (value.wrapping_add(0x9e3779b97f4a7c15u64).wrapping_add(seed.wrapping_shl(6)).wrapping_add(
        seed.wrapping_shr(2),
    ))
}

/// Mixes `value` into `seed`.
pub fn hash_combine(seed: &mut u64, value: u64)
    ensures
        *final(seed) == mix(*old(seed), value),
{
    let s = *seed;
    *seed = s ^ value.wrapping_add(0x9e3779b97f4a7c15u64).wrapping_add(s.wrapping_shl(6)).wrapping_add(
        s.wrapping_shr(2),
    );
}

/// `seed` after mixing in each value of `values` in order.
pub open spec fn mix_all(seed: u64, values: Seq<u64>) -> u64
    decreases values.len(),
{
    if values.len() == 0 {
        seed
    } else {
        mix(mix_all(seed, values.drop_last()), values.last())
    }
}

/// The code of a clock kind in a hash.
pub open spec fn kind_code(k: ClockKind) -> u64 {
    match k {
        ClockKind::Zero => 0,
        ClockKind::Execution => 1,
        ClockKind::Suspension => 2,
    }
}

/// The values hashed for a state class: its token counts, the kind and
/// transition of each clock, and the bounds of its zone.
pub open spec fn hashed_values(marking: Seq<usize>, vars: Seq<ClockVar>, bounds: Seq<i32>) -> Seq<u64> {
    marking.map_values(|v: usize| v as u64) + vars.map_values(|c: ClockVar| seq![kind_code(c.kind), c.transition as u64]).flatten()
        + bounds.map_values(|b: i32| b as u64)
}

fn code_of(k: ClockKind) -> (r: u64)
    ensures
        r == kind_code(k),
{
    match k {
        ClockKind::Zero => 0,
        ClockKind::Execution => 1,
        ClockKind::Suspension => 2,
    }
}

/// The hash of a state class's identity: its marking, clock layout and zone.
pub fn hash_state_class(state: &StateClass) -> (r: u64)
    requires
        state.zone.wf(),
    ensures
        r == mix_all(0, hashed_values(state.marking@, state.clock_vars@, state.zone.m())),
{
    let mut seed: u64 = 0;
    let ghost ms = state.marking@.map_values(|v: usize| v as u64);
    for k in 0..state.marking.0.len()
        invariant
            ms == state.marking@.map_values(|v: usize| v as u64),
            seed == mix_all(0, ms.take(k as int)),
    {
        assert(ms.take(k + 1).drop_last() == ms.take(k as int));
        hash_combine(&mut seed, state.marking.0[k] as u64);
    }
    assert(ms.take(ms.len() as int) == ms);
    let ghost vs = state.clock_vars@.map_values(|c: ClockVar| seq![kind_code(c.kind), c.transition as u64]).flatten();
    proof {
        lemma_mix_all_append(0, ms, Seq::empty());
    }
    for k in 0..state.clock_vars.len()
        invariant
            ms == state.marking@.map_values(|v: usize| v as u64),
            seed == mix_all(0, ms + state.clock_vars@.take(k as int).map_values(
                |c: ClockVar| seq![kind_code(c.kind), c.transition as u64],
            ).flatten()),
    {
        let var = state.clock_vars[k];
        let ghost before = state.clock_vars@.take(k as int).map_values(
            |c: ClockVar| seq![kind_code(c.kind), c.transition as u64],
        ).flatten();
        let ghost step = seq![kind_code(var.kind), var.transition as u64];
        proof {
            assert(state.clock_vars@.take(k + 1).map_values(|c: ClockVar| seq![kind_code(c.kind), c.transition as u64])
                == state.clock_vars@.take(k as int).map_values(|c: ClockVar| seq![kind_code(c.kind), c.transition as u64]).push(step));
            state.clock_vars@.take(k as int).map_values(
                |c: ClockVar| seq![kind_code(c.kind), c.transition as u64]).lemma_flatten_push(step);
            assert((ms + before + step).drop_last() == ms + before + seq![kind_code(var.kind)]);
            assert((ms + before + seq![kind_code(var.kind)]).drop_last() == ms + before);
        }
        let ghost s0 = seed;
        hash_combine(&mut seed, code_of(var.kind));
        assert(seed == mix_all(0, ms + before + seq![kind_code(var.kind)]));
        hash_combine(&mut seed, var.transition as u64);
        assert(seed == mix_all(0, ms + before + step));
        assert(ms + before + step == ms + state.clock_vars@.take(k + 1).map_values(
            |c: ClockVar| seq![kind_code(c.kind), c.transition as u64],
        ).flatten());
    }
    assert(state.clock_vars@.take(state.clock_vars@.len() as int) == state.clock_vars@);
    let raw = state.zone.raw_matrix();
    let ghost bs = state.zone.m().map_values(|b: i32| b as u64);
    for k in 0..raw.len()
        invariant
            raw@ == state.zone.m(),
            bs == state.zone.m().map_values(|b: i32| b as u64),
            seed == mix_all(0, ms + vs + bs.take(k as int)),
    {
        assert((ms + vs + bs.take(k + 1)).drop_last() == ms + vs + bs.take(k as int));
        hash_combine(&mut seed, #[verifier::truncate] (raw[k] as u64));
    }
    assert(bs.take(bs.len() as int) == bs);
    seed
}

proof fn lemma_mix_all_append(seed: u64, a: Seq<u64>, b: Seq<u64>)
    requires
        b.len() == 0,
    ensures
        mix_all(seed, a + b) == mix_all(seed, a),
{
    assert(a + b == a);
}

} // verus!
