//! Priority timed Petri nets: a P/T net whose transitions carry a static
//! firing interval, a priority, the core they run on, and whether they can
//! be suspended while a higher-priority transition of their core runs.
use vstd::prelude::*;

use crate::analysis::timed::dbm::INF_TIME;
use crate::ids::{PlaceId, TransitionId};
use crate::pt::{Marking, PtExecutionError, PtNet, PtPlace};

verus! {

/// The unbounded upper end of a firing interval.
pub const INF: i32 = INF_TIME;

/// A static firing interval `[earliest, latest]`; `latest == INF` leaves it
/// unbounded above.
#[derive(Debug, Clone, Copy, PartialEq, Eq, Structural)]
pub struct TimeInterval {
    pub earliest: i32,
    pub latest: i32,
}

impl TimeInterval {
    /// The interval `[earliest, latest]`.
    pub fn closed(earliest: i32, latest: i32) -> (r: Self)
        ensures
            r == (TimeInterval { earliest, latest }),
    {
        TimeInterval { earliest, latest }
    }

    /// The earliest firing time, never below zero.
    pub open spec fn earliest_spec(self) -> i32 {
        if self.earliest < 0 {
            0
        } else {
            self.earliest
        }
    }

    /// The earliest firing time, never below zero.
    pub fn effective_earliest(&self) -> (r: i32)
        ensures
            r == self.earliest_spec(),
    {
        if self.earliest < 0 {
            0
        } else {
            self.earliest
        }
    }

    /// The latest firing time: `INF` when unbounded, and never before the
    /// earliest one.
    pub open spec fn latest_spec(self) -> i32 {
        if self.latest == INF {
            INF
        } else if self.latest < self.earliest_spec() {
            self.earliest_spec()
        } else {
            self.latest
        }
    }

    /// The latest firing time: `INF` when unbounded, and never before the
    /// earliest one.
    pub fn effective_latest(&self) -> (r: i32)
        ensures
            r == self.latest_spec(),
    {
        let e = self.effective_earliest();
        if self.latest == INF {
            INF
        } else if self.latest < e {
            e
        } else {
            self.latest
        }
    }
}

/// The timing of one transition.
#[derive(Debug, Clone, Copy, PartialEq, Eq, Structural)]
pub struct TransitionTiming {
    pub interval: TimeInterval,
    pub priority: i32,
    pub core: i32,
    pub suspendable: bool,
}

/// A priority timed Petri net: the P/T net and, for each of its
/// transitions, its timing.
pub struct TimedNet {
    pub net: PtNet,
    pub timing: Vec<TransitionTiming>,
}

impl TimedNet {
    /// Every arc names a node of the net and every transition has its
    /// timing.
    pub open spec fn wf(&self) -> bool {
        &&& self.net.wf()
        &&& self.timing@.len() == self.net.transitions@.len()
    }

    /// The net with the given transitions' timings.
    pub fn new(net: PtNet, timing: Vec<TransitionTiming>) -> (r: Self)
        ensures
            r.net == net,
            r.timing@ == timing@,
    {
        TimedNet { net, timing }
    }

    /// The number of transitions.
    pub fn num_transitions(&self) -> (r: usize)
        ensures
            r == self.net.transitions@.len(),
    {
        self.net.transitions.len()
    }

    /// The number of places.
    pub fn num_places(&self) -> (r: usize)
        ensures
            r == self.net.places@.len(),
    {
        self.net.places.len()
    }

    /// The timing of transition `t`, if there is one.
    pub open spec fn timing_of(&self, t: int) -> Option<TransitionTiming> {
        if 0 <= t < self.timing@.len() {
            Some(self.timing@[t])
        } else {
            None
        }
    }

    /// The timing of `transition`, if there is one.
    pub fn transition(&self, transition: TransitionId) -> (r: Option<&TransitionTiming>)
        ensures
            r == match self.timing_of(transition.0 as int) {
                Some(x) => Some(&x),
                None => None::<&TransitionTiming>,
            },
    {
        if transition.0 < self.timing.len() {
            Some(&self.timing[transition.0])
        } else {
            None
        }
    }

    /// Place `place`, if there is one.
    pub fn place(&self, place: PlaceId) -> (r: Option<&PtPlace>)
        ensures
            r == if (place.0 as int) < self.net.places@.len() {
                Some(&self.net.places@[place.0 as int])
            } else {
                None::<&PtPlace>
            },
    {
        if place.0 < self.net.places.len() {
            Some(&self.net.places[place.0])
        } else {
            None
        }
    }

    /// Whether transition `t` may fire in marking `m`, as far as tokens go.
    pub fn is_enabled(&self, m: &Marking, t: TransitionId) -> (r: bool)
        requires
            self.wf(),
            m@.len() == self.net.places@.len(),
        ensures
            r == self.net.enabled_in(m@, t.0),
    {
        self.net.is_enabled(m, t)
    }

    /// Fires `t` in `m`, as far as tokens go: the marking reached, or why it
    /// cannot be reached.
    pub fn fire(&self, m: &Marking, t: TransitionId) -> (r: Result<Marking, PtExecutionError>)
        requires
            self.wf(),
            m@.len() == self.net.places@.len(),
        ensures
            match r {
                Ok(next) => self.net.fire_result(m@, t.0) == Ok::<Seq<usize>, PtExecutionError>(next@),
                Err(e) => self.net.fire_result(m@, t.0) == Err::<Seq<usize>, PtExecutionError>(e),
            },
    {
        self.net.fire(m, t)
    }
}

} // verus!
