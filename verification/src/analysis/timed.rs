//! Clock-zone analysis for priority timed nets.
use vstd::prelude::*;

pub mod canonicalization;
pub mod dbm;
pub mod reachability;
pub mod scheduling;
pub mod state_class;

verus! {

/// Timed-analysis settings: the upper bound of each clock, and whether
/// priorities preempt.
#[derive(Clone, Debug)]
pub struct TimedConfig {
    pub clock_bounds: Vec<i64>,
    pub priorities: bool,
}

} // verus!
