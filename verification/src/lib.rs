//! UniPN: a Petri-net model family (P/T, priority-timed, colored verification
//! nets) together with its analyses: reachability graphs, coverability-based
//! boundness, structural reduction and difference-bound-matrix clock zones.
pub mod analysis;
pub mod bug;
pub mod color;
pub mod cvn;
pub mod error;
pub mod export;
pub mod guard;
pub mod ids;
pub mod marking;
pub mod model;
pub mod netmodel;
pub mod pt;
pub mod text;
pub mod timed;
