//! Net analyses.
pub mod boundness;
pub mod cvn;
pub mod generic;
pub mod invariants;
pub mod netlike;
pub mod pt;
pub mod pt_graph;
pub mod state_space;
pub mod timed;
