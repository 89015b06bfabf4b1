//! Analyses of P/T nets: reachability graphs and structural reduction.
pub mod reachability;
pub mod reduce;
pub mod state_dot;
