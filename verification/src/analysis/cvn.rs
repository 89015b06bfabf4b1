//! Checks of colored verification nets over their explored state spaces.
pub mod deadlock;
