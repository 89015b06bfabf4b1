//! The places and transitions of a concurrency verification net, named by
//! strings.
pub mod place;
pub mod transition;
