//! The colored verification net: place and transition kinds, the roles the
//! analyses ask of them, values, expressions and guards over a variable
//! store, and the net itself.
pub mod builder;
pub mod expr;
pub mod kinds;
pub mod net;
pub mod roles;
pub mod semantics;
