//! Dense identifiers of places and transitions.
use vstd::prelude::*;

verus! {

/// Index of a place in its net.
#[derive(Clone, Copy, Debug, PartialEq, Eq, Hash, PartialOrd, Ord, Structural)]
pub struct PlaceId(pub usize);

/// Index of a transition in its net.
#[derive(Clone, Copy, Debug, PartialEq, Eq, Hash, PartialOrd, Ord, Structural)]
pub struct TransitionId(pub usize);

impl PlaceId {
    /// The position of the place in its net's place list.
    pub fn index(self) -> (r: usize)
        ensures
            r == self.0,
    {
        self.0
    }
}

impl TransitionId {
    /// The position of the transition in its net's transition list.
    pub fn index(self) -> (r: usize)
        ensures
            r == self.0,
    {
        self.0
    }
}

} // verus!
