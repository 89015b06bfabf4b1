//! The questions the analyses ask of a place kind and of a transition, and
//! how the colored verification net answers them.
use vstd::prelude::*;

use super::kinds::{ControlSub, CvnTransition, PlaceKind, TransitionKind};

verus! {

/// What the analyses ask of a place: whether it holds a resource, and
/// whether a token resting on it has finished.
pub trait PlaceRole {
    /// Whether the place holds a resource.
    fn is_resource(&self) -> bool;

    /// Whether a token on the place has finished its thread.
    fn is_terminal(&self) -> bool;
}

/// What the analyses ask of a transition.
pub trait TransitionRole {
    /// Whether it takes a token off a resource.
    fn is_acquire(&self) -> bool;

    /// Whether it gives a token back to a resource.
    fn is_release(&self) -> bool;

    /// Whether it starts a thread.
    fn is_thread_spawn(&self) -> bool;

    /// Whether it waits for a thread to finish.
    fn is_thread_join(&self) -> bool;

    /// Whether it is an atomic operation.
    fn is_atomic(&self) -> bool;

    /// Whether it is an unsafe memory access.
    fn is_unsafe_access(&self) -> bool;
}

impl PlaceRole for PlaceKind {
    /// Resource places are the resource ones.
    fn is_resource(&self) -> (r: bool)
        ensures
            r == (*self is Resource),
    {
        match self {
            PlaceKind::Resource(_) => true,
            PlaceKind::Control(_) => false,
        }
    }

    /// Only the end of a function is terminal: it is where a spawned
    /// function's thread ends.
    fn is_terminal(&self) -> (r: bool)
        ensures
            r == (*self == PlaceKind::Control(ControlSub::FunctionEnd)),
    {
        match self {
            PlaceKind::Control(ControlSub::FunctionEnd) => true,
            _ => false,
        }
    }
}

/// The kinds that take a token off a resource: locking, acquiring, receiving
/// from a channel and reacquiring after a condition wait.
pub open spec fn acquires(kind: TransitionKind) -> bool {
    match kind {
        TransitionKind::Lock | TransitionKind::ReadLock | TransitionKind::Acquire | TransitionKind::Recv
        | TransitionKind::CondvarReacquire => true,
        _ => false,
    }
}

/// The kinds that give a token back: unlocking, releasing, sending, and
/// entering a condition wait, which gives the lock back.
pub open spec fn releases(kind: TransitionKind) -> bool {
    match kind {
        TransitionKind::Unlock | TransitionKind::ReadUnlock | TransitionKind::Release | TransitionKind::Send
        | TransitionKind::CondvarWaitEnter => true,
        _ => false,
    }
}

/// The atomic kinds.
pub open spec fn atomic_kind(kind: TransitionKind) -> bool {
    match kind {
        TransitionKind::AtomicLoad | TransitionKind::AtomicStore | TransitionKind::AtomicCmpXchg
        | TransitionKind::CasSuccess | TransitionKind::CasFailure => true,
        _ => false,
    }
}

/// The unsafe-access kinds.
pub open spec fn unsafe_kind(kind: TransitionKind) -> bool {
    match kind {
        TransitionKind::UnsafeRead | TransitionKind::UnsafeWrite | TransitionKind::UnsafeAccess => true,
        _ => false,
    }
}

impl TransitionRole for CvnTransition {
    fn is_acquire(&self) -> (r: bool)
        ensures
            r == acquires(self.kind),
    {
        match &self.kind {
            TransitionKind::Lock | TransitionKind::ReadLock | TransitionKind::Acquire | TransitionKind::Recv
            | TransitionKind::CondvarReacquire => true,
            _ => false,
        }
    }

    fn is_release(&self) -> (r: bool)
        ensures
            r == releases(self.kind),
    {
        match &self.kind {
            TransitionKind::Unlock | TransitionKind::ReadUnlock | TransitionKind::Release | TransitionKind::Send
            | TransitionKind::CondvarWaitEnter => true,
            _ => false,
        }
    }

    fn is_thread_spawn(&self) -> (r: bool)
        ensures
            r == (self.kind is Spawn),
    {
        match &self.kind {
            TransitionKind::Spawn => true,
            _ => false,
        }
    }

    fn is_thread_join(&self) -> (r: bool)
        ensures
            r == (self.kind is Join),
    {
        match &self.kind {
            TransitionKind::Join => true,
            _ => false,
        }
    }

    fn is_atomic(&self) -> (r: bool)
        ensures
            r == atomic_kind(self.kind),
    {
        match &self.kind {
            TransitionKind::AtomicLoad | TransitionKind::AtomicStore | TransitionKind::AtomicCmpXchg
            | TransitionKind::CasSuccess | TransitionKind::CasFailure => true,
            _ => false,
        }
    }

    fn is_unsafe_access(&self) -> (r: bool)
        ensures
            r == unsafe_kind(self.kind),
    {
        match &self.kind {
            TransitionKind::UnsafeRead | TransitionKind::UnsafeWrite | TransitionKind::UnsafeAccess => true,
            _ => false,
        }
    }
}

} // verus!
