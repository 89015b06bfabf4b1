//! The kinds of the colored verification net's places and transitions, and
//! the transition payload with its source attribution.
use vstd::prelude::*;

verus! {

/// A place is a control-flow point or a resource.
#[derive(Clone, Copy, Debug, PartialEq, Eq, Hash, Structural)]
pub enum PlaceKind {
    Control(ControlSub),
    Resource(ResourceType),
}

/// The role of a control-flow place.
#[derive(Clone, Copy, Debug, PartialEq, Eq, Hash, Structural)]
pub enum ControlSub {
    /// A point in the control flow: one statement or one basic block.
    BasicBlock,
    FunctionStart,
    /// Where a function's control comes to rest, and so also where a
    /// spawned function's thread ends.
    FunctionEnd,
    /// Waiting for a callee to return.
    CallWait,
    /// Waiting on a condition variable.
    WaitPoint,
}

/// The kind of a resource place, which fixes how many tokens it may hold.
#[derive(Clone, Copy, Debug, PartialEq, Eq, Hash, Structural)]
pub enum ResourceType {
    Mutex,
    RwLock { max_readers: usize },
    Semaphore { count: usize },
    Channel,
    Condvar,
}

/// What a transition does; firing itself is decided by the arcs.
#[derive(Clone, Debug, PartialEq, Eq, Hash)]
pub enum TransitionKind {
    Sequential,
    Goto,
    FunctionEnter,
    FunctionExit,
    Return,
    Drop,
    BranchTrue,
    BranchFalse,
    Switch { label: String },
    Lock,
    Unlock,
    ReadLock,
    ReadUnlock,
    Acquire,
    Release,
    Send,
    Recv,
    VarRead,
    VarWrite,
    AtomicLoad,
    AtomicStore,
    AtomicCmpXchg,
    CasSuccess,
    CasFailure,
    UnsafeRead,
    UnsafeWrite,
    UnsafeAccess,
    Spawn,
    Join,
    Call,
    CondvarWaitEnter,
    CondvarWakeByNotify,
    CondvarWakeByNotifyAll,
    CondvarReacquire,
    CondvarNotify,
    CondvarNotifyLost,
    CondvarNotifyAll,
    CondvarNotifyAllLost,
    TestBarrier,
    TestInject,
    TestPoint,
    Other(String),
}

/// A transition: its kind with the function it comes from, the source
/// anchors it maps back to, and the disjunctive family it belongs to.
#[derive(Clone, Debug, PartialEq, Eq, Hash)]
pub struct CvnTransition {
    pub kind: TransitionKind,
    pub scope: Option<String>,
    pub anchors: Vec<String>,
    pub family: Option<String>,
}

impl CvnTransition {
    /// A transition of kind `kind` with no source attribution yet.
    pub fn new(kind: TransitionKind) -> (r: Self)
        ensures
            r.kind == kind,
            r.scope is None,
            r.anchors@.len() == 0,
            r.family is None,
    {
        CvnTransition { kind, scope: None, anchors: Vec::new(), family: None }
    }
}

impl PlaceKind {
    /// The number of tokens a place of this kind may hold: one for a mutex,
    /// the reader limit of a read-write lock, the count of a semaphore; no
    /// bound for control places, channels and condition variables.
    pub fn capacity(&self) -> (r: Option<usize>)
        ensures
            r == match *self {
                PlaceKind::Resource(ResourceType::Mutex) => Some(1usize),
                PlaceKind::Resource(ResourceType::RwLock { max_readers }) => Some(max_readers),
                PlaceKind::Resource(ResourceType::Semaphore { count }) => Some(count),
                _ => None,
            },
    {
        match self {
            PlaceKind::Resource(ResourceType::Mutex) => Some(1),
            PlaceKind::Resource(ResourceType::RwLock { max_readers }) => Some(*max_readers),
            PlaceKind::Resource(ResourceType::Semaphore { count }) => Some(*count),
            _ => None,
        }
    }
}

} // verus!
