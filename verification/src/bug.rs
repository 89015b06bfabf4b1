//! Bug-detection metadata attached to the places and transitions of a P/T
//! net lowered from a concurrent program.
use vstd::prelude::*;

use crate::ids::{PlaceId, TransitionId};
use crate::pt::{PtModelError, PtNet, PtPlace, PtTransition};

verus! {

/// A memory alias class.
#[derive(Clone, Copy, Debug, PartialEq, Eq, Hash, Structural)]
pub struct AliasId(pub u64);

/// A thread of the analysed program.
#[derive(Clone, Copy, Debug, PartialEq, Eq, Hash, Structural)]
pub struct ThreadId(pub u64);

/// A synchronization resource of the analysed program.
#[derive(Clone, Copy, Debug, PartialEq, Eq, Hash, Structural)]
pub struct ResourceId(pub u64);

/// A position in a source file.
#[derive(Debug, PartialEq, Eq, Hash)]
pub struct SourceLocation {
    pub file: String,
    pub line: u32,
    pub column: u32,
}

impl SourceLocation {
    /// The position `line:column` of `file`.
    pub fn new(file: String, line: u32, column: u32) -> (r: Self)
        ensures
            r.file@ == file@,
            r.line == line,
            r.column == column,
    {
        SourceLocation { file, line, column }
    }
}

/// An unsafe memory access.
#[derive(Debug, PartialEq, Eq, Hash)]
pub struct UnsafeOp {
    pub alias: AliasId,
    pub is_write: bool,
    pub span: Option<SourceLocation>,
    pub basic_block: usize,
    pub ty: String,
}

/// What a place of a lowered program stands for.
#[derive(Debug, PartialEq, Eq, Hash)]
pub enum PlaceType {
    Resource,
    FunctionStart,
    FunctionEnd,
    BasicBlock,
    Other(String),
}

/// A memory ordering of an atomic access.
#[derive(Clone, Copy, Debug, PartialEq, Eq, Hash, Structural)]
pub enum AtomicOrdering {
    Relaxed,
    Acquire,
    Release,
    AcqRel,
    SeqCst,
}

/// What a transition of a lowered program stands for.
#[derive(Debug, PartialEq, Eq, Hash)]
pub enum TransitionType {
    Start { thread: ThreadId },
    Goto,
    Switch,
    Return { thread: ThreadId },
    Lock { resource: ResourceId },
    Unlock { resource: ResourceId },
    RwLockRead { resource: ResourceId },
    RwLockWrite { resource: ResourceId },
    Wait { resource: ResourceId },
    Notify { resource: ResourceId },
    Spawn { thread: ThreadId },
    Join { thread: ThreadId },
    UnsafeRead(UnsafeOp),
    UnsafeWrite(UnsafeOp),
    UnsafeAccess(Vec<UnsafeOp>),
    AtomicLoad { alias: AliasId, ordering: AtomicOrdering, thread: ThreadId },
    AtomicStore { alias: AliasId, ordering: AtomicOrdering, thread: ThreadId },
    AtomicCmpXchg {
        alias: AliasId,
        success: AtomicOrdering,
        failure: AtomicOrdering,
        thread: ThreadId,
    },
    Function,
    Normal,
    Inhibitor,
    Reset,
    Other(String),
}

/// The metadata of one place.
#[derive(Debug, PartialEq, Eq, Hash)]
pub struct PlaceMetadata {
    pub place_type: PlaceType,
    pub span: Option<SourceLocation>,
}

/// The metadata of one transition.
#[derive(Debug, PartialEq, Eq, Hash)]
pub struct TransitionMetadata {
    pub transition_type: TransitionType,
    pub span: Option<SourceLocation>,
}

impl Clone for SourceLocation {
    fn clone(&self) -> (r: Self)
        ensures
            r == *self,
    {
        SourceLocation { file: self.file.clone(), line: self.line, column: self.column }
    }
}

impl Clone for UnsafeOp {
    fn clone(&self) -> (r: Self)
        ensures
            r == *self,
    {
        UnsafeOp {
            alias: self.alias,
            is_write: self.is_write,
            span: self.span.clone(),
            basic_block: self.basic_block,
            ty: self.ty.clone(),
        }
    }
}

impl Clone for PlaceType {
    fn clone(&self) -> (r: Self)
        ensures
            r == *self,
    {
        match self {
            PlaceType::Resource => PlaceType::Resource,
            PlaceType::FunctionStart => PlaceType::FunctionStart,
            PlaceType::FunctionEnd => PlaceType::FunctionEnd,
            PlaceType::BasicBlock => PlaceType::BasicBlock,
            PlaceType::Other(s) => PlaceType::Other(s.clone()),
        }
    }
}

/// A copy of a list of unsafe accesses.
fn clone_ops(ops: &Vec<UnsafeOp>) -> (r: Vec<UnsafeOp>)
    ensures
        r@ == ops@,
{
    let mut r: Vec<UnsafeOp> = Vec::new();
    for i in 0..ops.len()
        invariant
            r@ == ops@.take(i as int),
    {
        r.push(ops[i].clone());
        assert(ops@.take(i + 1) == ops@.take(i as int).push(ops@[i as int]));
    }
    assert(ops@.take(ops@.len() as int) == ops@);
    r
}

impl TransitionType {
    /// Whether two transition types have the same contents, lists of
    /// accesses compared element by element.
    pub open spec fn same_as(self, other: TransitionType) -> bool {
        match (self, other) {
            (TransitionType::UnsafeAccess(a), TransitionType::UnsafeAccess(b)) => a@ == b@,
            _ => self == other,
        }
    }
}

impl Clone for TransitionType {
    fn clone(&self) -> (r: Self)
        ensures
            r.same_as(*self),
    {
        match self {
            TransitionType::Start { thread } => TransitionType::Start { thread: *thread },
            TransitionType::Goto => TransitionType::Goto,
            TransitionType::Switch => TransitionType::Switch,
            TransitionType::Return { thread } => TransitionType::Return { thread: *thread },
            TransitionType::Lock { resource } => TransitionType::Lock { resource: *resource },
            TransitionType::Unlock { resource } => TransitionType::Unlock { resource: *resource },
            TransitionType::RwLockRead { resource } => TransitionType::RwLockRead { resource: *resource },
            TransitionType::RwLockWrite { resource } => TransitionType::RwLockWrite {
                resource: *resource,
            },
            TransitionType::Wait { resource } => TransitionType::Wait { resource: *resource },
            TransitionType::Notify { resource } => TransitionType::Notify { resource: *resource },
            TransitionType::Spawn { thread } => TransitionType::Spawn { thread: *thread },
            TransitionType::Join { thread } => TransitionType::Join { thread: *thread },
            TransitionType::UnsafeRead(op) => TransitionType::UnsafeRead(op.clone()),
            TransitionType::UnsafeWrite(op) => TransitionType::UnsafeWrite(op.clone()),
            TransitionType::UnsafeAccess(ops) => TransitionType::UnsafeAccess(clone_ops(ops)),
            TransitionType::AtomicLoad { alias, ordering, thread } => TransitionType::AtomicLoad {
                alias: *alias,
                ordering: *ordering,
                thread: *thread,
            },
            TransitionType::AtomicStore { alias, ordering, thread } => TransitionType::AtomicStore {
                alias: *alias,
                ordering: *ordering,
                thread: *thread,
            },
            TransitionType::AtomicCmpXchg { alias, success, failure, thread } =>
                TransitionType::AtomicCmpXchg {
                alias: *alias,
                success: *success,
                failure: *failure,
                thread: *thread,
            },
            TransitionType::Function => TransitionType::Function,
            TransitionType::Normal => TransitionType::Normal,
            TransitionType::Inhibitor => TransitionType::Inhibitor,
            TransitionType::Reset => TransitionType::Reset,
            TransitionType::Other(s) => TransitionType::Other(s.clone()),
        }
    }
}

impl Clone for PlaceMetadata {
    fn clone(&self) -> (r: Self)
        ensures
            r == *self,
    {
        PlaceMetadata { place_type: self.place_type.clone(), span: self.span.clone() }
    }
}

impl TransitionMetadata {
    /// Whether two metadata entries have the same contents.
    pub open spec fn same_as(self, other: TransitionMetadata) -> bool {
        self.transition_type.same_as(other.transition_type) && self.span == other.span
    }
}

impl Clone for TransitionMetadata {
    fn clone(&self) -> (r: Self)
        ensures
            r.same_as(*self),
    {
        TransitionMetadata { transition_type: self.transition_type.clone(), span: self.span.clone() }
    }
}

/// A P/T net together with one metadata entry per place and per transition.
#[derive(Clone, Debug, PartialEq, Eq)]
pub struct BugNet {
    pub net: PtNet,
    pub places: Vec<PlaceMetadata>,
    pub transitions: Vec<TransitionMetadata>,
}

impl BugNet {
    /// Whether there is exactly one metadata entry per place and per
    /// transition.
    pub open spec fn aligned(&self) -> bool {
        &&& self.places@.len() == self.net.places@.len()
        &&& self.transitions@.len() == self.net.transitions@.len()
    }

    /// The empty net without metadata.
    pub fn new() -> (r: Self)
        ensures
            r.net.places@.len() == 0,
            r.net.transitions@.len() == 0,
            r.net.arcs@.len() == 0,
            r.places@.len() == 0,
            r.transitions@.len() == 0,
    {
        BugNet { net: PtNet::new(), places: Vec::new(), transitions: Vec::new() }
    }

    /// Adds a place with its metadata and returns its identifier.
    pub fn add_place(&mut self, place: PtPlace, metadata: PlaceMetadata) -> (id: PlaceId)
        requires
            old(self).aligned(),
            old(self).net.places@.len() < usize::MAX,
        ensures
            final(self).aligned(),
            id.0 == old(self).net.places@.len(),
            final(self).net.places@ == old(self).net.places@.push(place),
            final(self).net.transitions@ == old(self).net.transitions@,
            final(self).net.arcs@ == old(self).net.arcs@,
            final(self).places@ == old(self).places@.push(metadata),
            final(self).transitions@ == old(self).transitions@,
    {
        let id = self.net.add_place(place);
        self.places.push(metadata);
        id
    }

    /// Adds a transition with its metadata and returns its identifier.
    pub fn add_transition(&mut self, transition: PtTransition, metadata: TransitionMetadata) -> (id:
        TransitionId)
        requires
            old(self).aligned(),
            old(self).net.transitions@.len() < usize::MAX,
        ensures
            final(self).aligned(),
            id.0 == old(self).net.transitions@.len(),
            final(self).net.transitions@ == old(self).net.transitions@.push(transition),
            final(self).net.places@ == old(self).net.places@,
            final(self).net.arcs@ == old(self).net.arcs@,
            final(self).transitions@ == old(self).transitions@.push(metadata),
            final(self).places@ == old(self).places@,
    {
        let id = self.net.add_transition(transition);
        self.transitions.push(metadata);
        id
    }

    /// The metadata of `place`, if there is such a place.
    pub fn place_metadata(&self, place: PlaceId) -> (r: Option<&PlaceMetadata>)
        ensures
            r == if place.0 < self.places@.len() {
                Some(&self.places@[place.0 as int])
            } else {
                None
            },
    {
        if place.index() < self.places.len() {
            Some(&self.places[place.index()])
        } else {
            None
        }
    }

    /// The metadata of `transition`, if there is such a transition.
    pub fn transition_metadata(&self, transition: TransitionId) -> (r: Option<&TransitionMetadata>)
        ensures
            r == if transition.0 < self.transitions@.len() {
                Some(&self.transitions@[transition.0 as int])
            } else {
                None
            },
    {
        if transition.index() < self.transitions.len() {
            Some(&self.transitions[transition.index()])
        } else {
            None
        }
    }

    /// Checks the net, then that the metadata is aligned with it.
    pub fn validate(&self) -> (r: Result<(), PtModelError>)
        ensures
            r == if !self.net.wf() {
                Err(PtModelError::InvalidArc)
            } else if !self.aligned() {
                Err(PtModelError::MetadataLengthMismatch)
            } else {
                Ok(())
            },
    {
        self.net.validate()?;
        if self.places.len() != self.net.places.len() || self.transitions.len()
            != self.net.transitions.len() {
            return Err(PtModelError::MetadataLengthMismatch);
        }
        Ok(())
    }
}

} // verus!
