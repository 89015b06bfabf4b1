//! Transition names and classifications of a concurrency verification net.
use smallvec::SmallVec;
use vstd::prelude::*;

verus! {

/// The name of a transition.
#[derive(Clone, Debug, PartialEq, Eq, Hash)]
pub struct TransitionId(pub String);

impl TransitionId {
    /// The transition named `id`.
    pub fn new(id: &str) -> (r: Self)
        ensures
            r.0@ == id@,
    {
        TransitionId(id.to_owned())
    }
}

/// What a transition does, for display only: its behaviour comes from its
/// arcs.
#[derive(Clone, Debug, PartialEq, Eq, Hash)]
pub enum TransitionKind {
    Sequential,
    Lock,
    Unlock,
    Send,
    Recv,
    VarWrite,
    BranchTrue,
    BranchFalse,
    Switch { label: String },
    CasSuccess,
    CasFailure,
    Spawn,
    Join,
    Call,
    CondvarWait,
    CondvarNotify { target_wait_place: String },
    CondvarNotifyAll,
    Return,
}

/// The statements a transition stands for, kept in a small vector.
#[verifier::external_body]
#[derive(Debug)]
pub struct Anchors {
    list: SmallVec<[String; 2]>,
}

/// The strings a list of anchors holds, in order.
pub uninterp spec fn anchor_list(anchors: Anchors) -> Seq<Seq<char>>;

impl Clone for Anchors {
    /// `Clone` for `SmallVec`, which clones the strings in their order.
    #[verifier::external_body]
    fn clone(&self) -> (r: Self)
        ensures
            anchor_list(r) == anchor_list(*self),
    {
        Anchors { list: self.list.clone() }
    }
}

impl Anchors {
    /// `SmallVec::from_vec`, which moves the items of `v` into a small
    /// vector in their order: the anchors hold the strings of `v`.
    #[verifier::external_body]
    pub fn from_vec(v: Vec<String>) -> (r: Anchors)
        ensures
            anchor_list(r) == v@.map_values(|s: String| s@),
    {
        Anchors { list: SmallVec::from_vec(v) }
    }
}

/// A transition: its name, its classification, and the source statements
/// it stands for.
#[derive(Clone, Debug)]
pub struct Transition {
    pub id: TransitionId,
    pub kind: TransitionKind,
    pub anchor_sids: Anchors,
}

impl Transition {
    /// The transition `id` of kind `kind`, anchored to the statements `sids`
    /// in their order.
    pub fn new(id: TransitionId, kind: TransitionKind, sids: Vec<String>) -> (r: Self)
        ensures
            r.id == id,
            r.kind == kind,
            anchor_list(r.anchor_sids) == sids@.map_values(|s: String| s@),
    {
        Transition { id, kind, anchor_sids: Anchors::from_vec(sids) }
    }

    /// Whether this is a return transition.
    pub fn is_return(&self) -> (r: bool)
        ensures
            r == self.kind is Return,
    {
        matches!(self.kind, TransitionKind::Return)
    }
}

} // verus!
