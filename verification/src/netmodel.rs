//! A declarative net model: sorted places, guarded transitions with actions
//! and timing, and typed arcs, with the values, patterns and terms they use.
use vstd::prelude::*;

use crate::ids::{PlaceId, TransitionId};

verus! {

/// A name.
pub type Symbol = String;

/// The index of a sort.
pub type SortId = usize;

/// The index of a function.
pub type FuncId = usize;

/// A value domain.
#[derive(Clone, Debug, PartialEq, Eq)]
pub enum Sort {
    Unit,
    Bool,
    Bool3,
    Int { lo: Option<i64>, hi: Option<i64> },
    Enum(Vec<Symbol>),
    Tuple(Vec<SortId>),
    Record(Vec<(Symbol, SortId)>),
    User(Symbol),
}

/// A three-valued truth value.
#[derive(Clone, Copy, Debug, PartialEq, Eq, Hash, Structural)]
pub enum Bool3 {
    False,
    Unknown,
    True,
}

/// A value.
#[derive(Debug, PartialEq, Eq, Hash)]
pub enum Value {
    Unit,
    Bool(bool),
    Bool3(Bool3),
    Int(i64),
    Enum(Symbol),
    Tuple(Vec<Value>),
    Record(Vec<(Symbol, Value)>),
}

/// A token carrying a value.
#[derive(Debug, PartialEq, Eq, Hash)]
pub struct Token {
    pub value: Value,
}

impl Token {
    /// The token carrying `value`.
    pub fn new(value: Value) -> (r: Self)
        ensures
            r.value == value,
    {
        Token { value }
    }
}

/// A pattern an input arc matches a token against.
#[derive(Debug, PartialEq, Eq)]
pub enum Pattern {
    Wildcard,
    Var(Symbol),
    Const(Value),
    Tuple(Vec<Pattern>),
    Record(Vec<(Symbol, Pattern)>),
}

/// A term an output arc produces.
#[derive(Debug, PartialEq, Eq)]
pub enum Term {
    Const(Value),
    Var(Symbol),
    Tuple(Vec<Term>),
    Record(Vec<(Symbol, Term)>),
    Call(FuncId, Vec<Term>),
}

/// A transition guard.
#[derive(Debug, PartialEq, Eq)]
pub enum GuardExpr {
    True,
    Eq(Term, Term),
    Pred(FuncId, Vec<Term>),
    And(Box<GuardExpr>, Box<GuardExpr>),
    Or(Box<GuardExpr>, Box<GuardExpr>),
    Not(Box<GuardExpr>),
}

/// A transition action.
#[derive(Debug, PartialEq, Eq)]
pub enum ActionExpr {
    Noop,
    Let(Symbol, Term),
    AssignGlobal(Symbol, Term),
    Sequence(Vec<ActionExpr>),
}

/// How many tokens a place holds: at most one, or any number.
#[derive(Clone, Debug, PartialEq, Eq)]
pub enum Multiplicity {
    One,
    Many,
}

/// The role of a place or transition.
#[derive(Clone, Debug, PartialEq, Eq)]
pub enum RoleTag {
    Control,
    Resource,
    Terminal,
    Wait,
    Other(Symbol),
}

/// A declared place.
#[derive(Clone, Debug, PartialEq, Eq)]
pub struct PlaceDecl {
    pub id: PlaceId,
    pub name: String,
    pub sort: SortId,
    pub multiplicity: Multiplicity,
    pub role: Option<RoleTag>,
}

/// A firing window.
#[derive(Clone, Debug, PartialEq, Eq)]
pub struct TimingSpec {
    pub earliest: Option<u64>,
    pub latest: Option<u64>,
}

/// A declared transition.
#[derive(Debug, PartialEq, Eq)]
pub struct TransitionDecl {
    pub id: TransitionId,
    pub name: String,
    pub guard: Option<GuardExpr>,
    pub action: Option<ActionExpr>,
    pub priority: Option<u32>,
    pub timing: Option<TimingSpec>,
    pub role: Option<RoleTag>,
}

/// An arc consuming a token that matches `pattern`.
#[derive(Debug, PartialEq, Eq)]
pub struct InputArc {
    pub place: PlaceId,
    pub pattern: Pattern,
}

/// An arc producing the value of `term`.
#[derive(Debug, PartialEq, Eq)]
pub struct OutputArc {
    pub place: PlaceId,
    pub term: Term,
}

/// An arc testing for a token that matches `pattern` without consuming it.
#[derive(Debug, PartialEq, Eq)]
pub struct ReadArc {
    pub place: PlaceId,
    pub pattern: Pattern,
}

/// An arc forbidding a token that matches `pattern`.
#[derive(Debug, PartialEq, Eq)]
pub struct InhibitorArc {
    pub place: PlaceId,
    pub pattern: Pattern,
}

/// An arc emptying a place.
#[derive(Clone, Debug, PartialEq, Eq)]
pub struct ResetArc {
    pub place: PlaceId,
}

/// An arc of a transition.
#[derive(Debug, PartialEq, Eq)]
pub enum ArcDecl {
    Input { transition: TransitionId, arc: InputArc },
    Output { transition: TransitionId, arc: OutputArc },
    Read { transition: TransitionId, arc: ReadArc },
    Inhibitor { transition: TransitionId, arc: InhibitorArc },
    Reset { transition: TransitionId, arc: ResetArc },
}

/// A net model: places, transitions, arcs and sorts.
#[derive(Debug, PartialEq, Eq)]
pub struct NetModel {
    pub places: Vec<PlaceDecl>,
    pub transitions: Vec<TransitionDecl>,
    pub arcs: Vec<ArcDecl>,
    pub sorts: Vec<Sort>,
}

impl Default for NetModel {
    fn default() -> (r: Self)
        ensures
            r.places@.len() == 0,
            r.transitions@.len() == 0,
            r.arcs@.len() == 0,
            r.sorts@.len() == 0,
    {
        NetModel { places: Vec::new(), transitions: Vec::new(), arcs: Vec::new(), sorts: Vec::new() }
    }
}

/// The input arcs of transition `t` among `arcs`, in order.
pub open spec fn input_arcs_of(arcs: Seq<ArcDecl>, t: TransitionId) -> Seq<InputArc>
    decreases arcs.len(),
{
    if arcs.len() == 0 {
        Seq::empty()
    } else {
        let prev = input_arcs_of(arcs.drop_last(), t);
        match arcs.last() {
            ArcDecl::Input { transition, arc } => if transition == t {
                prev.push(arc)
            } else {
                prev
            },
            _ => prev,
        }
    }
}

/// The output arcs of transition `t` among `arcs`, in order.
pub open spec fn output_arcs_of(arcs: Seq<ArcDecl>, t: TransitionId) -> Seq<OutputArc>
    decreases arcs.len(),
{
    if arcs.len() == 0 {
        Seq::empty()
    } else {
        let prev = output_arcs_of(arcs.drop_last(), t);
        match arcs.last() {
            ArcDecl::Output { transition, arc } => if transition == t {
                prev.push(arc)
            } else {
                prev
            },
            _ => prev,
        }
    }
}

/// The read arcs of transition `t` among `arcs`, in order.
pub open spec fn read_arcs_of(arcs: Seq<ArcDecl>, t: TransitionId) -> Seq<ReadArc>
    decreases arcs.len(),
{
    if arcs.len() == 0 {
        Seq::empty()
    } else {
        let prev = read_arcs_of(arcs.drop_last(), t);
        match arcs.last() {
            ArcDecl::Read { transition, arc } => if transition == t {
                prev.push(arc)
            } else {
                prev
            },
            _ => prev,
        }
    }
}

/// The inhibitor arcs of transition `t` among `arcs`, in order.
pub open spec fn inhibitor_arcs_of(arcs: Seq<ArcDecl>, t: TransitionId) -> Seq<InhibitorArc>
    decreases arcs.len(),
{
    if arcs.len() == 0 {
        Seq::empty()
    } else {
        let prev = inhibitor_arcs_of(arcs.drop_last(), t);
        match arcs.last() {
            ArcDecl::Inhibitor { transition, arc } => if transition == t {
                prev.push(arc)
            } else {
                prev
            },
            _ => prev,
        }
    }
}

/// The reset arcs of transition `t` among `arcs`, in order.
pub open spec fn reset_arcs_of(arcs: Seq<ArcDecl>, t: TransitionId) -> Seq<ResetArc>
    decreases arcs.len(),
{
    if arcs.len() == 0 {
        Seq::empty()
    } else {
        let prev = reset_arcs_of(arcs.drop_last(), t);
        match arcs.last() {
            ArcDecl::Reset { transition, arc } => if transition == t {
                prev.push(arc)
            } else {
                prev
            },
            _ => prev,
        }
    }
}

impl NetModel {
    /// Place `id`, if there is one.
    pub fn place(&self, id: PlaceId) -> (r: Option<&PlaceDecl>)
        ensures
            r == if (id.0 as int) < self.places@.len() {
                Some(&self.places@[id.0 as int])
            } else {
                None::<&PlaceDecl>
            },
    {
        if id.index() < self.places.len() {
            Some(&self.places[id.index()])
        } else {
            None
        }
    }

    /// Transition `id`, if there is one.
    pub fn transition(&self, id: TransitionId) -> (r: Option<&TransitionDecl>)
        ensures
            r == if (id.0 as int) < self.transitions@.len() {
                Some(&self.transitions@[id.0 as int])
            } else {
                None::<&TransitionDecl>
            },
    {
        if id.index() < self.transitions.len() {
            Some(&self.transitions[id.index()])
        } else {
            None
        }
    }

    /// The input arcs of transition `t`, in order.
    pub fn input_arcs(&self, t: TransitionId) -> (r: Vec<&InputArc>)
        ensures
            r@.len() == input_arcs_of(self.arcs@, t).len(),
            forall|i: int| 0 <= i < r@.len() ==> *r@[i] == input_arcs_of(self.arcs@, t)[i],
    {
        let mut r: Vec<&InputArc> = Vec::new();
        let n = self.arcs.len();
        let mut k: usize = 0;
        while k < n
            invariant
                k <= n,
                n == self.arcs@.len(),
                r@.len() == input_arcs_of(self.arcs@.take(k as int), t).len(),
                forall|i: int| 0 <= i < r@.len() ==> *r@[i] == input_arcs_of(self.arcs@.take(k as int), t)[i],
            decreases n - k,
        {
            assert(self.arcs@.take(k + 1).drop_last() == self.arcs@.take(k as int));
            match &self.arcs[k] {
                ArcDecl::Input { transition, arc } => {
                    if *transition == t {
                        r.push(arc);
                    }
                },
                _ => {},
            }
            k = k + 1;
        }
        assert(self.arcs@.take(n as int) == self.arcs@);
        r
    }

    /// The output arcs of transition `t`, in order.
    pub fn output_arcs(&self, t: TransitionId) -> (r: Vec<&OutputArc>)
        ensures
            r@.len() == output_arcs_of(self.arcs@, t).len(),
            forall|i: int| 0 <= i < r@.len() ==> *r@[i] == output_arcs_of(self.arcs@, t)[i],
    {
        let mut r: Vec<&OutputArc> = Vec::new();
        let n = self.arcs.len();
        let mut k: usize = 0;
        while k < n
            invariant
                k <= n,
                n == self.arcs@.len(),
                r@.len() == output_arcs_of(self.arcs@.take(k as int), t).len(),
                forall|i: int| 0 <= i < r@.len() ==> *r@[i] == output_arcs_of(self.arcs@.take(k as int), t)[i],
            decreases n - k,
        {
            assert(self.arcs@.take(k + 1).drop_last() == self.arcs@.take(k as int));
            match &self.arcs[k] {
                ArcDecl::Output { transition, arc } => {
                    if *transition == t {
                        r.push(arc);
                    }
                },
                _ => {},
            }
            k = k + 1;
        }
        assert(self.arcs@.take(n as int) == self.arcs@);
        r
    }

    /// The read arcs of transition `t`, in order.
    pub fn read_arcs(&self, t: TransitionId) -> (r: Vec<&ReadArc>)
        ensures
            r@.len() == read_arcs_of(self.arcs@, t).len(),
            forall|i: int| 0 <= i < r@.len() ==> *r@[i] == read_arcs_of(self.arcs@, t)[i],
    {
        let mut r: Vec<&ReadArc> = Vec::new();
        let n = self.arcs.len();
        let mut k: usize = 0;
        while k < n
            invariant
                k <= n,
                n == self.arcs@.len(),
                r@.len() == read_arcs_of(self.arcs@.take(k as int), t).len(),
                forall|i: int| 0 <= i < r@.len() ==> *r@[i] == read_arcs_of(self.arcs@.take(k as int), t)[i],
            decreases n - k,
        {
            assert(self.arcs@.take(k + 1).drop_last() == self.arcs@.take(k as int));
            match &self.arcs[k] {
                ArcDecl::Read { transition, arc } => {
                    if *transition == t {
                        r.push(arc);
                    }
                },
                _ => {},
            }
            k = k + 1;
        }
        assert(self.arcs@.take(n as int) == self.arcs@);
        r
    }

    /// The inhibitor arcs of transition `t`, in order.
    pub fn inhibitor_arcs(&self, t: TransitionId) -> (r: Vec<&InhibitorArc>)
        ensures
            r@.len() == inhibitor_arcs_of(self.arcs@, t).len(),
            forall|i: int| 0 <= i < r@.len() ==> *r@[i] == inhibitor_arcs_of(self.arcs@, t)[i],
    {
        let mut r: Vec<&InhibitorArc> = Vec::new();
        let n = self.arcs.len();
        let mut k: usize = 0;
        while k < n
            invariant
                k <= n,
                n == self.arcs@.len(),
                r@.len() == inhibitor_arcs_of(self.arcs@.take(k as int), t).len(),
                forall|i: int| 0 <= i < r@.len() ==> *r@[i] == inhibitor_arcs_of(self.arcs@.take(k as int), t)[i],
            decreases n - k,
        {
            assert(self.arcs@.take(k + 1).drop_last() == self.arcs@.take(k as int));
            match &self.arcs[k] {
                ArcDecl::Inhibitor { transition, arc } => {
                    if *transition == t {
                        r.push(arc);
                    }
                },
                _ => {},
            }
            k = k + 1;
        }
        assert(self.arcs@.take(n as int) == self.arcs@);
        r
    }

    /// The reset arcs of transition `t`, in order.
    pub fn reset_arcs(&self, t: TransitionId) -> (r: Vec<&ResetArc>)
        ensures
            r@.len() == reset_arcs_of(self.arcs@, t).len(),
            forall|i: int| 0 <= i < r@.len() ==> *r@[i] == reset_arcs_of(self.arcs@, t)[i],
    {
        let mut r: Vec<&ResetArc> = Vec::new();
        let n = self.arcs.len();
        let mut k: usize = 0;
        while k < n
            invariant
                k <= n,
                n == self.arcs@.len(),
                r@.len() == reset_arcs_of(self.arcs@.take(k as int), t).len(),
                forall|i: int| 0 <= i < r@.len() ==> *r@[i] == reset_arcs_of(self.arcs@.take(k as int), t)[i],
            decreases n - k,
        {
            assert(self.arcs@.take(k + 1).drop_last() == self.arcs@.take(k as int));
            match &self.arcs[k] {
                ArcDecl::Reset { transition, arc } => {
                    if *transition == t {
                        r.push(arc);
                    }
                },
                _ => {},
            }
            k = k + 1;
        }
        assert(self.arcs@.take(n as int) == self.arcs@);
        r
    }
}

} // verus!
