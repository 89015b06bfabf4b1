//! Values, expressions and guards of the colored verification net: the
//! variable store, value expressions with checked integer arithmetic, and
//! guards evaluated in three-valued logic where `Unknown` absorbs.
//!
//! Floating-point values are held by their IEEE-754 bit patterns; the
//! arithmetic and comparisons on them are supplied by the caller, and the
//! contracts say what every other part of an evaluation gives.
use vstd::prelude::*;

use crate::text::{push_char, push_signed, push_str, signed_decimal, string_of};

verus! {

/// A fully known value.
#[derive(Debug, PartialEq, Eq, Hash)]
pub enum ConcreteVal {
    Bool(bool),
    Int(i64),
    /// A double, by its IEEE-754 bit pattern.
    Float(u64),
    Str(String),
    Enum(String),
}

impl Clone for ConcreteVal {
    fn clone(&self) -> (r: Self)
        ensures
            r == *self,
    {
        match self {
            ConcreteVal::Bool(b) => ConcreteVal::Bool(*b),
            ConcreteVal::Int(i) => ConcreteVal::Int(*i),
            ConcreteVal::Float(f) => ConcreteVal::Float(*f),
            ConcreteVal::Str(s) => ConcreteVal::Str(s.clone()),
            ConcreteVal::Enum(s) => ConcreteVal::Enum(s.clone()),
        }
    }
}

/// A value of the variable store; `Unknown` absorbs every operation.
#[derive(Debug, PartialEq, Eq, Hash)]
pub enum Val {
    Concrete(ConcreteVal),
    Unknown,
}

impl Clone for Val {
    fn clone(&self) -> (r: Self)
        ensures
            r == *self,
    {
        match self {
            Val::Concrete(c) => Val::Concrete(c.clone()),
            Val::Unknown => Val::Unknown,
        }
    }
}

impl Val {
    /// A boolean value.
    pub fn bool(b: bool) -> (r: Self)
        ensures
            r == Val::Concrete(ConcreteVal::Bool(b)),
    {
        Val::Concrete(ConcreteVal::Bool(b))
    }

    /// An integer value.
    pub fn integer(i: i64) -> (r: Self)
        ensures
            r == Val::Concrete(ConcreteVal::Int(i)),
    {
        Val::Concrete(ConcreteVal::Int(i))
    }

    /// A string value.
    pub fn string(s: &str) -> (r: Self)
        ensures
            r matches Val::Concrete(ConcreteVal::Str(t)) && t@ == s@,
    {
        Val::Concrete(ConcreteVal::Str(s.to_owned()))
    }

    /// An enum variant, by name.
    pub fn enum_val(s: &str) -> (r: Self)
        ensures
            r matches Val::Concrete(ConcreteVal::Enum(t)) && t@ == s@,
    {
        Val::Concrete(ConcreteVal::Enum(s.to_owned()))
    }

    /// Whether this value is `Unknown`.
    pub fn is_unknown(&self) -> (r: bool)
        ensures
            r == (*self is Unknown),
    {
        match self {
            Val::Unknown => true,
            Val::Concrete(_) => false,
        }
    }

    /// The concrete value, if there is one.
    pub fn as_concrete(&self) -> (r: Option<&ConcreteVal>)
        ensures
            match *self {
                Val::Concrete(c) => r == Some(&c),
                Val::Unknown => r is None,
            },
    {
        match self {
            Val::Concrete(c) => Some(c),
            Val::Unknown => None,
        }
    }
}

/// An arithmetic operator.
#[derive(Clone, Copy, Debug, PartialEq, Eq, Hash, Structural)]
pub enum Op {
    Add,
    Sub,
    Mul,
    Div,
    Mod,
}

/// A comparison operator.
#[derive(Clone, Copy, Debug, PartialEq, Eq, Hash, Structural)]
pub enum CmpOp {
    Eq,
    Ne,
    Lt,
    Le,
    Gt,
    Ge,
}

/// A value expression.
#[derive(Debug, PartialEq, Eq, Hash)]
pub enum Expr {
    /// A literal.
    Lit(Val),
    /// A variable, looked up in the store.
    Ref(String),
    /// An arithmetic operation.
    BinOp { op: Op, lhs: Box<Expr>, rhs: Box<Expr> },
}

/// A guard, evaluated in three-valued logic.
#[derive(Debug, PartialEq, Eq, Hash)]
pub enum BoolExpr {
    True,
    Cmp { op: CmpOp, lhs: Box<Expr>, rhs: Box<Expr> },
    And(Box<BoolExpr>, Box<BoolExpr>),
    Or(Box<BoolExpr>, Box<BoolExpr>),
    Not(Box<BoolExpr>),
}

/// The result of a guard. `Unknown` counts as satisfied: an evaluation
/// that cannot decide does not disable a transition.
#[derive(Clone, Copy, Debug, PartialEq, Eq, Hash, Structural)]
pub enum GuardResult {
    True,
    False,
    Unknown,
}

impl GuardResult {
    /// Whether the guard is not definitely false.
    pub fn is_not_false(self) -> (r: bool)
        ensures
            r == (self != GuardResult::False),
    {
        self != GuardResult::False
    }
}

/// The variables of a state and their values, each name once.
#[derive(Debug)]
pub struct VarStore {
    entries: Vec<(String, Val)>,
}

/// The map from names to values that `entries` holds, a later entry
/// overriding an earlier one of the same name.
pub open spec fn store_map(entries: Seq<(String, Val)>) -> Map<Seq<char>, Val>
    decreases entries.len(),
{
    if entries.len() == 0 {
        Map::empty()
    } else {
        store_map(entries.drop_last()).insert(entries.last().0@, entries.last().1)
    }
}

/// Whether no two of `entries` share a name.
pub open spec fn names_distinct(entries: Seq<(String, Val)>) -> bool {
    forall|a: int, b: int| 0 <= a < b < entries.len() ==> (#[trigger] entries[a]).0@ != (#[trigger] entries[b]).0@
}

/// With distinct names, the map holds exactly the names of the entries,
/// each with its entry's value.
proof fn lemma_store_map(entries: Seq<(String, Val)>)
    requires
        names_distinct(entries),
    ensures
        forall|k: Seq<char>| #[trigger]
            store_map(entries).contains_key(k) <==> exists|i: int| 0 <= i < entries.len() && entries[i].0@ == k,
        forall|i: int| 0 <= i < entries.len() ==> store_map(entries)[(#[trigger] entries[i]).0@] == entries[i].1,
    decreases entries.len(),
{
    if entries.len() > 0 {
        let init = entries.drop_last();
        assert(names_distinct(init)) by {
            assert forall|a: int, b: int| 0 <= a < b < init.len() implies (#[trigger] init[a]).0@ != (
            #[trigger] init[b]).0@ by {
                assert(init[a] == entries[a]);
                assert(init[b] == entries[b]);
            }
        }
        lemma_store_map(init);
        let n = entries.len() - 1;
        assert forall|k: Seq<char>| #[trigger]
            store_map(entries).contains_key(k) <==> exists|i: int| 0 <= i < entries.len() && entries[i].0@ == k by {
            if store_map(init).contains_key(k) {
                let i = choose|i: int| 0 <= i < init.len() && init[i].0@ == k;
                assert(entries[i] == init[i]);
            }
            if exists|i: int| 0 <= i < entries.len() && entries[i].0@ == k {
                let i = choose|i: int| 0 <= i < entries.len() && entries[i].0@ == k;
                if i < n {
                    assert(init[i] == entries[i]);
                }
            }
        }
        assert forall|i: int| 0 <= i < entries.len() implies store_map(entries)[(#[trigger] entries[i]).0@]
            == entries[i].1 by {
            if i < n {
                assert(init[i] == entries[i]);
                assert(entries[i].0@ != entries[n].0@);
            }
        }
    }
}

impl View for VarStore {
    type V = Map<Seq<char>, Val>;

    closed spec fn view(&self) -> Map<Seq<char>, Val> {
        store_map(self.entries@)
    }
}

impl VarStore {
    spec fn wf(&self) -> bool {
        names_distinct(self.entries@)
    }

    /// The empty store.
    pub fn new() -> (r: Self)
        ensures
            r@ == Map::<Seq<char>, Val>::empty(),
    {
        VarStore { entries: Vec::new() }
    }

    /// The position of `name` among the entries.
    fn position(&self, name: &String) -> (r: Option<usize>)
        ensures
            match r {
                Some(i) => i < self.entries@.len() && self.entries@[i as int].0@ == name@,
                None => forall|i: int| 0 <= i < self.entries@.len() ==> (#[trigger] self.entries@[i]).0@ != name@,
            },
    {
        let n = self.entries.len();
        let mut i: usize = 0;
        while i < n
            invariant
                i <= n,
                n == self.entries@.len(),
                forall|j: int| 0 <= j < i ==> (#[trigger] self.entries@[j]).0@ != name@,
            decreases n - i,
        {
            if self.entries[i].0 == *name {
                return Some(i);
            }
            i = i + 1;
        }
        None
    }

    /// The value of `name`, if it is in the store.
    pub fn get(&self, name: &String) -> (r: Option<&Val>)
        ensures
            match r {
                Some(v) => self@.contains_key(name@) && self@[name@] == *v,
                None => !self@.contains_key(name@),
            },
    {
        proof {
            use_type_invariant(self);
            lemma_store_map(self.entries@);
        }
        match self.position(name) {
            Some(i) => Some(&self.entries[i].1),
            None => None,
        }
    }

    /// Removes `name` from the store.
    pub fn remove(&mut self, name: &String)
        ensures
            final(self)@ == old(self)@.remove(name@),
    {
        proof {
            use_type_invariant(&*self);
            lemma_store_map(self.entries@);
        }
        let ghost before = self.entries@;
        match self.position(name) {
            Some(i) => {
                let mut entries = Vec::new();
                std::mem::swap(&mut entries, &mut self.entries);
                entries.remove(i);
                let ghost after = entries@;
                proof {
                    assert forall|j: int| 0 <= j < after.len() implies #[trigger] after[j] == if j < i {
                        before[j]
                    } else {
                        before[j + 1]
                    } by {}
                    assert(names_distinct(after)) by {
                        assert forall|a: int, b: int| 0 <= a < b < after.len() implies (#[trigger] after[a]).0@ != (
                        #[trigger] after[b]).0@ by {
                            let aa = if a < i { a } else { a + 1 };
                            let bb = if b < i { b } else { b + 1 };
                            assert(after[a] == before[aa]);
                            assert(after[b] == before[bb]);
                        }
                    }
                    lemma_store_map(after);
                    assert forall|k: Seq<char>| #[trigger] store_map(after).contains_key(k)
                        <==> store_map(before).remove(name@).contains_key(k) by {
                        if store_map(after).contains_key(k) {
                            let j = choose|j: int| 0 <= j < after.len() && after[j].0@ == k;
                            let jj = if j < i { j } else { j + 1 };
                            assert(after[j] == before[jj]);
                        }
                        if store_map(before).contains_key(k) && k != name@ {
                            let j = choose|j: int| 0 <= j < before.len() && before[j].0@ == k;
                            if j < i {
                                assert(after[j] == before[j]);
                            } else {
                                assert(j != i);
                                assert(after[j - 1] == before[j]);
                            }
                        }
                    }
                    assert forall|k: Seq<char>| #[trigger] store_map(after).contains_key(k) implies store_map(after)[k]
                        == store_map(before).remove(name@)[k] by {
                        let j = choose|j: int| 0 <= j < after.len() && after[j].0@ == k;
                        let jj = if j < i { j } else { j + 1 };
                        assert(after[j] == before[jj]);
                        assert(store_map(after)[after[j].0@] == after[j].1);
                        assert(store_map(before)[before[jj].0@] == before[jj].1);
                    }
                    assert(store_map(after) =~= store_map(before).remove(name@));
                }
                self.entries = entries;
            },
            None => {
                proof {
                    assert(store_map(before).remove(name@) =~= store_map(before));
                }
            },
        }
    }

    /// Sets `name` to `value`.
    pub fn insert(&mut self, name: String, value: Val)
        ensures
            final(self)@ == old(self)@.insert(name@, value),
    {
        proof {
            use_type_invariant(&*self);
            lemma_store_map(self.entries@);
        }
        let ghost before = self.entries@;
        match self.position(&name) {
            Some(i) => {
                let mut entries = Vec::new();
                std::mem::swap(&mut entries, &mut self.entries);
                entries.set(i, (name, value));
                let ghost after = entries@;
                proof {
                    assert(names_distinct(after)) by {
                        assert forall|a: int, b: int| 0 <= a < b < after.len() implies (#[trigger] after[a]).0@ != (
                        #[trigger] after[b]).0@ by {
                            if a != i && b != i {
                                assert(after[a] == before[a]);
                                assert(after[b] == before[b]);
                            } else if a == i {
                                assert(after[b] == before[b]);
                            } else {
                                assert(after[a] == before[a]);
                            }
                        }
                    }
                    lemma_store_map(after);
                    assert(store_map(after) =~= store_map(before).insert(name@, value)) by {
                        assert forall|k: Seq<char>| #[trigger] store_map(after).contains_key(k)
                            <==> store_map(before).insert(name@, value).contains_key(k) by {
                            if store_map(after).contains_key(k) {
                                let j = choose|j: int| 0 <= j < after.len() && after[j].0@ == k;
                                if j != i {
                                    assert(before[j] == after[j]);
                                }
                            }
                            if store_map(before).contains_key(k) {
                                let j = choose|j: int| 0 <= j < before.len() && before[j].0@ == k;
                                if j != i {
                                    assert(before[j] == after[j]);
                                } else {
                                    assert(after[j].0@ == k);
                                }
                            }
                            if k == name@ {
                                assert(after[i as int].0@ == k);
                            }
                        }
                        assert forall|k: Seq<char>| #[trigger] store_map(after).contains_key(k) implies store_map(
                            after,
                        )[k] == store_map(before).insert(name@, value)[k] by {
                            let j = choose|j: int| 0 <= j < after.len() && after[j].0@ == k;
                            if j != i {
                                assert(before[j] == after[j]);
                                assert(store_map(after)[after[j].0@] == after[j].1);
                                assert(store_map(before)[before[j].0@] == before[j].1);
                            } else {
                                assert(store_map(after)[after[j].0@] == after[j].1);
                            }
                        }
                    }
                }
                self.entries = entries;
            },
            None => {
                let mut entries = Vec::new();
                std::mem::swap(&mut entries, &mut self.entries);
                entries.push((name, value));
                proof {
                    let after = entries@;
                    assert(after.drop_last() == before);
                    assert(names_distinct(after)) by {
                        assert forall|a: int, b: int| 0 <= a < b < after.len() implies (#[trigger] after[a]).0@ != (
                        #[trigger] after[b]).0@ by {
                            assert(after[a] == before[a]);
                            if b < before.len() {
                                assert(after[b] == before[b]);
                            }
                        }
                    }
                }
                self.entries = entries;
            },
        }
    }
}

impl Clone for VarStore {
    fn clone(&self) -> (r: Self)
        ensures
            r@ == self@,
    {
        proof {
            use_type_invariant(self);
        }
        let mut entries: Vec<(String, Val)> = Vec::new();
        let n = self.entries.len();
        let mut i: usize = 0;
        while i < n
            invariant
                i <= n,
                n == self.entries@.len(),
                entries@ == self.entries@.take(i as int),
            decreases n - i,
        {
            let (name, value) = &self.entries[i];
            entries.push((name.clone(), value.clone()));
            assert(self.entries@.take(i + 1) == self.entries@.take(i as int).push(self.entries@[i as int]));
            i = i + 1;
        }
        assert(self.entries@.take(n as int) == self.entries@);
        VarStore { entries }
    }
}

impl VarStore {
    #[verifier::type_invariant]
    spec fn inv(&self) -> bool {
        self.wf()
    }
}

/// The value of `name` in `vars`; `Unknown` when it is not there.
pub open spec fn lookup(vars: Map<Seq<char>, Val>, name: Seq<char>) -> Val {
    if vars.contains_key(name) {
        vars[name]
    } else {
        Val::Unknown
    }
}

/// The result of `a op b` on integers; none when it overflows or divides
/// by zero.
pub open spec fn int_binop(op: Op, a: i64, b: i64) -> Option<i64> {
    match op {
        Op::Add => a.checked_add(b),
        Op::Sub => a.checked_sub(b),
        Op::Mul => a.checked_mul(b),
        Op::Div => a.checked_div(b),
        Op::Mod => a.checked_rem(b),
    }
}

/// Whether a value known to the contracts is a floating-point one; none
/// stands for a floating-point value whose bits the caller computed.
pub open spec fn is_float(v: Option<Val>) -> bool {
    match v {
        None => true,
        Some(Val::Concrete(ConcreteVal::Float(_))) => true,
        _ => false,
    }
}

/// The result of an arithmetic operator: integers give their checked
/// result, or `Unknown` when there is none; two doubles give a double
/// (none here); any other pair gives `Unknown`.
pub open spec fn binop_value(op: Op, a: Option<Val>, b: Option<Val>) -> Option<Val> {
    match (a, b) {
        (Some(Val::Concrete(ConcreteVal::Int(x))), Some(Val::Concrete(ConcreteVal::Int(y)))) => Some(
            match int_binop(op, x, y) {
                Some(z) => Val::Concrete(ConcreteVal::Int(z)),
                None => Val::Unknown,
            },
        ),
        _ => if is_float(a) && is_float(b) {
            None
        } else {
            Some(Val::Unknown)
        },
    }
}

/// The value of `expr` under `vars`; none when it is a double computed by
/// floating-point arithmetic.
pub open spec fn expr_value(expr: Expr, vars: Map<Seq<char>, Val>) -> Option<Val>
    decreases expr,
{
    match expr {
        Expr::Lit(v) => Some(v),
        Expr::Ref(name) => Some(lookup(vars, name@)),
        Expr::BinOp { op, lhs, rhs } => binop_value(op, expr_value(*lhs, vars), expr_value(*rhs, vars)),
    }
}

/// Whether `x` is the value that `s` describes.
pub open spec fn conforms(x: Val, s: Option<Val>) -> bool {
    match s {
        Some(v) => x == v,
        None => x matches Val::Concrete(ConcreteVal::Float(_)),
    }
}

/// The comparison of two concrete values other than two doubles: integers
/// by any operator; booleans, strings and enum names by equality; values of
/// different kinds compare false.
pub open spec fn concrete_cmp(op: CmpOp, a: ConcreteVal, b: ConcreteVal) -> bool {
    match (a, b) {
        (ConcreteVal::Int(x), ConcreteVal::Int(y)) => match op {
            CmpOp::Eq => x == y,
            CmpOp::Ne => x != y,
            CmpOp::Lt => x < y,
            CmpOp::Le => x <= y,
            CmpOp::Gt => x > y,
            CmpOp::Ge => x >= y,
        },
        (ConcreteVal::Bool(x), ConcreteVal::Bool(y)) => match op {
            CmpOp::Eq => x == y,
            CmpOp::Ne => x != y,
            _ => false,
        },
        (ConcreteVal::Str(x), ConcreteVal::Str(y)) => match op {
            CmpOp::Eq => x@ == y@,
            CmpOp::Ne => x@ != y@,
            _ => false,
        },
        (ConcreteVal::Enum(x), ConcreteVal::Enum(y)) => match op {
            CmpOp::Eq => x@ == y@,
            CmpOp::Ne => x@ != y@,
            _ => false,
        },
        _ => false,
    }
}

/// The result of comparing two values: `Unknown` when either is unknown,
/// none when both are doubles, else the concrete comparison.
pub open spec fn cmp_value(op: CmpOp, a: Option<Val>, b: Option<Val>) -> Option<GuardResult> {
    if a == Some(Val::Unknown) || b == Some(Val::Unknown) {
        Some(GuardResult::Unknown)
    } else if is_float(a) && is_float(b) {
        None
    } else if is_float(a) || is_float(b) {
        Some(GuardResult::False)
    } else {
        let x = a->Some_0->Concrete_0;
        let y = b->Some_0->Concrete_0;
        Some(
            if concrete_cmp(op, x, y) {
                GuardResult::True
            } else {
                GuardResult::False
            },
        )
    }
}

/// Three-valued conjunction: false when either side is, true when both
/// are, else unknown; none when a side that decides is unknown here.
pub open spec fn and_value(a: Option<GuardResult>, b: Option<GuardResult>) -> Option<GuardResult> {
    if a == Some(GuardResult::False) || b == Some(GuardResult::False) {
        Some(GuardResult::False)
    } else if a is None || b is None {
        None
    } else if a == Some(GuardResult::True) && b == Some(GuardResult::True) {
        Some(GuardResult::True)
    } else {
        Some(GuardResult::Unknown)
    }
}

/// Three-valued disjunction: true when either side is, false when both
/// are, else unknown; none when a side that decides is unknown here.
pub open spec fn or_value(a: Option<GuardResult>, b: Option<GuardResult>) -> Option<GuardResult> {
    if a == Some(GuardResult::True) || b == Some(GuardResult::True) {
        Some(GuardResult::True)
    } else if a is None || b is None {
        None
    } else if a == Some(GuardResult::False) && b == Some(GuardResult::False) {
        Some(GuardResult::False)
    } else {
        Some(GuardResult::Unknown)
    }
}

/// Three-valued negation.
pub open spec fn not_value(a: Option<GuardResult>) -> Option<GuardResult> {
    match a {
        Some(GuardResult::True) => Some(GuardResult::False),
        Some(GuardResult::False) => Some(GuardResult::True),
        Some(GuardResult::Unknown) => Some(GuardResult::Unknown),
        None => None,
    }
}

/// The result of `guard` under `vars`; none when it turns on a comparison
/// of doubles.
pub open spec fn guard_value(guard: BoolExpr, vars: Map<Seq<char>, Val>) -> Option<GuardResult>
    decreases guard,
{
    match guard {
        BoolExpr::True => Some(GuardResult::True),
        BoolExpr::Cmp { op, lhs, rhs } => cmp_value(op, expr_value(*lhs, vars), expr_value(*rhs, vars)),
        BoolExpr::And(a, b) => and_value(guard_value(*a, vars), guard_value(*b, vars)),
        BoolExpr::Or(a, b) => or_value(guard_value(*a, vars), guard_value(*b, vars)),
        BoolExpr::Not(a) => not_value(guard_value(*a, vars)),
    }
}

/// Whether the closure `float_arith` computes the spec function `fa`:
/// whatever it returns on `(op, a, b)` is `fa(op, a, b)`.
pub open spec fn computes_arith<F: Fn(Op, u64, u64) -> u64>(float_arith: F, fa: spec_fn(Op, u64, u64) -> u64) -> bool {
    forall|op: Op, a: u64, b: u64, z: u64| #[trigger] float_arith.ensures((op, a, b), z) ==> z == fa(op, a, b)
}

/// Whether the closure `float_compare` computes the spec function `fc`.
pub open spec fn computes_compare<C: Fn(CmpOp, u64, u64) -> bool>(float_compare: C, fc: spec_fn(CmpOp, u64, u64) -> bool) -> bool {
    forall|op: CmpOp, a: u64, b: u64, z: bool| #[trigger] float_compare.ensures((op, a, b), z) ==> z == fc(op, a, b)
}

/// `a op b` on two evaluated values, with `fa` as the arithmetic on two
/// doubles (by bit pattern); any other pair as `binop_value` gives it.
pub open spec fn binop_with(op: Op, a: Val, b: Val, fa: spec_fn(Op, u64, u64) -> u64) -> Val {
    match (a, b) {
        (Val::Concrete(ConcreteVal::Float(x)), Val::Concrete(ConcreteVal::Float(y))) => Val::Concrete(
            ConcreteVal::Float(fa(op, x, y)),
        ),
        _ => binop_value(op, Some(a), Some(b))->Some_0,
    }
}

/// The value of `expr` under `vars`, with `fa` as the arithmetic on doubles.
pub open spec fn expr_value_with(expr: Expr, vars: Map<Seq<char>, Val>, fa: spec_fn(Op, u64, u64) -> u64) -> Val
    decreases expr,
{
    match expr {
        Expr::Lit(v) => v,
        Expr::Ref(name) => lookup(vars, name@),
        Expr::BinOp { op, lhs, rhs } => binop_with(op, expr_value_with(*lhs, vars, fa), expr_value_with(*rhs, vars, fa), fa),
    }
}

/// The comparison of two evaluated values, with `fc` as the comparison of
/// two doubles (by bit pattern); any other pair as `cmp_value` gives it.
pub open spec fn cmp_with(op: CmpOp, a: Val, b: Val, fc: spec_fn(CmpOp, u64, u64) -> bool) -> GuardResult {
    match (a, b) {
        (Val::Concrete(ConcreteVal::Float(x)), Val::Concrete(ConcreteVal::Float(y))) => if fc(op, x, y) {
            GuardResult::True
        } else {
            GuardResult::False
        },
        _ => cmp_value(op, Some(a), Some(b))->Some_0,
    }
}

/// The three-valued conjunction of two known results.
pub open spec fn and_of(a: GuardResult, b: GuardResult) -> GuardResult {
    if a == GuardResult::False || b == GuardResult::False {
        GuardResult::False
    } else if a == GuardResult::True && b == GuardResult::True {
        GuardResult::True
    } else {
        GuardResult::Unknown
    }
}

/// The three-valued disjunction of two known results.
pub open spec fn or_of(a: GuardResult, b: GuardResult) -> GuardResult {
    if a == GuardResult::True || b == GuardResult::True {
        GuardResult::True
    } else if a == GuardResult::False && b == GuardResult::False {
        GuardResult::False
    } else {
        GuardResult::Unknown
    }
}

/// The three-valued negation of a known result.
pub open spec fn not_of(a: GuardResult) -> GuardResult {
    match a {
        GuardResult::True => GuardResult::False,
        GuardResult::False => GuardResult::True,
        GuardResult::Unknown => GuardResult::Unknown,
    }
}

/// The result of `guard` under `vars`, with `fa` as the arithmetic and `fc`
/// as the comparison of doubles.
pub open spec fn guard_value_with(
    guard: BoolExpr,
    vars: Map<Seq<char>, Val>,
    fa: spec_fn(Op, u64, u64) -> u64,
    fc: spec_fn(CmpOp, u64, u64) -> bool,
) -> GuardResult
    decreases guard,
{
    match guard {
        BoolExpr::True => GuardResult::True,
        BoolExpr::Cmp { op, lhs, rhs } => cmp_with(op, expr_value_with(*lhs, vars, fa), expr_value_with(*rhs, vars, fa), fc),
        BoolExpr::And(x, y) => and_of(guard_value_with(*x, vars, fa, fc), guard_value_with(*y, vars, fa, fc)),
        BoolExpr::Or(x, y) => or_of(guard_value_with(*x, vars, fa, fc), guard_value_with(*y, vars, fa, fc)),
        BoolExpr::Not(x) => not_of(guard_value_with(*x, vars, fa, fc)),
    }
}

/// Evaluates `expr` against `vars`. `float_arith` computes `a op b` on the
/// doubles with bit patterns `a` and `b`, giving the result's bit pattern.
/// The result is the value `expr_value` gives; where that is a double
/// computed by `float_arith`, it is a double, and whenever `float_arith`
/// computes a spec function `fa`, it is the value `expr_value_with` gives.
pub fn eval_expr<F: Fn(Op, u64, u64) -> u64>(expr: &Expr, vars: &VarStore, float_arith: &F) -> (r: Val)
    requires
        forall|op: Op, a: u64, b: u64| float_arith.requires((op, a, b)),
    ensures
        conforms(r, expr_value(*expr, vars@)),
        forall|fa: spec_fn(Op, u64, u64) -> u64|
            computes_arith(*float_arith, fa) ==> r == #[trigger] expr_value_with(*expr, vars@, fa),
    decreases expr,
{
    match expr {
        Expr::Lit(v) => v.clone(),
        Expr::Ref(name) => match vars.get(name) {
            Some(v) => v.clone(),
            None => Val::Unknown,
        },
        Expr::BinOp { op, lhs, rhs } => {
            let l = eval_expr(lhs, vars, float_arith);
            let r = eval_expr(rhs, vars, float_arith);
            let v = eval_binop(*op, &l, &r, float_arith);
            assert forall|fa: spec_fn(Op, u64, u64) -> u64| computes_arith(*float_arith, fa) implies v
                == #[trigger] expr_value_with(*expr, vars@, fa) by {
                assert(l == expr_value_with(**lhs, vars@, fa));
                assert(r == expr_value_with(**rhs, vars@, fa));
                assert(v == binop_with(*op, l, r, fa));
            }
            v
        },
    }
}

/// Applies `op` to two evaluated values.
fn eval_binop<F: Fn(Op, u64, u64) -> u64>(op: Op, lhs: &Val, rhs: &Val, float_arith: &F) -> (r: Val)
    requires
        forall|o: Op, a: u64, b: u64| float_arith.requires((o, a, b)),
    ensures
        forall|sa: Option<Val>, sb: Option<Val>|
            conforms(*lhs, sa) && conforms(*rhs, sb) ==> conforms(r, #[trigger] binop_value(op, sa, sb)),
        forall|fa: spec_fn(Op, u64, u64) -> u64|
            computes_arith(*float_arith, fa) ==> r == #[trigger] binop_with(op, *lhs, *rhs, fa),
{
    match (lhs, rhs) {
        (Val::Concrete(l), Val::Concrete(r)) => eval_concrete_binop(op, l, r, float_arith),
        _ => Val::Unknown,
    }
}

/// Applies `op` to two concrete values.
fn eval_concrete_binop<F: Fn(Op, u64, u64) -> u64>(
    op: Op,
    lhs: &ConcreteVal,
    rhs: &ConcreteVal,
    float_arith: &F,
) -> (r: Val)
    requires
        forall|o: Op, a: u64, b: u64| float_arith.requires((o, a, b)),
    ensures
        forall|sa: Option<Val>, sb: Option<Val>|
            conforms(Val::Concrete(*lhs), sa) && conforms(Val::Concrete(*rhs), sb) ==> conforms(
                r,
                #[trigger] binop_value(op, sa, sb),
            ),
        forall|fa: spec_fn(Op, u64, u64) -> u64|
            computes_arith(*float_arith, fa) ==> r == #[trigger] binop_with(op, Val::Concrete(*lhs), Val::Concrete(*rhs), fa),
{
    match (lhs, rhs) {
        (ConcreteVal::Int(a), ConcreteVal::Int(b)) => {
            let result = match op {
                Op::Add => a.checked_add(*b),
                Op::Sub => a.checked_sub(*b),
                Op::Mul => a.checked_mul(*b),
                Op::Div => {
                    if *b == 0 {
                        return Val::Unknown;
                    }
                    a.checked_div(*b)
                },
                Op::Mod => {
                    if *b == 0 {
                        return Val::Unknown;
                    }
                    a.checked_rem(*b)
                },
            };
            match result {
                Some(z) => Val::integer(z),
                None => Val::Unknown,
            }
        },
        (ConcreteVal::Float(a), ConcreteVal::Float(b)) => Val::Concrete(ConcreteVal::Float(float_arith(op, *a, *b))),
        _ => Val::Unknown,
    }
}

/// Evaluates `guard` against `vars` in three-valued logic, deciding `And`
/// and `Or` from their first side where it can. `float_arith` computes
/// arithmetic on doubles and `float_compare` compares two doubles, each given
/// by its bit pattern. The result is the one `guard_value` gives, wherever
/// it gives one, and whenever the two closures compute spec functions `fa`
/// and `fc`, the one `guard_value_with` gives.
pub fn eval_guard<F: Fn(Op, u64, u64) -> u64, C: Fn(CmpOp, u64, u64) -> bool>(
    guard: &BoolExpr,
    vars: &VarStore,
    float_arith: &F,
    float_compare: &C,
) -> (r: GuardResult)
    requires
        forall|op: Op, a: u64, b: u64| float_arith.requires((op, a, b)),
        forall|op: CmpOp, a: u64, b: u64| float_compare.requires((op, a, b)),
    ensures
        guard_value(*guard, vars@) matches Some(g) ==> r == g,
        forall|fa: spec_fn(Op, u64, u64) -> u64, fc: spec_fn(CmpOp, u64, u64) -> bool|
            computes_arith(*float_arith, fa) && computes_compare(*float_compare, fc) ==> r
                == #[trigger] guard_value_with(*guard, vars@, fa, fc),
    decreases guard,
{
    match guard {
        BoolExpr::True => GuardResult::True,
        BoolExpr::Cmp { op, lhs, rhs } => {
            let l = eval_expr(lhs, vars, float_arith);
            let r = eval_expr(rhs, vars, float_arith);
            let g = eval_cmp(*op, &l, &r, float_compare);
            assert forall|fa: spec_fn(Op, u64, u64) -> u64, fc: spec_fn(CmpOp, u64, u64) -> bool|
                computes_arith(*float_arith, fa) && computes_compare(*float_compare, fc) implies g
                == #[trigger] guard_value_with(*guard, vars@, fa, fc) by {
                assert(l == expr_value_with(**lhs, vars@, fa));
                assert(r == expr_value_with(**rhs, vars@, fa));
                assert(g == cmp_with(*op, l, r, fc));
            }
            g
        },
        BoolExpr::And(a, b) => {
            let ra = eval_guard(a, vars, float_arith, float_compare);
            if ra == GuardResult::False {
                assert forall|fa: spec_fn(Op, u64, u64) -> u64, fc: spec_fn(CmpOp, u64, u64) -> bool|
                    computes_arith(*float_arith, fa) && computes_compare(*float_compare, fc) implies GuardResult::False
                    == #[trigger] guard_value_with(*guard, vars@, fa, fc) by {
                    assert(ra == guard_value_with(**a, vars@, fa, fc));
                }
                return GuardResult::False;
            }
            let rb = eval_guard(b, vars, float_arith, float_compare);
            let g = if rb == GuardResult::False {
                GuardResult::False
            } else if ra == GuardResult::True && rb == GuardResult::True {
                GuardResult::True
            } else {
                GuardResult::Unknown
            };
            assert forall|fa: spec_fn(Op, u64, u64) -> u64, fc: spec_fn(CmpOp, u64, u64) -> bool|
                computes_arith(*float_arith, fa) && computes_compare(*float_compare, fc) implies g
                == #[trigger] guard_value_with(*guard, vars@, fa, fc) by {
                assert(ra == guard_value_with(**a, vars@, fa, fc));
                assert(rb == guard_value_with(**b, vars@, fa, fc));
            }
            g
        },
        BoolExpr::Or(a, b) => {
            let ra = eval_guard(a, vars, float_arith, float_compare);
            if ra == GuardResult::True {
                assert forall|fa: spec_fn(Op, u64, u64) -> u64, fc: spec_fn(CmpOp, u64, u64) -> bool|
                    computes_arith(*float_arith, fa) && computes_compare(*float_compare, fc) implies GuardResult::True
                    == #[trigger] guard_value_with(*guard, vars@, fa, fc) by {
                    assert(ra == guard_value_with(**a, vars@, fa, fc));
                }
                return GuardResult::True;
            }
            let rb = eval_guard(b, vars, float_arith, float_compare);
            let g = if rb == GuardResult::True {
                GuardResult::True
            } else if ra == GuardResult::False && rb == GuardResult::False {
                GuardResult::False
            } else {
                GuardResult::Unknown
            };
            assert forall|fa: spec_fn(Op, u64, u64) -> u64, fc: spec_fn(CmpOp, u64, u64) -> bool|
                computes_arith(*float_arith, fa) && computes_compare(*float_compare, fc) implies g
                == #[trigger] guard_value_with(*guard, vars@, fa, fc) by {
                assert(ra == guard_value_with(**a, vars@, fa, fc));
                assert(rb == guard_value_with(**b, vars@, fa, fc));
            }
            g
        },
        BoolExpr::Not(inner) => {
            let ri = eval_guard(inner, vars, float_arith, float_compare);
            let g = match ri {
                GuardResult::True => GuardResult::False,
                GuardResult::False => GuardResult::True,
                GuardResult::Unknown => GuardResult::Unknown,
            };
            assert forall|fa: spec_fn(Op, u64, u64) -> u64, fc: spec_fn(CmpOp, u64, u64) -> bool|
                computes_arith(*float_arith, fa) && computes_compare(*float_compare, fc) implies g
                == #[trigger] guard_value_with(*guard, vars@, fa, fc) by {
                assert(ri == guard_value_with(**inner, vars@, fa, fc));
            }
            g
        },
    }
}

/// Compares two evaluated values.
fn eval_cmp<C: Fn(CmpOp, u64, u64) -> bool>(op: CmpOp, lhs: &Val, rhs: &Val, float_compare: &C) -> (r: GuardResult)
    requires
        forall|o: CmpOp, a: u64, b: u64| float_compare.requires((o, a, b)),
    ensures
        forall|sa: Option<Val>, sb: Option<Val>|
            conforms(*lhs, sa) && conforms(*rhs, sb) ==> (#[trigger] cmp_value(op, sa, sb) matches Some(g) ==> r
                == g),
        forall|fc: spec_fn(CmpOp, u64, u64) -> bool|
            computes_compare(*float_compare, fc) ==> r == #[trigger] cmp_with(op, *lhs, *rhs, fc),
{
    match (lhs, rhs) {
        (Val::Concrete(l), Val::Concrete(r)) => {
            if eval_concrete_cmp(op, l, r, float_compare) {
                GuardResult::True
            } else {
                GuardResult::False
            }
        },
        _ => GuardResult::Unknown,
    }
}

/// Compares two concrete values.
fn eval_concrete_cmp<C: Fn(CmpOp, u64, u64) -> bool>(
    op: CmpOp,
    lhs: &ConcreteVal,
    rhs: &ConcreteVal,
    float_compare: &C,
) -> (r: bool)
    requires
        forall|o: CmpOp, a: u64, b: u64| float_compare.requires((o, a, b)),
    ensures
        !(*lhs is Float && *rhs is Float) ==> r == concrete_cmp(op, *lhs, *rhs),
        (*lhs is Float && *rhs is Float) ==> float_compare.ensures((op, lhs->Float_0, rhs->Float_0), r),
{
    match (lhs, rhs) {
        (ConcreteVal::Int(a), ConcreteVal::Int(b)) => match op {
            CmpOp::Eq => *a == *b,
            CmpOp::Ne => *a != *b,
            CmpOp::Lt => *a < *b,
            CmpOp::Le => *a <= *b,
            CmpOp::Gt => *a > *b,
            CmpOp::Ge => *a >= *b,
        },
        (ConcreteVal::Float(a), ConcreteVal::Float(b)) => float_compare(op, *a, *b),
        (ConcreteVal::Bool(a), ConcreteVal::Bool(b)) => match op {
            CmpOp::Eq => *a == *b,
            CmpOp::Ne => *a != *b,
            _ => false,
        },
        (ConcreteVal::Str(a), ConcreteVal::Str(b)) => match op {
            CmpOp::Eq => *a == *b,
            CmpOp::Ne => !(*a == *b),
            _ => false,
        },
        (ConcreteVal::Enum(a), ConcreteVal::Enum(b)) => match op {
            CmpOp::Eq => *a == *b,
            CmpOp::Ne => !(*a == *b),
            _ => false,
        },
        _ => false,
    }
}

/// `Unknown` absorbs: an arithmetic operator with an unknown operand gives
/// `Unknown`, and so does a comparison.
pub proof fn law_unknown_absorbs(op: Op, cmp: CmpOp, v: Option<Val>)
    ensures
        binop_value(op, Some(Val::Unknown), v) == Some(Val::Unknown),
        binop_value(op, v, Some(Val::Unknown)) == Some(Val::Unknown),
        cmp_value(cmp, Some(Val::Unknown), v) == Some(GuardResult::Unknown),
        cmp_value(cmp, v, Some(Val::Unknown)) == Some(GuardResult::Unknown),
{
}

/// Negating a guard result twice gives it back.
pub proof fn law_not_not(a: Option<GuardResult>)
    ensures
        not_value(not_value(a)) == a,
{
}

/// De Morgan's laws hold of the three-valued connectives: the negation of
/// a conjunction is the disjunction of the negations, and dually.
pub proof fn law_de_morgan(a: Option<GuardResult>, b: Option<GuardResult>)
    ensures
        not_value(and_value(a, b)) == or_value(not_value(a), not_value(b)),
        not_value(or_value(a, b)) == and_value(not_value(a), not_value(b)),
{
}

/// A false side decides a conjunction and a true side a disjunction,
/// whatever the other side is.
pub proof fn law_short_circuit(a: Option<GuardResult>)
    ensures
        and_value(Some(GuardResult::False), a) == Some(GuardResult::False),
        and_value(a, Some(GuardResult::False)) == Some(GuardResult::False),
        or_value(Some(GuardResult::True), a) == Some(GuardResult::True),
        or_value(a, Some(GuardResult::True)) == Some(GuardResult::True),
{
}

/// The literal `v`.
pub fn lit(v: Val) -> (r: Expr)
    ensures
        r == Expr::Lit(v),
{
    Expr::Lit(v)
}

/// The integer literal `i`.
pub fn lit_int(i: i64) -> (r: Expr)
    ensures
        r == Expr::Lit(Val::Concrete(ConcreteVal::Int(i))),
{
    Expr::Lit(Val::integer(i))
}

/// The boolean literal `b`.
pub fn lit_bool(b: bool) -> (r: Expr)
    ensures
        r == Expr::Lit(Val::Concrete(ConcreteVal::Bool(b))),
{
    Expr::Lit(Val::bool(b))
}

/// The variable `name`.
pub fn var(name: &str) -> (r: Expr)
    ensures
        r matches Expr::Ref(n) && n@ == name@,
{
    Expr::Ref(name.to_owned())
}

/// The sum of `lhs` and `rhs`.
pub fn add(lhs: Expr, rhs: Expr) -> (r: Expr)
    ensures
        r == (Expr::BinOp { op: Op::Add, lhs: Box::new(lhs), rhs: Box::new(rhs) }),
{
    Expr::BinOp { op: Op::Add, lhs: Box::new(lhs), rhs: Box::new(rhs) }
}

/// The difference of `lhs` and `rhs`.
pub fn sub(lhs: Expr, rhs: Expr) -> (r: Expr)
    ensures
        r == (Expr::BinOp { op: Op::Sub, lhs: Box::new(lhs), rhs: Box::new(rhs) }),
{
    Expr::BinOp { op: Op::Sub, lhs: Box::new(lhs), rhs: Box::new(rhs) }
}

/// The product of `lhs` and `rhs`.
pub fn mul(lhs: Expr, rhs: Expr) -> (r: Expr)
    ensures
        r == (Expr::BinOp { op: Op::Mul, lhs: Box::new(lhs), rhs: Box::new(rhs) }),
{
    Expr::BinOp { op: Op::Mul, lhs: Box::new(lhs), rhs: Box::new(rhs) }
}

/// The comparison `lhs op rhs`.
fn compare(op: CmpOp, lhs: Expr, rhs: Expr) -> (r: BoolExpr)
    ensures
        r == (BoolExpr::Cmp { op, lhs: Box::new(lhs), rhs: Box::new(rhs) }),
{
    BoolExpr::Cmp { op, lhs: Box::new(lhs), rhs: Box::new(rhs) }
}

/// The guard `lhs == rhs`.
pub fn eq(lhs: Expr, rhs: Expr) -> (r: BoolExpr)
    ensures
        r == (BoolExpr::Cmp { op: CmpOp::Eq, lhs: Box::new(lhs), rhs: Box::new(rhs) }),
{
    compare(CmpOp::Eq, lhs, rhs)
}

/// The guard `lhs != rhs`.
pub fn ne(lhs: Expr, rhs: Expr) -> (r: BoolExpr)
    ensures
        r == (BoolExpr::Cmp { op: CmpOp::Ne, lhs: Box::new(lhs), rhs: Box::new(rhs) }),
{
    compare(CmpOp::Ne, lhs, rhs)
}

/// The guard `lhs > rhs`.
pub fn gt(lhs: Expr, rhs: Expr) -> (r: BoolExpr)
    ensures
        r == (BoolExpr::Cmp { op: CmpOp::Gt, lhs: Box::new(lhs), rhs: Box::new(rhs) }),
{
    compare(CmpOp::Gt, lhs, rhs)
}

/// The guard `lhs >= rhs`.
pub fn ge(lhs: Expr, rhs: Expr) -> (r: BoolExpr)
    ensures
        r == (BoolExpr::Cmp { op: CmpOp::Ge, lhs: Box::new(lhs), rhs: Box::new(rhs) }),
{
    compare(CmpOp::Ge, lhs, rhs)
}

/// The guard `lhs < rhs`.
pub fn lt(lhs: Expr, rhs: Expr) -> (r: BoolExpr)
    ensures
        r == (BoolExpr::Cmp { op: CmpOp::Lt, lhs: Box::new(lhs), rhs: Box::new(rhs) }),
{
    compare(CmpOp::Lt, lhs, rhs)
}

/// The guard `lhs <= rhs`.
pub fn le(lhs: Expr, rhs: Expr) -> (r: BoolExpr)
    ensures
        r == (BoolExpr::Cmp { op: CmpOp::Le, lhs: Box::new(lhs), rhs: Box::new(rhs) }),
{
    compare(CmpOp::Le, lhs, rhs)
}

/// The conjunction of `a` and `b`.
pub fn and(a: BoolExpr, b: BoolExpr) -> (r: BoolExpr)
    ensures
        r == BoolExpr::And(Box::new(a), Box::new(b)),
{
    BoolExpr::And(Box::new(a), Box::new(b))
}

/// The disjunction of `a` and `b`.
pub fn or(a: BoolExpr, b: BoolExpr) -> (r: BoolExpr)
    ensures
        r == BoolExpr::Or(Box::new(a), Box::new(b)),
{
    BoolExpr::Or(Box::new(a), Box::new(b))
}

/// The negation of `inner`.
pub fn not(inner: BoolExpr) -> (r: BoolExpr)
    ensures
        r == BoolExpr::Not(Box::new(inner)),
{
    BoolExpr::Not(Box::new(inner))
}

/// The symbol of an arithmetic operator.
pub open spec fn op_text(op: Op) -> Seq<char> {
    match op {
        Op::Add => "+"@,
        Op::Sub => "-"@,
        Op::Mul => "*"@,
        Op::Div => "/"@,
        Op::Mod => "%"@,
    }
}

/// The symbol of a comparison operator.
pub open spec fn cmp_op_text(op: CmpOp) -> Seq<char> {
    match op {
        CmpOp::Eq => "=="@,
        CmpOp::Ne => "!="@,
        CmpOp::Lt => "<"@,
        CmpOp::Le => "<="@,
        CmpOp::Gt => ">"@,
        CmpOp::Ge => ">="@,
    }
}

/// The text of a concrete value: booleans and integers as Rust writes
/// them, strings in quotes, enum names bare; none for a double, whose text
/// the caller's formatting gives.
pub open spec fn concrete_text(c: ConcreteVal) -> Option<Seq<char>> {
    match c {
        ConcreteVal::Bool(b) => Some(if b { "true"@ } else { "false"@ }),
        ConcreteVal::Int(i) => Some(signed_decimal(i as int)),
        ConcreteVal::Float(_) => None,
        ConcreteVal::Str(s) => Some(seq!['"'] + s@ + seq!['"']),
        ConcreteVal::Enum(s) => Some(s@),
    }
}

/// The text of a value: `⊤` for `Unknown`.
pub open spec fn val_text(v: Val) -> Option<Seq<char>> {
    match v {
        Val::Concrete(c) => concrete_text(c),
        Val::Unknown => Some("⊤"@),
    }
}

/// The text of an expression: literals and variables bare, operations in
/// parentheses with the operator between spaces; none when it holds a
/// double.
pub open spec fn expr_text(e: Expr) -> Option<Seq<char>>
    decreases e,
{
    match e {
        Expr::Lit(v) => val_text(v),
        Expr::Ref(name) => Some(name@),
        Expr::BinOp { op, lhs, rhs } => match (expr_text(*lhs), expr_text(*rhs)) {
            (Some(l), Some(r)) => Some(seq!['('] + l + seq![' '] + op_text(op) + seq![' '] + r + seq![')']),
            _ => None,
        },
    }
}

/// The text of a guard: `true`, comparisons and connectives in
/// parentheses, negation prefixed by `!`; none when it holds a double.
pub open spec fn guard_text(g: BoolExpr) -> Option<Seq<char>>
    decreases g,
{
    match g {
        BoolExpr::True => Some("true"@),
        BoolExpr::Cmp { op, lhs, rhs } => match (expr_text(*lhs), expr_text(*rhs)) {
            (Some(l), Some(r)) => Some(seq!['('] + l + seq![' '] + cmp_op_text(op) + seq![' '] + r + seq![')']),
            _ => None,
        },
        BoolExpr::And(a, b) => match (guard_text(*a), guard_text(*b)) {
            (Some(x), Some(y)) => Some(seq!['('] + x + " && "@ + y + seq![')']),
            _ => None,
        },
        BoolExpr::Or(a, b) => match (guard_text(*a), guard_text(*b)) {
            (Some(x), Some(y)) => Some(seq!['('] + x + " || "@ + y + seq![')']),
            _ => None,
        },
        BoolExpr::Not(a) => match guard_text(*a) {
            Some(x) => Some(seq!['!'] + x),
            None => None,
        },
    }
}

/// Whether the closure `float_text` computes the spec function `ft`:
/// whatever text it returns for the bit pattern `b` is `ft(b)`.
pub open spec fn computes_text<F: Fn(u64) -> String>(float_text: F, ft: spec_fn(u64) -> Seq<char>) -> bool {
    forall|b: u64, t: String| #[trigger] float_text.ensures((b,), t) ==> t@ == ft(b)
}

/// The text of a concrete value, with `ft` as the text of a double.
pub open spec fn concrete_text_with(c: ConcreteVal, ft: spec_fn(u64) -> Seq<char>) -> Seq<char> {
    match c {
        ConcreteVal::Float(b) => ft(b),
        _ => concrete_text(c)->Some_0,
    }
}

/// The text of a value, with `ft` as the text of a double.
pub open spec fn val_text_with(v: Val, ft: spec_fn(u64) -> Seq<char>) -> Seq<char> {
    match v {
        Val::Concrete(c) => concrete_text_with(c, ft),
        Val::Unknown => "⊤"@,
    }
}

/// The text of an expression, with `ft` as the text of a double.
pub open spec fn expr_text_with(e: Expr, ft: spec_fn(u64) -> Seq<char>) -> Seq<char>
    decreases e,
{
    match e {
        Expr::Lit(v) => val_text_with(v, ft),
        Expr::Ref(name) => name@,
        Expr::BinOp { op, lhs, rhs } => seq!['('] + expr_text_with(*lhs, ft) + seq![' '] + op_text(op) + seq![' ']
            + expr_text_with(*rhs, ft) + seq![')'],
    }
}

/// The text of a guard, with `ft` as the text of a double.
pub open spec fn guard_text_with(g: BoolExpr, ft: spec_fn(u64) -> Seq<char>) -> Seq<char>
    decreases g,
{
    match g {
        BoolExpr::True => "true"@,
        BoolExpr::Cmp { op, lhs, rhs } => seq!['('] + expr_text_with(*lhs, ft) + seq![' '] + cmp_op_text(op) + seq![' ']
            + expr_text_with(*rhs, ft) + seq![')'],
        BoolExpr::And(a, b) => seq!['('] + guard_text_with(*a, ft) + " && "@ + guard_text_with(*b, ft) + seq![')'],
        BoolExpr::Or(a, b) => seq!['('] + guard_text_with(*a, ft) + " || "@ + guard_text_with(*b, ft) + seq![')'],
        BoolExpr::Not(a) => seq!['!'] + guard_text_with(*a, ft),
    }
}

impl Op {
    /// The operator's symbol.
    pub fn text(&self) -> (r: &'static str)
        ensures
            r@ == op_text(*self),
    {
        match self {
            Op::Add => "+",
            Op::Sub => "-",
            Op::Mul => "*",
            Op::Div => "/",
            Op::Mod => "%",
        }
    }
}

impl CmpOp {
    /// The operator's symbol.
    pub fn text(&self) -> (r: &'static str)
        ensures
            r@ == cmp_op_text(*self),
    {
        match self {
            CmpOp::Eq => "==",
            CmpOp::Ne => "!=",
            CmpOp::Lt => "<",
            CmpOp::Le => "<=",
            CmpOp::Gt => ">",
            CmpOp::Ge => ">=",
        }
    }
}

impl ConcreteVal {
    /// The value as text; `float_text` writes a double given by its bit
    /// pattern. The result is the text `concrete_text` gives, wherever it
    /// gives one, and the text `concrete_text_with` gives whenever
    /// `float_text` computes a spec function `ft`.
    pub fn text<F: Fn(u64) -> String>(&self, float_text: &F) -> (r: String)
        requires
            forall|b: u64| float_text.requires((b,)),
        ensures
            concrete_text(*self) matches Some(t) ==> r@ == t,
            forall|ft: spec_fn(u64) -> Seq<char>| computes_text(*float_text, ft) ==> r@ == #[trigger] concrete_text_with(*self, ft),
    {
        match self {
            ConcreteVal::Bool(b) => {
                if *b {
                    string_of("true")
                } else {
                    string_of("false")
                }
            },
            ConcreteVal::Int(i) => {
                let mut out = String::new();
                push_signed(&mut out, *i);
                out
            },
            ConcreteVal::Float(f) => float_text(*f),
            ConcreteVal::Str(s) => {
                let mut out = String::new();
                push_char(&mut out, '"');
                push_str(&mut out, s.as_str());
                push_char(&mut out, '"');
                out
            },
            ConcreteVal::Enum(s) => s.clone(),
        }
    }
}

impl Val {
    /// The value as text, `⊤` for `Unknown`; `float_text` writes a double.
    pub fn text<F: Fn(u64) -> String>(&self, float_text: &F) -> (r: String)
        requires
            forall|b: u64| float_text.requires((b,)),
        ensures
            val_text(*self) matches Some(t) ==> r@ == t,
            forall|ft: spec_fn(u64) -> Seq<char>| computes_text(*float_text, ft) ==> r@ == #[trigger] val_text_with(*self, ft),
    {
        match self {
            Val::Concrete(c) => c.text(float_text),
            Val::Unknown => string_of("⊤"),
        }
    }
}

impl Expr {
    /// The expression as text; `float_text` writes a double.
    pub fn text<F: Fn(u64) -> String>(&self, float_text: &F) -> (r: String)
        requires
            forall|b: u64| float_text.requires((b,)),
        ensures
            expr_text(*self) matches Some(t) ==> r@ == t,
            forall|ft: spec_fn(u64) -> Seq<char>| computes_text(*float_text, ft) ==> r@ == #[trigger] expr_text_with(*self, ft),
        decreases self,
    {
        match self {
            Expr::Lit(v) => v.text(float_text),
            Expr::Ref(name) => name.clone(),
            Expr::BinOp { op, lhs, rhs } => {
                let l = lhs.text(float_text);
                let r = rhs.text(float_text);
                let mut out = string_of("(");
                push_str(&mut out, l.as_str());
                push_char(&mut out, ' ');
                push_str(&mut out, op.text());
                push_char(&mut out, ' ');
                push_str(&mut out, r.as_str());
                push_char(&mut out, ')');
                proof {
                    reveal_strlit("(");
                    assert forall|ft: spec_fn(u64) -> Seq<char>| computes_text(*float_text, ft) implies out@
                        == #[trigger] expr_text_with(*self, ft) by {
                        assert(l@ == expr_text_with(**lhs, ft));
                        assert(r@ == expr_text_with(**rhs, ft));
                    }
                }
                out
            },
        }
    }
}

impl BoolExpr {
    /// The guard as text; `float_text` writes a double.
    pub fn text<F: Fn(u64) -> String>(&self, float_text: &F) -> (r: String)
        requires
            forall|b: u64| float_text.requires((b,)),
        ensures
            guard_text(*self) matches Some(t) ==> r@ == t,
            forall|ft: spec_fn(u64) -> Seq<char>| computes_text(*float_text, ft) ==> r@ == #[trigger] guard_text_with(*self, ft),
        decreases self,
    {
        match self {
            BoolExpr::True => string_of("true"),
            BoolExpr::Cmp { op, lhs, rhs } => {
                let l = lhs.text(float_text);
                let r = rhs.text(float_text);
                let mut out = string_of("(");
                push_str(&mut out, l.as_str());
                push_char(&mut out, ' ');
                push_str(&mut out, op.text());
                push_char(&mut out, ' ');
                push_str(&mut out, r.as_str());
                push_char(&mut out, ')');
                proof {
                    reveal_strlit("(");
                    assert forall|ft: spec_fn(u64) -> Seq<char>| computes_text(*float_text, ft) implies out@
                        == #[trigger] guard_text_with(*self, ft) by {
                        assert(l@ == expr_text_with(**lhs, ft));
                        assert(r@ == expr_text_with(**rhs, ft));
                    }
                }
                out
            },
            BoolExpr::And(a, b) => {
                let x = a.text(float_text);
                let y = b.text(float_text);
                let mut out = string_of("(");
                push_str(&mut out, x.as_str());
                push_str(&mut out, " && ");
                push_str(&mut out, y.as_str());
                push_char(&mut out, ')');
                proof {
                    reveal_strlit("(");
                    assert forall|ft: spec_fn(u64) -> Seq<char>| computes_text(*float_text, ft) implies out@
                        == #[trigger] guard_text_with(*self, ft) by {
                        assert(x@ == guard_text_with(**a, ft));
                        assert(y@ == guard_text_with(**b, ft));
                    }
                }
                out
            },
            BoolExpr::Or(a, b) => {
                let x = a.text(float_text);
                let y = b.text(float_text);
                let mut out = string_of("(");
                push_str(&mut out, x.as_str());
                push_str(&mut out, " || ");
                push_str(&mut out, y.as_str());
                push_char(&mut out, ')');
                proof {
                    reveal_strlit("(");
                    assert forall|ft: spec_fn(u64) -> Seq<char>| computes_text(*float_text, ft) implies out@
                        == #[trigger] guard_text_with(*self, ft) by {
                        assert(x@ == guard_text_with(**a, ft));
                        assert(y@ == guard_text_with(**b, ft));
                    }
                }
                out
            },
            BoolExpr::Not(inner) => {
                let x = inner.text(float_text);
                let mut out = string_of("!");
                push_str(&mut out, x.as_str());
                proof {
                    reveal_strlit("!");
                    assert forall|ft: spec_fn(u64) -> Seq<char>| computes_text(*float_text, ft) implies out@
                        == #[trigger] guard_text_with(*self, ft) by {
                        assert(x@ == guard_text_with(**inner, ft));
                    }
                }
                out
            },
        }
    }
}

} // verus!
