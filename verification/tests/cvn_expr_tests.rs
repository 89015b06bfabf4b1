use unipn::cvn::expr;
use unipn::cvn::expr::{
    and, eval_expr, eval_guard, gt, lit, lit_bool, lit_int, ne, not, or, var, BoolExpr, CmpOp,
    ConcreteVal, Expr, GuardResult, Op, Val, VarStore,
};

fn float_arith(op: Op, a: u64, b: u64) -> u64 {
    let (x, y) = (f64::from_bits(a), f64::from_bits(b));
    let r = match op {
        Op::Add => x + y,
        Op::Sub => x - y,
        Op::Mul => x * y,
        Op::Div => x / y,
        Op::Mod => x % y,
    };
    r.to_bits()
}

fn float_cmp(op: CmpOp, a: u64, b: u64) -> bool {
    let (x, y) = (f64::from_bits(a), f64::from_bits(b));
    match op {
        CmpOp::Eq => x == y,
        CmpOp::Ne => x != y,
        CmpOp::Lt => x < y,
        CmpOp::Le => x <= y,
        CmpOp::Gt => x > y,
        CmpOp::Ge => x >= y,
    }
}

fn float(f: f64) -> Val {
    Val::Concrete(ConcreteVal::Float(f.to_bits()))
}

fn value(e: &Expr, vars: &VarStore) -> Val {
    eval_expr(e, vars, &float_arith)
}

fn guard(g: &BoolExpr, vars: &VarStore) -> GuardResult {
    eval_guard(g, vars, &float_arith, &float_cmp)
}

#[test]
fn eval_int_arithmetic() {
    let vars = VarStore::new();
    let e = expr::add(lit_int(3), lit_int(4));
    assert_eq!(value(&e, &vars), Val::integer(7));
}

#[test]
fn eval_unknown_absorbs() {
    let vars = VarStore::new();
    let e = expr::add(lit(Val::Unknown), lit_int(4));
    assert_eq!(value(&e, &vars), Val::Unknown);
}

#[test]
fn eval_guard_true() {
    let vars = VarStore::new();
    assert_eq!(guard(&BoolExpr::True, &vars), GuardResult::True);
}

#[test]
fn eval_guard_cmp_concrete() {
    let vars = VarStore::new();
    let g = gt(lit_int(5), lit_int(3));
    assert_eq!(guard(&g, &vars), GuardResult::True);

    let g2 = gt(lit_int(1), lit_int(3));
    assert_eq!(guard(&g2, &vars), GuardResult::False);
}

#[test]
fn eval_guard_unknown_var() {
    let mut vars = VarStore::new();
    vars.insert("x".to_string(), Val::Unknown);
    let g = gt(var("x"), lit_int(0));
    assert_eq!(guard(&g, &vars), GuardResult::Unknown);
}

#[test]
fn eval_guard_and_short_circuit() {
    let vars = VarStore::new();
    let g = and(gt(lit_int(1), lit_int(5)), gt(lit(Val::Unknown), lit_int(0)));
    assert_eq!(guard(&g, &vars), GuardResult::False);
}

#[test]
fn eval_guard_or_short_circuit() {
    let vars = VarStore::new();
    let g = or(gt(lit_int(5), lit_int(1)), gt(lit(Val::Unknown), lit_int(0)));
    assert_eq!(guard(&g, &vars), GuardResult::True);
}

#[test]
fn integer_arithmetic_is_checked() {
    let vars = VarStore::new();
    assert_eq!(value(&expr::sub(lit_int(3), lit_int(10)), &vars), Val::integer(-7));
    assert_eq!(value(&expr::mul(lit_int(-6), lit_int(7)), &vars), Val::integer(-42));
    assert_eq!(value(&expr::add(lit_int(i64::MAX), lit_int(1)), &vars), Val::Unknown);
    let div = |l: i64, r: i64, op: Op| Expr::BinOp { op, lhs: Box::new(lit_int(l)), rhs: Box::new(lit_int(r)) };
    assert_eq!(value(&div(-7, 2, Op::Div), &vars), Val::integer(-3));
    assert_eq!(value(&div(-7, 2, Op::Mod), &vars), Val::integer(-1));
    assert_eq!(value(&div(7, 0, Op::Div), &vars), Val::Unknown);
    assert_eq!(value(&div(7, 0, Op::Mod), &vars), Val::Unknown);
    assert_eq!(value(&div(i64::MIN, -1, Op::Div), &vars), Val::Unknown);
}

#[test]
fn mixed_kinds_give_unknown_and_compare_false() {
    let vars = VarStore::new();
    assert_eq!(value(&expr::add(lit_bool(true), lit_int(1)), &vars), Val::Unknown);
    assert_eq!(guard(&expr::eq(lit_bool(true), lit_int(1)), &vars), GuardResult::False);
    assert_eq!(guard(&expr::lt(lit_bool(false), lit_bool(true)), &vars), GuardResult::False);
    assert_eq!(guard(&ne(lit_bool(false), lit_bool(true)), &vars), GuardResult::True);
}

#[test]
fn strings_and_enums_compare_by_equality() {
    let vars = VarStore::new();
    let a = lit(Val::string("lock"));
    let b = lit(Val::string("lock"));
    assert_eq!(guard(&expr::eq(a, b), &vars), GuardResult::True);
    let c = lit(Val::enum_val("Red"));
    let d = lit(Val::enum_val("Blue"));
    assert_eq!(guard(&ne(c, d), &vars), GuardResult::True);
    let e = lit(Val::string("a"));
    let f = lit(Val::string("b"));
    assert_eq!(guard(&expr::lt(e, f), &vars), GuardResult::False);
}

#[test]
fn doubles_use_the_supplied_arithmetic() {
    let vars = VarStore::new();
    let e = expr::mul(lit(float(1.5)), lit(float(4.0)));
    assert_eq!(value(&e, &vars), float(6.0));
    assert_eq!(guard(&gt(lit(float(2.5)), lit(float(1.0))), &vars), GuardResult::True);
    assert_eq!(guard(&gt(lit(float(2.5)), lit_int(1)), &vars), GuardResult::False);
    assert_eq!(value(&expr::add(lit(float(2.5)), lit_int(1)), &vars), Val::Unknown);
}

#[test]
fn variables_are_looked_up_and_missing_ones_are_unknown() {
    let mut vars = VarStore::new();
    vars.insert("x".to_string(), Val::integer(2));
    vars.insert("y".to_string(), Val::integer(5));
    vars.insert("x".to_string(), Val::integer(9));
    assert_eq!(vars.get(&"x".to_string()), Some(&Val::integer(9)));
    assert_eq!(vars.get(&"z".to_string()), None);
    assert_eq!(value(&expr::add(var("x"), var("y")), &vars), Val::integer(14));
    assert_eq!(value(&var("z"), &vars), Val::Unknown);
}

#[test]
fn negation_and_three_valued_connectives() {
    let vars = VarStore::new();
    let unknown = gt(lit(Val::Unknown), lit_int(0));
    let yes = gt(lit_int(2), lit_int(1));
    let no = gt(lit_int(1), lit_int(2));
    assert_eq!(guard(&not(gt(lit_int(2), lit_int(1))), &vars), GuardResult::False);
    assert_eq!(guard(&not(gt(lit(Val::Unknown), lit_int(0))), &vars), GuardResult::Unknown);
    assert_eq!(guard(&and(yes, unknown), &vars), GuardResult::Unknown);
    let unknown2 = gt(lit(Val::Unknown), lit_int(0));
    assert_eq!(guard(&or(no, unknown2), &vars), GuardResult::Unknown);
    let yes2 = gt(lit_int(2), lit_int(1));
    let yes3 = gt(lit_int(3), lit_int(1));
    assert_eq!(guard(&and(yes2, yes3), &vars), GuardResult::True);
}

#[test]
fn de_morgan_on_concrete_guards() {
    let vars = VarStore::new();
    let a = || gt(lit(Val::Unknown), lit_int(0));
    let b = || gt(lit_int(1), lit_int(2));
    let lhs = not(and(a(), b()));
    let rhs = or(not(a()), not(b()));
    assert_eq!(guard(&lhs, &vars), guard(&rhs, &vars));
    assert_eq!(guard(&lhs, &vars), GuardResult::True);
}

#[test]
fn guard_results_and_values() {
    assert!(GuardResult::True.is_not_false());
    assert!(GuardResult::Unknown.is_not_false());
    assert!(!GuardResult::False.is_not_false());
    assert!(Val::Unknown.is_unknown());
    assert!(!Val::bool(true).is_unknown());
    assert_eq!(Val::integer(3).as_concrete(), Some(&ConcreteVal::Int(3)));
    assert_eq!(Val::Unknown.as_concrete(), None);
    assert_eq!(Val::integer(4).clone(), Val::integer(4));
}

fn float_text(bits: u64) -> String {
    f64::from_bits(bits).to_string()
}

#[test]
fn expressions_and_guards_as_text() {
    assert_eq!(Op::Mod.text(), "%");
    assert_eq!(CmpOp::Le.text(), "<=");
    let e = expr::add(var("x"), lit_int(-1));
    assert_eq!(e.text(&float_text), "(x + -1)");
    let g = and(gt(var("x"), lit_int(0)), not(BoolExpr::True));
    assert_eq!(g.text(&float_text), "((x > 0) && !true)");
    let o = or(ne(lit(Val::string("a")), lit(Val::enum_val("B"))), BoolExpr::True);
    assert_eq!(o.text(&float_text), "((\"a\" != B) || true)");
    assert_eq!(Val::Unknown.text(&float_text), "⊤");
    assert_eq!(Val::bool(false).text(&float_text), "false");
    assert_eq!(float(0.5).text(&float_text), "0.5");
}
