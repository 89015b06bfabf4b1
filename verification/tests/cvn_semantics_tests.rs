use unipn::cvn::builder::CvnBuilder;
use unipn::cvn::expr::{self, gt, lit, lit_int, var, BoolExpr, CmpOp, ConcreteVal, Op, Val};
use unipn::cvn::kinds::{ControlSub, PlaceKind, ResourceType, TransitionKind};
use unipn::cvn::net::{CvnArcKind, CvnNet, CvnState};
use unipn::ids::{PlaceId, TransitionId};
use unipn::pt::{ArcDir, Marking};

fn float_arith(op: Op, a: u64, b: u64) -> u64 {
    let (x, y) = (f64::from_bits(a), f64::from_bits(b));
    let r = match op {
        Op::Add => x + y,
        Op::Sub => x - y,
        Op::Mul => x * y,
        Op::Div => x / y,
        Op::Mod => x % y,
    };
    r.to_bits()
}

fn float_compare(op: CmpOp, a: u64, b: u64) -> bool {
    let (x, y) = (f64::from_bits(a), f64::from_bits(b));
    match op {
        CmpOp::Eq => x == y,
        CmpOp::Ne => x != y,
        CmpOp::Lt => x < y,
        CmpOp::Le => x <= y,
        CmpOp::Gt => x > y,
        CmpOp::Ge => x >= y,
    }
}

fn enabled(net: &CvnNet, s: &CvnState) -> Vec<TransitionId> {
    net.enabled_with(s, &float_arith, &float_compare)
}

fn fire(net: &CvnNet, s: &CvnState, t: usize) -> Option<CvnState> {
    net.fire_with(s, TransitionId(t), &float_arith, &float_compare)
}

/// A thread takes a mutex when `x > 0`, increments `x` (bounded to 0..=2)
/// and releases it.
fn counter_net() -> (CvnNet, CvnState) {
    let mut b = CvnBuilder::new();
    let start = b.add_place("start", PlaceKind::Control(ControlSub::BasicBlock));
    let held = b.add_place("held", PlaceKind::Control(ControlSub::BasicBlock));
    let end = b.add_place("end", PlaceKind::Control(ControlSub::FunctionEnd));
    let m = b.add_place("m", PlaceKind::Resource(ResourceType::Mutex));
    let lock = b.add_transition("lock", TransitionKind::Lock);
    let unlock = b.add_transition("unlock", TransitionKind::Unlock);
    b.add_input_arc(start, lock, 1, gt(var("x"), lit_int(0)));
    b.add_input_arc(m, lock, 1, BoolExpr::True);
    b.add_output_arc(lock, held, 1, Some(vec![("x".to_string(), expr::add(var("x"), lit_int(1)))]));
    b.add_input_arc(held, unlock, 1, BoolExpr::True);
    b.add_output_arc(unlock, end, 1, None);
    b.add_output_arc(unlock, m, 1, None);
    b.set_initial_tokens(start, 1).set_initial_tokens(m, 1);
    b.add_variable("x", Val::integer(1));
    b.set_variable_domain("x", 0, 2);
    b.build()
}

#[test]
fn guarded_lock_fires_and_updates() {
    let (net, s0) = counter_net();
    assert_eq!(enabled(&net, &s0), vec![TransitionId(0)]);
    let s1 = fire(&net, &s0, 0).unwrap();
    assert_eq!(s1.marking, Marking::new(vec![0, 1, 0, 0]));
    assert_eq!(s1.extra.vars.get(&"x".to_string()), Some(&Val::integer(2)));
    assert_eq!(enabled(&net, &s1), vec![TransitionId(1)]);
    assert!(fire(&net, &s1, 0).is_none());
    let s2 = fire(&net, &s1, 1).unwrap();
    assert_eq!(s2.marking, Marking::new(vec![0, 0, 1, 1]));
    assert!(enabled(&net, &s2).is_empty());
}

#[test]
fn false_guard_and_domain_exit_disable() {
    let (net, s0) = counter_net();
    let mut zero = s0.clone();
    zero.extra.vars.insert("x".to_string(), Val::integer(0));
    assert!(enabled(&net, &zero).is_empty());
    assert!(fire(&net, &zero, 0).is_none());
    let mut two = s0.clone();
    two.extra.vars.insert("x".to_string(), Val::integer(2));
    // x + 1 = 3 leaves 0..=2.
    assert!(enabled(&net, &two).is_empty());
    let mut unknown = s0.clone();
    unknown.extra.vars.insert("x".to_string(), Val::Unknown);
    // An unknown guard does not disable, and an unknown update stays in bounds.
    assert_eq!(enabled(&net, &unknown), vec![TransitionId(0)]);
    let next = fire(&net, &unknown, 0).unwrap();
    assert_eq!(next.extra.vars.get(&"x".to_string()), Some(&Val::Unknown));
}

#[test]
fn mutex_capacity_refuses_a_second_token() {
    let (net, s0) = counter_net();
    let mut full = s0.clone();
    full.marking = Marking::new(vec![0, 1, 0, 1]);
    assert_eq!(enabled(&net, &full), vec![TransitionId(1)]);
    assert!(fire(&net, &full, 1).is_none());
}

#[test]
fn read_inhibitor_reset_and_dropped_scopes() {
    let mut b = CvnBuilder::new();
    let p = b.add_place("p", PlaceKind::Control(ControlSub::BasicBlock));
    let q = b.add_place("q", PlaceKind::Control(ControlSub::BasicBlock));
    let r = b.add_place("r", PlaceKind::Control(ControlSub::BasicBlock));
    let t = b.add_transition("t", TransitionKind::Goto);
    b.set_initial_tokens(p, 2).set_initial_tokens(r, 5);
    b.add_variable("tmp", Val::integer(4)).add_variable("keep", Val::bool(true));
    let (mut net, s0) = b.build();
    net.add_arc(p, t, ArcDir::Read, 2, CvnArcKind::Plain);
    net.add_arc(q, t, ArcDir::Inhibitor, 1, CvnArcKind::Plain);
    net.add_arc(r, t, ArcDir::Reset, 1, CvnArcKind::Plain);
    net.add_arc(q, t, ArcDir::Output, 1, CvnArcKind::DropVars(vec!["tmp".to_string()]));
    assert_eq!(enabled(&net, &s0), vec![TransitionId(0)]);
    let s1 = fire(&net, &s0, 0).unwrap();
    assert_eq!(s1.marking, Marking::new(vec![2, 1, 0]));
    assert_eq!(s1.extra.vars.get(&"tmp".to_string()), None);
    assert_eq!(s1.extra.vars.get(&"keep".to_string()), Some(&Val::bool(true)));
    // Now q holds a token: the inhibitor arc disables t.
    assert!(enabled(&net, &s1).is_empty());
    let mut low = s0.clone();
    low.marking = Marking::new(vec![1, 0, 0]);
    assert!(enabled(&net, &low).is_empty());
}

#[test]
fn input_weights_from_one_place_add_up() {
    let mut b = CvnBuilder::new();
    let p = b.add_place("p", PlaceKind::Control(ControlSub::BasicBlock));
    let t = b.add_transition("t", TransitionKind::Goto);
    b.add_input_arc(p, t, 1, BoolExpr::True);
    b.add_input_arc(p, t, 1, BoolExpr::True);
    b.set_initial_tokens(p, 1);
    let (net, s0) = b.build();
    assert!(enabled(&net, &s0).is_empty());
    let mut two = s0.clone();
    two.marking = Marking::new(vec![2]);
    assert_eq!(enabled(&net, &two), vec![TransitionId(0)]);
    assert_eq!(fire(&net, &two, 0).unwrap().marking, Marking::new(vec![0]));
    assert_eq!(net.places[0].name, "p");
    let _ = PlaceId(0);
}

#[test]
fn double_guards_use_the_supplied_comparison() {
    let mut b = CvnBuilder::new();
    let p = b.add_place("p", PlaceKind::Control(ControlSub::BasicBlock));
    let t = b.add_transition("t", TransitionKind::Goto);
    let half = Val::Concrete(ConcreteVal::Float(0.5f64.to_bits()));
    b.add_input_arc(p, t, 1, gt(var("y"), lit(half)));
    b.set_initial_tokens(p, 1);
    b.add_variable("y", Val::Concrete(ConcreteVal::Float(0.25f64.to_bits())));
    let (net, s0) = b.build();
    assert!(enabled(&net, &s0).is_empty());
    let mut big = s0.clone();
    big.extra.vars.insert("y".to_string(), Val::Concrete(ConcreteVal::Float(2.0f64.to_bits())));
    assert_eq!(enabled(&net, &big), vec![TransitionId(0)]);
}
