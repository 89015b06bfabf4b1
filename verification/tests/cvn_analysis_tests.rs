use unipn::analysis::cvn::deadlock::{
    blocked_places, conflict_sets, find_dead_transitions, find_deadlocks, is_deadlock,
};
use unipn::analysis::netlike::{PropertyViolation, ReachabilityGraph};
use unipn::cvn::builder::CvnBuilder;
use unipn::cvn::expr::{gt, lit_int, var, BoolExpr, Val};
use unipn::cvn::kinds::{ControlSub, PlaceKind, ResourceType, TransitionKind};
use unipn::cvn::net::{CvnNet, CvnState};
use unipn::ids::{PlaceId, TransitionId};
use unipn::pt::{ArcDir, Marking};

/// Two threads each at a control point, a mutex, and a function end.
fn lock_net() -> (CvnNet, CvnState) {
    let mut b = CvnBuilder::new();
    let a = b.add_place("a", PlaceKind::Control(ControlSub::BasicBlock));
    let m = b.add_place("m", PlaceKind::Resource(ResourceType::Mutex));
    let end = b.add_place("end", PlaceKind::Control(ControlSub::FunctionEnd));
    let t0 = b.add_transition("lock", TransitionKind::Lock);
    let t1 = b.add_transition("unlock", TransitionKind::Unlock);
    let t2 = b.add_transition("alt", TransitionKind::Goto);
    b.set_anchor(t0, "s1").set_anchor(t0, "s2").set_scope(t0, "main").set_family(t1, "f").set_family(t2, "f");
    b.add_input_arc(a, t0, 1, BoolExpr::True);
    b.add_input_arc(m, t0, 1, gt(var("x"), lit_int(0)));
    b.add_output_arc(t0, end, 1, None);
    b.add_input_arc(m, t1, 1, BoolExpr::True);
    b.add_input_arc(a, t2, 1, BoolExpr::True);
    b.set_initial_tokens(a, 1).set_initial_tokens(m, 1);
    b.add_variable("x", Val::integer(1));
    b.set_variable_domain("x", 0, 3);
    b.build()
}

fn state(tokens: Vec<usize>, template: &CvnState) -> CvnState {
    let mut s = template.clone();
    s.marking = Marking::new(tokens);
    s
}

#[test]
fn builder_records_places_transitions_and_arcs() {
    let (net, init) = lock_net();
    assert_eq!(net.places.len(), 3);
    assert_eq!(net.transitions.len(), 3);
    assert_eq!(net.arcs.len(), 5);
    assert_eq!(init.marking, Marking::new(vec![1, 1, 0]));
    assert_eq!(net.transitions[0].kind.anchors, vec!["s1".to_string(), "s2".to_string()]);
    assert_eq!(net.transitions[0].kind.scope, Some("main".to_string()));
    assert_eq!(net.transitions[2].kind.family, Some("f".to_string()));
    assert_eq!(net.arcs[0].direction, ArcDir::Input);
    assert!(matches!(net.arcs[0].kind, unipn::cvn::net::CvnArcKind::Plain));
    assert!(matches!(net.arcs[1].kind, unipn::cvn::net::CvnArcKind::Guard(_)));
    assert_eq!(init.extra.vars.get(&"x".to_string()), Some(&Val::integer(1)));
    assert_eq!(init.extra.domains, vec![("x".to_string(), (0, 3))]);
}

#[test]
fn place_queries_and_labels() {
    let (net, _) = lock_net();
    assert!(net.is_control_flow(PlaceId(0)));
    assert!(net.is_resource(PlaceId(1)));
    assert!(net.is_thread_terminal(PlaceId(2)));
    assert!(!net.is_wait_point(PlaceId(0)));
    assert_eq!(net.capacity_of(PlaceId(1)), Some(1));
    assert_eq!(net.capacity_of(PlaceId(0)), None);
    assert_eq!(net.capacity_of(PlaceId(9)), None);
    assert_eq!(net.place_label(PlaceId(1)), "m");
    assert_eq!(net.place_label(PlaceId(12)), "p12");
    assert_eq!(net.transition_label(TransitionId(0)), "lock");
    assert_eq!(net.transition_label(TransitionId(7)), "t7");
}

#[test]
fn deadlocks_are_blocked_states_with_unfinished_threads() {
    let (net, init) = lock_net();
    // Thread on `a`: a deadlock; token on the mutex and at the end only: not.
    assert!(is_deadlock(&net, &state(vec![1, 0, 0], &init)));
    assert!(!is_deadlock(&net, &state(vec![0, 1, 1], &init)));
    assert!(is_deadlock(&net, &state(vec![0, 0, 0, 2], &init)));
    assert_eq!(blocked_places(&net, &state(vec![1, 1, 1, 3], &init)), vec![PlaceId(0), PlaceId(3)]);
}

fn hand_graph(init: &CvnState) -> ReachabilityGraph<CvnState> {
    // 0 --lock--> 1 ; 0 --alt--> 2 ; states 1 and 2 are blocked.
    ReachabilityGraph {
        states: vec![state(vec![1, 1, 0], init), state(vec![0, 0, 1], init), state(vec![0, 1, 0, 1], init)],
        edges: vec![(0, 1, TransitionId(0)), (0, 2, TransitionId(2))],
        initial: 0,
        blocked: vec![1, 2],
        truncated: false,
        preds: vec![None, Some((0, TransitionId(0))), Some((0, TransitionId(2)))],
    }
}

#[test]
fn find_deadlocks_reports_traces_with_anchors() {
    let (net, init) = lock_net();
    let graph = hand_graph(&init);
    let found = find_deadlocks(&net, &graph);
    assert_eq!(found.len(), 1);
    assert_eq!(found[0].kind, PropertyViolation::Deadlock);
    assert_eq!(found[0].final_state.marking, Marking::new(vec![0, 1, 0, 1]));
    assert_eq!(found[0].trace.len(), 1);
    assert_eq!(found[0].trace[0].transition, TransitionId(2));
    assert!(found[0].trace[0].anchors.is_empty());
}

#[test]
fn dead_transitions_skip_live_families() {
    let (net, init) = lock_net();
    let graph = hand_graph(&init);
    // unlock never fired, but its family fired through `alt`.
    assert!(find_dead_transitions(&net, &graph).is_empty());
    let only_lock = ReachabilityGraph {
        states: vec![state(vec![1, 1, 0], &init), state(vec![0, 0, 1], &init)],
        edges: vec![(0, 1, TransitionId(0))],
        initial: 0,
        blocked: vec![1],
        truncated: false,
        preds: vec![None, Some((0, TransitionId(0)))],
    };
    let dead = find_dead_transitions(&net, &only_lock);
    // The dead family is reported once, by its first member.
    assert_eq!(dead.len(), 1);
    assert_eq!(
        dead[0].kind,
        PropertyViolation::DeadTransition { transition: TransitionId(1), anchors: Vec::new() }
    );
    assert!(dead[0].trace.is_empty());
    assert_eq!(dead[0].final_state.marking, Marking::new(vec![1, 1, 0]));
    let nothing = ReachabilityGraph {
        states: vec![state(vec![1, 1, 0], &init)],
        edges: Vec::new(),
        initial: 0,
        blocked: vec![0],
        truncated: false,
        preds: vec![None],
    };
    let all_dead = find_dead_transitions(&net, &nothing);
    assert_eq!(all_dead.len(), 2);
    assert_eq!(
        all_dead[0].kind,
        PropertyViolation::DeadTransition {
            transition: TransitionId(0),
            anchors: vec!["s1".to_string(), "s2".to_string()]
        }
    );
}

#[test]
fn conflicts_are_pairs_sharing_an_input_place() {
    let (net, _) = lock_net();
    // lock and alt share `a`; lock and unlock share `m`.
    assert_eq!(conflict_sets(&net), vec![(TransitionId(0), TransitionId(1)), (TransitionId(0), TransitionId(2))]);
    let mut b = CvnBuilder::new();
    let p = b.add_place("p", PlaceKind::Control(ControlSub::BasicBlock));
    let t = b.add_transition("t", TransitionKind::Goto);
    b.add_input_arc(p, t, 1, BoolExpr::True);
    b.add_input_arc(p, t, 1, BoolExpr::True);
    let (twice, _) = b.build();
    assert_eq!(conflict_sets(&twice), vec![(TransitionId(0), TransitionId(0))]);
}

#[test]
fn later_domain_replaces_earlier() {
    let mut b = CvnBuilder::new();
    b.set_variable_domain("x", 0, 1).set_variable_domain("y", 2, 3).set_variable_domain("x", 5, 9);
    let (_, s) = b.build();
    assert_eq!(s.extra.domains, vec![("x".to_string(), (5, 9)), ("y".to_string(), (2, 3))]);
}
