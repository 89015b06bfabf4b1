use std::cmp::Ordering;
use std::collections::HashMap;

use unipn::analysis::timed::dbm::{DBM, INF_TIME};
use unipn::analysis::timed::reachability::{
    escape_dot, format_marking_of, out_edge_transitions, reachable_markings,
    StateClassReachabilityGraph, TimedReachabilityConfig,
};
use unipn::analysis::timed::scheduling::Scheduling;
use unipn::analysis::timed::state_class::{contains, hash_combine, FiringEdge};
use unipn::bug::{PlaceType, TransitionType};
use unipn::pt::{ArcDir, Marking, PtNet, PtPlace, PtTransition};
use unipn::timed::{TimeInterval, TimedNet, TransitionTiming, INF};

fn place(name: &str, tokens: usize) -> PtPlace {
    PtPlace {
        name: name.to_string(),
        tokens,
        capacity: None,
        place_type: PlaceType::BasicBlock,
        span: String::new(),
    }
}

fn timing(earliest: i32, latest: i32, priority: i32, core: i32) -> TransitionTiming {
    TransitionTiming {
        interval: TimeInterval::closed(earliest, latest),
        priority,
        core,
        suspendable: false,
    }
}

/// p0 -t0 [1, 2]-> p1 -t1 [0, inf]-> p2, one token on p0.
fn chain() -> TimedNet {
    let mut net = PtNet::new();
    let p0 = net.add_place(place("p0", 1));
    let p1 = net.add_place(place("p1", 0));
    let p2 = net.add_place(place("p2", 0));
    let t0 = net.add_transition(PtTransition::new_with_transition_type("t0".to_string(), TransitionType::Normal));
    let t1 = net.add_transition(PtTransition::new_with_transition_type("t1".to_string(), TransitionType::Normal));
    net.add_arc(p0, t0, ArcDir::Input, 1);
    net.add_arc(p1, t0, ArcDir::Output, 1);
    net.add_arc(p1, t1, ArcDir::Input, 1);
    net.add_arc(p2, t1, ArcDir::Output, 1);
    TimedNet::new(net, vec![timing(1, 2, 0, 0), timing(0, INF, 0, 0)])
}

/// Three transitions consuming from one place with three tokens, all on
/// core 1, with priorities 5, 7 and 7.
fn contention() -> TimedNet {
    let mut net = PtNet::new();
    let p0 = net.add_place(place("p0", 3));
    for (i, _) in [5, 7, 7].iter().enumerate() {
        let t = net.add_transition(PtTransition::new_with_transition_type(format!("t{}", i), TransitionType::Normal));
        net.add_arc(p0, t, ArcDir::Input, 1);
    }
    TimedNet::new(net, vec![timing(0, INF, 5, 1), timing(0, INF, 7, 1), timing(0, INF, 7, 1)])
}

#[test]
fn interval_bounds() {
    let i = TimeInterval::closed(-3, 5);
    assert_eq!(i.effective_earliest(), 0);
    assert_eq!(i.effective_latest(), 5);
    let j = TimeInterval::closed(4, 2);
    assert_eq!(j.effective_latest(), 4);
    assert_eq!(TimeInterval::closed(1, INF).effective_latest(), INF);
}

#[test]
fn priority_filter_per_core() {
    let net = contention();
    let m = Marking::new(vec![3]);
    let enabled = Scheduling::structural_enabled(&net, &m);
    assert_eq!(enabled, vec![0, 1, 2]);

    let unbounded = HashMap::new();
    assert_eq!(Scheduling::filter_priority_per_core(&enabled, &net, &unbounded), vec![1, 2]);

    let mut one = HashMap::new();
    one.insert(1, 1);
    assert_eq!(Scheduling::filter_priority_per_core(&enabled, &net, &one), vec![1]);

    let mut two = HashMap::new();
    two.insert(1, 2);
    assert_eq!(Scheduling::filter_priority_per_core(&enabled, &net, &two), vec![1, 2]);

    let mut three = HashMap::new();
    three.insert(1, 3);
    assert_eq!(Scheduling::filter_priority_per_core(&enabled, &net, &three), vec![0, 1, 2]);
}

#[test]
fn suspended_transitions_are_the_preempted_suspendable_ones() {
    let mut net = contention();
    net.timing[0].suspendable = true;
    let mut one = HashMap::new();
    one.insert(1, 1);
    let (se, pe, susp) = Scheduling::compute_sets(&net, &Marking::new(vec![3]), &one);
    assert_eq!(se, vec![0, 1, 2]);
    assert_eq!(pe, vec![1]);
    assert_eq!(susp, vec![0]);
}

#[test]
fn state_class_graph_of_a_chain() {
    let net = chain();
    let mut builder = StateClassReachabilityGraph::new(&net, Marking::new(vec![1, 0, 0]));
    assert_eq!(builder.build(100), 3);
    let graph = builder.get_graph();
    assert_eq!(graph.states.len(), 3);
    assert_eq!(graph.edges.len(), 2);
    assert_eq!(graph.initial, 0);
    assert_eq!(graph.stats.total_states, 3);
    assert_eq!(graph.stats.total_transitions, 2);
    assert_eq!(graph.stats.dedup_hits, 0);
    assert!(!graph.stats.truncated);
    assert_eq!(graph.states[1].marking.0, vec![0, 1, 0]);
    assert_eq!(graph.states[2].marking.0, vec![0, 0, 1]);

    let first = &graph.edges[0];
    assert_eq!((first.0, first.1), (0, 1));
    assert_eq!(first.2, FiringEdge { transition_id: 0, firing_min: 1, firing_max: 2, dwell_min: 1, dwell_max: 2 });
    assert_eq!(first.2.to_string(), "T0@[1, 2]");
    let second = &graph.edges[1];
    assert_eq!((second.0, second.1), (1, 2));
    assert_eq!(second.2.firing_max, INF_TIME);
    assert_eq!(second.2.to_string(), "T1@[0, inf]");

    assert_eq!(out_edge_transitions(graph, 0), vec![0]);
    assert_eq!(out_edge_transitions(graph, 2), Vec::<usize>::new());
    assert_eq!(reachable_markings(graph).len(), 3);
    assert_eq!(graph.states[1].elapsed_time, 1);
}

#[test]
fn state_class_graph_stops_at_the_limit() {
    let net = chain();
    let mut builder = StateClassReachabilityGraph::with_config(
        &net,
        Marking::new(vec![1, 0, 0]),
        TimedReachabilityConfig::default(),
    );
    assert_eq!(builder.build(2), 2);
    let graph = builder.get_graph();
    assert!(graph.stats.truncated);
    assert_eq!(graph.edges.len(), 1);
}

#[test]
fn initial_class_pins_every_clock() {
    let net = chain();
    let builder = StateClassReachabilityGraph::new(&net, Marking::new(vec![1, 0, 0]));
    let class = builder.compute_initial_class();
    assert_eq!(class.struct_enabled, vec![0]);
    assert_eq!(class.priority_enabled, vec![0]);
    assert_eq!(class.zone.size(), 2);
    assert_eq!(class.zone.get_constraint(1, 0), 0);
    assert_eq!(class.exec_index(0), 1);
    assert_eq!(class.exec_index(1), -1);
    assert!(class.has_exec_clock(0));
    assert!(!class.has_susp_clock(0));

    let elapsed = builder.time_elapse(&class);
    assert_eq!(elapsed.zone.get_constraint(1, 0), 2);
    assert_eq!(elapsed.zone.get_constraint(0, 1), 0);
    assert!(builder.is_firable(&elapsed, 0));
    assert!(!builder.is_firable(&elapsed, 1));
}

#[test]
fn dot_escaping() {
    assert_eq!(escape_dot("a\"b\\c\nd"), "a\\\"b\\\\c\\nd");
    assert_eq!(escape_dot("plain"), "plain");
}

#[test]
fn marking_text() {
    let net = chain();
    assert_eq!(format_marking_of(&net, &Marking::new(vec![2, 0, 1])), "[p0(2), p2]");
    assert_eq!(format_marking_of(&net, &Marking::new(vec![0, 0, 0])), "[empty]");
    assert_eq!(format_marking_of(&net, &Marking::new(vec![0, 0, 0, 4])), "[P3(4)]");
}

#[test]
fn hash_mixing() {
    let mut seed: u64 = 0;
    hash_combine(&mut seed, 0);
    assert_eq!(seed, 0x9e3779b97f4a7c15);
}

#[test]
fn sorted_set_membership() {
    assert!(contains(&vec![1, 3, 5], 3));
    assert!(!contains(&vec![1, 3, 5], 4));
}

#[test]
fn zone_closure_and_inclusion() {
    let mut d = DBM::new(3);
    d.set_constraint(1, 0, 5);
    d.set_constraint(2, 1, 2);
    d.minimize();
    assert_eq!(d.get_constraint(2, 0), 7);
    assert!(d.is_consistent());

    let mut e = DBM::new(3);
    e.set_constraint(1, 0, 10);
    e.set_constraint(2, 0, 20);
    e.minimize();
    assert!(d.included_in(&e));
    assert!(!e.included_in(&d));
    assert!(e.contains(&d));
}

#[test]
fn contradictory_zone_is_empty() {
    let mut d = DBM::new(2);
    d.set_constraint(1, 0, 1);
    d.set_constraint(0, 1, -2);
    assert!(!d.minimize_and_check());
}

#[test]
fn zones_order_by_size_then_bounds_then_frozen_clocks() {
    let small = DBM::new(2);
    let large = DBM::new(3);
    assert_eq!(small.compare(&large), Ordering::Less);
    assert_eq!(large.compare(&small), Ordering::Greater);

    let mut bounded = DBM::new(2);
    bounded.set_constraint(1, 0, 5);
    assert_eq!(bounded.compare(&small), Ordering::Less);
    assert_eq!(small.compare(&bounded), Ordering::Greater);

    let mut tighter = DBM::new(2);
    tighter.set_constraint(1, 0, 3);
    assert_eq!(tighter.compare(&bounded), Ordering::Less);
    assert_eq!(bounded.compare(&bounded.clone()), Ordering::Equal);

    let mut frozen = DBM::new(2);
    frozen.freeze_clock(1);
    assert_eq!(small.compare(&frozen), Ordering::Less);
    assert_eq!(frozen.compare(&small), Ordering::Greater);
}

#[test]
fn future_drops_upper_bounds_and_keeps_lower_bounds() {
    let mut d = DBM::new(2);
    d.set_constraint(1, 0, 3);
    d.set_constraint(0, 1, -3);
    d.future();
    assert_eq!(d.get_constraint(1, 0), INF_TIME);
    assert_eq!(d.get_constraint(0, 1), -3);
}

#[test]
fn reference_clock_cannot_be_frozen() {
    let mut d = DBM::new(3);
    d.freeze_clock(0);
    d.freeze_clock(2);
    assert!(!d.is_frozen(0));
    assert!(d.is_frozen(2));
    assert_eq!(d.frozen_clocks(), &[2]);
}
