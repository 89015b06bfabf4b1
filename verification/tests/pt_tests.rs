use unipn::analysis::boundness::{check_boundness, BoundnessResult};
use unipn::analysis::pt::reachability::{StateGraph, StateGraphConfig};
use unipn::analysis::pt::reduce::graph::ReductionGraph;
use unipn::analysis::pt::reduce::{
    reduce, ReductionError, ReductionOptions, ReductionStep, ReductionValidator,
};
use unipn::analysis::pt_graph::{PtStateGraph, PtStateGraphConfig};
use unipn::bug::{PlaceType, TransitionType};
use unipn::ids::{PlaceId, TransitionId};
use unipn::pt::{ArcDir, Marking, PtExecutionError, PtNet, PtPlace, PtTransition};

fn place(name: &str, tokens: usize, place_type: PlaceType) -> PtPlace {
    PtPlace {
        name: name.to_string(),
        tokens,
        capacity: None,
        place_type,
        span: String::new(),
    }
}

fn transition(name: &str, transition_type: TransitionType) -> PtTransition {
    PtTransition::new_with_transition_type(name.to_string(), transition_type)
}

/// p0 -t0-> p1 -t1-> p0, one token on p0.
fn cycle_net(tokens: usize) -> PtNet {
    let mut net = PtNet::new();
    let p0 = net.add_place(place("p0", tokens, PlaceType::BasicBlock));
    let p1 = net.add_place(place("p1", 0, PlaceType::BasicBlock));
    let t0 = net.add_transition(transition("t0", TransitionType::Goto));
    let t1 = net.add_transition(transition("t1", TransitionType::Goto));
    net.add_arc(p0, t0, ArcDir::Input, 1);
    net.add_arc(p1, t0, ArcDir::Output, 1);
    net.add_arc(p1, t1, ArcDir::Input, 1);
    net.add_arc(p0, t1, ArcDir::Output, 1);
    net
}

/// p0 -t0-> p1 -t1-> p2, one token on p0.
fn chain_net() -> PtNet {
    let mut net = PtNet::new();
    let p0 = net.add_place(place("p0", 1, PlaceType::BasicBlock));
    let p1 = net.add_place(place("p1", 0, PlaceType::BasicBlock));
    let p2 = net.add_place(place("p2", 0, PlaceType::BasicBlock));
    let t0 = net.add_transition(transition("t0", TransitionType::Goto));
    let t1 = net.add_transition(transition("t1", TransitionType::Goto));
    net.add_arc(p0, t0, ArcDir::Input, 1);
    net.add_arc(p1, t0, ArcDir::Output, 1);
    net.add_arc(p1, t1, ArcDir::Input, 1);
    net.add_arc(p2, t1, ArcDir::Output, 1);
    net
}

#[test]
fn firing_moves_the_token() {
    let net = cycle_net(1);
    let m0 = net.initial_marking();
    assert_eq!(m0.0, vec![1, 0]);
    assert_eq!(net.enabled(&m0), vec![TransitionId(0)]);
    let m1 = net.fire(&m0, TransitionId(0)).unwrap();
    assert_eq!(m1.0, vec![0, 1]);
    let m2 = net.fire(&m1, TransitionId(1)).unwrap();
    assert_eq!(m2.0, vec![1, 0]);
}

#[test]
fn firing_a_disabled_transition_fails() {
    let net = cycle_net(1);
    let m0 = net.initial_marking();
    assert!(!net.is_enabled(&m0, TransitionId(1)));
    assert!(matches!(net.fire(&m0, TransitionId(1)), Err(PtExecutionError::NotEnabled)));
}

#[test]
fn reset_and_inhibitor_arcs() {
    let mut net = PtNet::new();
    let p0 = net.add_place(place("p0", 3, PlaceType::BasicBlock));
    let p1 = net.add_place(place("p1", 0, PlaceType::BasicBlock));
    let t0 = net.add_transition(transition("t0", TransitionType::Reset));
    net.add_arc(p0, t0, ArcDir::Reset, 1);
    net.add_arc(p1, t0, ArcDir::Inhibitor, 1);
    let m0 = net.initial_marking();
    let m1 = net.fire(&m0, t0).unwrap();
    assert_eq!(m1.0, vec![0, 0]);
    let blocked = Marking::new(vec![3, 1]);
    assert!(!net.is_enabled(&blocked, t0));
}

#[test]
fn explored_graph_has_both_markings_of_the_cycle() {
    let net = cycle_net(1);
    let graph = PtStateGraph::explore(&net, None, PtStateGraphConfig::default()).unwrap();
    assert_eq!(graph.states.len(), 2);
    assert_eq!(graph.edges.len(), 2);
    assert!(!graph.truncated);
    assert!(graph.blocked.is_empty());
}

#[test]
fn state_graph_finds_the_deadlock_of_the_chain() {
    let net = chain_net();
    let graph = StateGraph::from_net(&net, net.initial_marking());
    assert_eq!(graph.node_count(), 3);
    assert_eq!(graph.edge_count(), 2);
    assert!(graph.contains_marking(&Marking::new(vec![0, 0, 1])));
    assert!(!graph.contains_marking(&Marking::new(vec![1, 1, 0])));
    let stats = graph.stats();
    assert_eq!(stats.deadlock_count, 1);
}

#[test]
fn cycle_is_bounded() {
    let net = cycle_net(2);
    assert!(matches!(check_boundness(&net, &net.initial_marking()), BoundnessResult::Bounded));
}

#[test]
fn producer_is_unbounded() {
    let mut net = PtNet::new();
    let p0 = net.add_place(place("p0", 1, PlaceType::BasicBlock));
    let p1 = net.add_place(place("p1", 0, PlaceType::BasicBlock));
    let t0 = net.add_transition(transition("t0", TransitionType::Normal));
    net.add_arc(p0, t0, ArcDir::Input, 1);
    net.add_arc(p0, t0, ArcDir::Output, 1);
    net.add_arc(p1, t0, ArcDir::Output, 1);
    match check_boundness(&net, &net.initial_marking()) {
        BoundnessResult::Unbounded { unbounded_places, .. } => {
            assert_eq!(unbounded_places, vec![PlaceId(1)]);
        }
        _ => panic!("expected an unbounded net"),
    }
}

struct Accept;

impl ReductionValidator for Accept {
    fn check(&self, _net: &PtNet, _marking: &Marking) -> Result<(), ReductionError> {
        Ok(())
    }
}

struct Reject;

impl ReductionValidator for Reject {
    fn check(&self, _net: &PtNet, _marking: &Marking) -> Result<(), ReductionError> {
        Err(ReductionError::ValidationFailed("no".to_string()))
    }
}

#[test]
fn empty_loop_is_removed() {
    let mut graph = ReductionGraph::from_net(&cycle_net(0), &Marking::new(vec![0, 0]));
    let steps = graph.remove_simple_loops();
    assert_eq!(steps.len(), 1);
    match &steps[0] {
        ReductionStep::LoopRemoved { removed_places, removed_transitions } => {
            assert_eq!(removed_places.len(), 2);
            assert_eq!(removed_transitions.len(), 2);
        }
        _ => panic!("expected a loop removal"),
    }
    let reduced = graph.materialize();
    assert_eq!(reduced.net.places.len(), 0);
    assert_eq!(reduced.net.transitions.len(), 0);
}

#[test]
fn marked_loop_is_kept() {
    let net = cycle_net(1);
    let mut graph = ReductionGraph::from_net(&net, &net.initial_marking());
    assert!(graph.remove_simple_loops().is_empty());
    assert_eq!(graph.materialize().net.places.len(), 2);
}

#[test]
fn intermediate_place_is_eliminated() {
    let net = chain_net();
    let mut graph = ReductionGraph::from_net(&net, &net.initial_marking());
    let steps = graph.eliminate_intermediate_places();
    assert_eq!(steps.len(), 1);
    let reduced = graph.materialize();
    assert_eq!(reduced.net.places.len(), 2);
    assert_eq!(reduced.net.transitions.len(), 1);
    assert_eq!(reduced.net.transitions[0].name, "inter_merge#0");
    assert_eq!(reduced.net.transitions[0].transition_type, TransitionType::Goto);
    assert_eq!(reduced.marking.0, vec![1, 0]);
    assert_eq!(reduced.trace.place_mapping, vec![vec![PlaceId(0)], vec![PlaceId(2)]]);
    assert_eq!(reduced.trace.transition_mapping, vec![vec![TransitionId(0), TransitionId(1)]]);
}

#[test]
fn unsafe_access_blocks_merging() {
    let mut net = chain_net();
    net.transitions[1].transition_type = TransitionType::UnsafeAccess(Vec::new());
    let mut graph = ReductionGraph::from_net(&net, &net.initial_marking());
    assert!(graph.eliminate_intermediate_places().is_empty());
}

#[test]
fn reduction_keeps_marked_places() {
    let net = chain_net();
    let options: ReductionOptions<Accept> = ReductionOptions::default();
    let result = reduce(&net, &net.initial_marking(), options).unwrap();
    assert_eq!(result.net.places.len(), 2);
    assert_eq!(result.marking.0, vec![1, 0]);
    assert_eq!(result.steps.len(), 1);
    assert_eq!(result.stage_nets.after_loop.places.len(), 3);
    assert_eq!(result.stage_nets.after_intermediate.places.len(), 2);
}

#[test]
fn rejecting_validator_fails_the_reduction() {
    let net = chain_net();
    let options = ReductionOptions { invariant_checker: Some(Reject), property_checker: None };
    match reduce(&net, &net.initial_marking(), options) {
        Err(e) => {
            assert_eq!(e.message(), "validator rejected reduced net: validator rejected reduced net: no");
        }
        Ok(_) => panic!("expected a validation failure"),
    }
}

#[test]
fn sleep_sets_keep_the_deadlock_of_two_independent_transitions() {
    let mut net = PtNet::new();
    let p0 = net.add_place(place("p0", 1, PlaceType::BasicBlock));
    let p1 = net.add_place(place("p1", 0, PlaceType::BasicBlock));
    let p2 = net.add_place(place("p2", 1, PlaceType::BasicBlock));
    let p3 = net.add_place(place("p3", 0, PlaceType::BasicBlock));
    let t0 = net.add_transition(transition("t0", TransitionType::Goto));
    let t1 = net.add_transition(transition("t1", TransitionType::Goto));
    net.add_arc(p0, t0, ArcDir::Input, 1);
    net.add_arc(p1, t0, ArcDir::Output, 1);
    net.add_arc(p2, t1, ArcDir::Input, 1);
    net.add_arc(p3, t1, ArcDir::Output, 1);
    let config = StateGraphConfig { state_limit: None, include_zero_tokens: false, use_por: true };
    let graph = StateGraph::with_config(&net, net.initial_marking(), config);
    assert!(graph.contains_marking(&Marking::new(vec![0, 1, 0, 1])));
    assert_eq!(graph.node_count(), 4);
    assert_eq!(graph.stats().deadlock_count, 1);
}

#[test]
fn merged_transition_takes_the_outer_arcs() {
    let mut net = chain_net();
    net.transitions[0].transition_type = TransitionType::Normal;
    let mut graph = ReductionGraph::from_net(&net, &net.initial_marking());
    let steps = graph.eliminate_intermediate_places();
    assert_eq!(steps.len(), 1);
    match &steps[0] {
        ReductionStep::IntermediatePlaceEliminated { places, merged_transitions } => {
            assert_eq!(places, &vec![PlaceId(1)]);
            assert_eq!(merged_transitions, &vec![TransitionId(0), TransitionId(1)]);
        }
        _ => panic!("expected an intermediate place elimination"),
    }
    let reduced = graph.materialize();
    assert_eq!(reduced.net.transitions[0].transition_type, TransitionType::Normal);
    let inputs = reduced.net.arcs_of(TransitionId(0), ArcDir::Input);
    let outputs = reduced.net.arcs_of(TransitionId(0), ArcDir::Output);
    assert_eq!(inputs.len(), 1);
    assert_eq!(outputs.len(), 1);
    assert_eq!(inputs[0].place, PlaceId(0));
    assert_eq!(outputs[0].place, PlaceId(1));
    assert_eq!(inputs[0].weight, 1);
    assert_eq!(outputs[0].weight, 1);
}
