use unipn::analysis::netlike::{explore, find_deadlocks, AnalysisConfig, NetLike, SearchStrategy};
use unipn::bug::{PlaceType, TransitionType};
use unipn::ids::TransitionId;
use unipn::pt::{ArcDir, Marking, PtNet, PtPlace, PtTransition};

fn place(name: &str, tokens: usize) -> PtPlace {
    PtPlace {
        name: name.to_string(),
        tokens,
        capacity: None,
        place_type: PlaceType::BasicBlock,
        span: String::new(),
    }
}

fn transition(name: &str) -> PtTransition {
    PtTransition::new_with_transition_type(name.to_string(), TransitionType::Goto)
}

/// p0 -t0-> p1 -t1-> p2, one token on p0.
fn chain_net() -> PtNet {
    let mut net = PtNet::new();
    let p0 = net.add_place(place("p0", 1));
    let p1 = net.add_place(place("p1", 0));
    let p2 = net.add_place(place("p2", 0));
    let t0 = net.add_transition(transition("t0"));
    let t1 = net.add_transition(transition("t1"));
    net.add_arc(p0, t0, ArcDir::Input, 1);
    net.add_arc(p1, t0, ArcDir::Output, 1);
    net.add_arc(p1, t1, ArcDir::Input, 1);
    net.add_arc(p2, t1, ArcDir::Output, 1);
    net
}

/// p0 -t0-> p1 -t1-> p0, one token on p0.
fn cycle_net() -> PtNet {
    let mut net = PtNet::new();
    let p0 = net.add_place(place("p0", 1));
    let p1 = net.add_place(place("p1", 0));
    let t0 = net.add_transition(transition("t0"));
    let t1 = net.add_transition(transition("t1"));
    net.add_arc(p0, t0, ArcDir::Input, 1);
    net.add_arc(p1, t0, ArcDir::Output, 1);
    net.add_arc(p1, t1, ArcDir::Input, 1);
    net.add_arc(p0, t1, ArcDir::Output, 1);
    net
}

/// p0 chooses t0 (to p1) or t1 (to p2); then t2 moves p1 to p3 and t3
/// moves p2 to p4.
fn branching_net() -> PtNet {
    let mut net = PtNet::new();
    let p0 = net.add_place(place("p0", 1));
    let p1 = net.add_place(place("p1", 0));
    let p2 = net.add_place(place("p2", 0));
    let p3 = net.add_place(place("p3", 0));
    let p4 = net.add_place(place("p4", 0));
    let t0 = net.add_transition(transition("t0"));
    let t1 = net.add_transition(transition("t1"));
    let t2 = net.add_transition(transition("t2"));
    let t3 = net.add_transition(transition("t3"));
    net.add_arc(p0, t0, ArcDir::Input, 1);
    net.add_arc(p1, t0, ArcDir::Output, 1);
    net.add_arc(p0, t1, ArcDir::Input, 1);
    net.add_arc(p2, t1, ArcDir::Output, 1);
    net.add_arc(p1, t2, ArcDir::Input, 1);
    net.add_arc(p3, t2, ArcDir::Output, 1);
    net.add_arc(p2, t3, ArcDir::Input, 1);
    net.add_arc(p4, t3, ArcDir::Output, 1);
    net
}

#[test]
fn analysis_config_defaults() {
    let config = AnalysisConfig::default();
    assert_eq!(config.strategy, SearchStrategy::Bfs);
    assert_eq!(config.max_states, 100_000);
}

#[test]
fn net_like_sizes_and_firing() {
    let net = chain_net();
    assert_eq!(NetLike::num_places(&net), 3);
    assert_eq!(NetLike::num_transitions(&net), 2);
    let m0 = net.initial_marking();
    assert_eq!(NetLike::enabled(&net, &m0), vec![TransitionId(0)]);
    assert_eq!(NetLike::fire(&net, &m0, TransitionId(0)), Some(Marking(vec![0, 1, 0])));
    assert_eq!(NetLike::fire(&net, &m0, TransitionId(1)), None);
    assert_eq!(NetLike::fire(&net, &m0, TransitionId(7)), None);
}

#[test]
fn explore_chain_finds_the_final_blocked_state() {
    let net = chain_net();
    let graph = explore(&net, net.initial_marking(), &AnalysisConfig::default());
    assert_eq!(graph.state_count(), 3);
    assert_eq!(graph.edge_count(), 2);
    assert_eq!(graph.initial, 0);
    assert!(!graph.truncated);
    assert_eq!(graph.states[2], Marking(vec![0, 0, 1]));
    assert_eq!(graph.blocked, vec![2]);
    assert_eq!(graph.edges, vec![(0, 1, TransitionId(0)), (1, 2, TransitionId(1))]);
    assert_eq!(graph.trace_to(2), vec![TransitionId(0), TransitionId(1)]);
    assert_eq!(graph.trace_to(0), Vec::<TransitionId>::new());
    assert_eq!(graph.fired_transitions(), vec![TransitionId(0), TransitionId(1)]);
}

#[test]
fn explore_cycle_has_no_blocked_state_and_traces_stop_at_the_start() {
    let net = cycle_net();
    let graph = explore(&net, net.initial_marking(), &AnalysisConfig::default());
    assert_eq!(graph.state_count(), 2);
    assert_eq!(graph.edge_count(), 2);
    assert!(graph.blocked.is_empty());
    assert_eq!(graph.edges[1], (1, 0, TransitionId(1)));
    assert_eq!(graph.trace_to(0), Vec::<TransitionId>::new());
    assert_eq!(graph.trace_to(1), vec![TransitionId(0)]);
}

#[test]
fn explore_stops_at_the_state_limit() {
    let net = chain_net();
    let config = AnalysisConfig { strategy: SearchStrategy::Bfs, max_states: 1 };
    let graph = explore(&net, net.initial_marking(), &config);
    assert_eq!(graph.state_count(), 1);
    assert_eq!(graph.edge_count(), 0);
    assert!(graph.truncated);
    assert!(graph.blocked.is_empty());
}

#[test]
fn breadth_and_depth_first_number_states_differently() {
    let net = branching_net();
    let bfs = explore(&net, net.initial_marking(), &AnalysisConfig { strategy: SearchStrategy::Bfs, max_states: 10 });
    let dfs = explore(&net, net.initial_marking(), &AnalysisConfig { strategy: SearchStrategy::Dfs, max_states: 10 });
    assert_eq!(bfs.state_count(), 5);
    assert_eq!(dfs.state_count(), 5);
    assert_eq!(bfs.states[3], Marking(vec![0, 0, 0, 1, 0]));
    assert_eq!(dfs.states[3], Marking(vec![0, 0, 0, 0, 1]));
    assert_eq!(bfs.blocked, vec![3, 4]);
    assert_eq!(dfs.blocked, vec![3, 4]);
    assert_eq!(dfs.trace_to(4), vec![TransitionId(0), TransitionId(2)]);
}

#[test]
fn traces_replay_to_their_states() {
    let net = branching_net();
    let graph = explore(&net, net.initial_marking(), &AnalysisConfig::default());
    for target in 0..graph.state_count() {
        let mut state = net.initial_marking();
        for t in graph.trace_to(target) {
            state = NetLike::fire(&net, &state, t).unwrap();
        }
        assert_eq!(state, graph.states[target]);
    }
}

#[test]
fn find_deadlocks_keeps_the_blocked_states_the_predicate_accepts() {
    let net = branching_net();
    let graph = explore(&net, net.initial_marking(), &AnalysisConfig::default());
    // A token left on p4 counts as a deadlock, one on p3 as a normal end.
    let deadlocks = find_deadlocks(&graph, |m: &Marking| m.0[4] > 0);
    assert_eq!(deadlocks.len(), 1);
    assert_eq!(graph.states[deadlocks[0]], Marking(vec![0, 0, 0, 0, 1]));
    assert!(find_deadlocks(&graph, |_: &Marking| false).is_empty());
}
