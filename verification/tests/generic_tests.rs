use unipn::analysis::generic::{SearchStrategy, StateId, Worklist};

#[test]
fn worklist_supports_both_search_orders() {
    let mut bfs = Worklist::new(SearchStrategy::BreadthFirst, StateId(0));
    bfs.push(StateId(1));
    bfs.push(StateId(2));
    assert_eq!(bfs.pop(), Some(StateId(0)));
    assert_eq!(bfs.pop(), Some(StateId(1)));

    let mut dfs = Worklist::new(SearchStrategy::DepthFirst, StateId(0));
    dfs.push(StateId(1));
    dfs.push(StateId(2));
    assert_eq!(dfs.pop(), Some(StateId(2)));
    assert_eq!(dfs.pop(), Some(StateId(1)));
}

use unipn::analysis::generic::{explore, find_deadlocks, AnalysisError, ExploreConfig, PtSemantics};
use unipn::bug::{PlaceType, TransitionType};
use unipn::pt::{ArcDir, PtNet, PtPlace, PtTransition};

fn chain() -> PtNet {
    let mut net = PtNet::new();
    let mut places = Vec::new();
    for (i, tokens) in [1usize, 0, 0].iter().enumerate() {
        places.push(net.add_place(PtPlace {
            name: format!("p{}", i),
            tokens: *tokens,
            capacity: None,
            place_type: PlaceType::BasicBlock,
            span: String::new(),
        }));
    }
    for i in 0..2 {
        let t = net.add_transition(PtTransition::new_with_transition_type(format!("t{}", i), TransitionType::Goto));
        net.add_arc(places[i], t, ArcDir::Input, 1);
        net.add_arc(places[i + 1], t, ArcDir::Output, 1);
    }
    net
}

#[test]
fn generic_exploration_of_a_chain() {
    let net = chain();
    let graph = explore(&PtSemantics, &net, ExploreConfig::default()).unwrap();
    assert_eq!(graph.states.len(), 3);
    assert_eq!(graph.edges.len(), 2);
    assert_eq!(graph.blocked, vec![StateId(2)]);
    assert!(!graph.truncated);
    assert_eq!(graph.states[2].0, vec![0, 0, 1]);
    assert_eq!(graph.outgoing(StateId(0)).len(), 1);
    assert!(graph.state(StateId(3)).is_none());
    assert_eq!(find_deadlocks(&graph, |_| false), vec![StateId(2)]);
    assert!(find_deadlocks(&graph, |m| m.0[2] == 1).is_empty());
}

#[test]
fn generic_exploration_limits() {
    let net = chain();
    let config = ExploreConfig { strategy: SearchStrategy::DepthFirst, max_states: 2 };
    let graph = explore(&PtSemantics, &net, config).unwrap();
    assert_eq!(graph.states.len(), 2);
    assert!(graph.truncated);
    let zero = ExploreConfig { strategy: SearchStrategy::BreadthFirst, max_states: 0 };
    assert!(matches!(
        explore(&PtSemantics, &net, zero),
        Err(AnalysisError::InvalidConfiguration { max_states: 0 })
    ));
}
