use unipn::analysis::pt::reachability::StateGraph;
use unipn::bug::{PlaceType, TransitionType};
use unipn::error::{CvnError, ErrorCode, ErrorLocation};
use unipn::ids::{PlaceId as PlaceIndex, TransitionId as TransitionIndex};
use unipn::model::place::{Place, PlaceId, PlaceKind, ResourceType};
use unipn::model::transition::{Transition, TransitionId, TransitionKind};
use unipn::netmodel::{ArcDecl, InputArc, NetModel, OutputArc, Pattern, ResetArc, Term, Value};
use unipn::pt::{ArcDir, PtNet, PtPlace, PtTransition};

#[test]
fn place_roles() {
    let control = Place::new(
        PlaceId::new("c"),
        PlaceKind::Control { fn_name: "main".to_string(), sid: "s1".to_string() },
    );
    assert!(control.is_control());
    assert!(control.is_control_flow());
    assert!(!control.is_resource());
    assert!(!control.is_return);
    let control = control.with_return(true);
    assert!(control.is_return);

    let lock = Place::new(
        PlaceId::new("m"),
        PlaceKind::Resource { res_name: "m".to_string(), resource_type: ResourceType::Mutex },
    );
    assert!(lock.is_resource());
    assert!(!lock.is_control_flow());

    let wait = Place::new(
        PlaceId::new("w"),
        PlaceKind::Wait { cv_name: "cv".to_string(), fn_name: "f".to_string(), sid: "s2".to_string() },
    );
    assert!(wait.is_wait());
    assert!(wait.is_control_flow());
}

#[test]
fn error_text() {
    assert_eq!(ErrorCode::V001.text(), "V001");
    assert_eq!(ErrorCode::V402.text(), "V402");
    let e = CvnError::new(
        ErrorCode::V003,
        "missing place",
        ErrorLocation::Arc { place: PlaceId::new("p"), transition: TransitionId::new("t") },
    );
    assert_eq!(e.text(), "[V003] missing place");
    assert_eq!(e.code, ErrorCode::V003);
}

#[test]
fn arcs_of_a_transition() {
    let mut model = NetModel::default();
    model.arcs.push(ArcDecl::Input {
        transition: TransitionIndex(0),
        arc: InputArc { place: PlaceIndex(0), pattern: Pattern::Wildcard },
    });
    model.arcs.push(ArcDecl::Output {
        transition: TransitionIndex(0),
        arc: OutputArc { place: PlaceIndex(1), term: Term::Const(Value::Int(3)) },
    });
    model.arcs.push(ArcDecl::Input {
        transition: TransitionIndex(1),
        arc: InputArc { place: PlaceIndex(1), pattern: Pattern::Var("x".to_string()) },
    });
    model.arcs.push(ArcDecl::Reset { transition: TransitionIndex(1), arc: ResetArc { place: PlaceIndex(0) } });

    let ins = model.input_arcs(TransitionIndex(0));
    assert_eq!(ins.len(), 1);
    assert_eq!(ins[0].place, PlaceIndex(0));
    assert_eq!(model.output_arcs(TransitionIndex(0)).len(), 1);
    assert_eq!(model.input_arcs(TransitionIndex(1))[0].pattern, Pattern::Var("x".to_string()));
    assert_eq!(model.reset_arcs(TransitionIndex(1)).len(), 1);
    assert!(model.read_arcs(TransitionIndex(0)).is_empty());
    assert!(model.inhibitor_arcs(TransitionIndex(1)).is_empty());
    assert!(model.place(PlaceIndex(0)).is_none());
}

#[test]
fn state_graph_dot() {
    let mut net = PtNet::new();
    let p0 = net.add_place(PtPlace {
        name: "p\"0".to_string(),
        tokens: 1,
        capacity: None,
        place_type: PlaceType::BasicBlock,
        span: String::new(),
    });
    let t0 = net.add_transition(PtTransition::new_with_transition_type("go".to_string(), TransitionType::Goto));
    net.add_arc(p0, t0, ArcDir::Input, 1);
    let graph = StateGraph::from_net(&net, net.initial_marking());
    let dot = graph.dot();
    assert!(dot.starts_with("digraph StateGraph {\n  rankdir=LR;\n"));
    assert!(dot.contains("  s0 [label=\"s0\\\\nmarking: p\\\"0:1\\\\nenabled: go\"];\n"));
    assert!(dot.contains("  s0 -> s1 [label=\"go\"];\n"));
    assert!(dot.ends_with("}\n"));
}

#[test]
fn transitions_keep_their_anchors_and_know_returns() {
    let t = Transition::new(
        TransitionId::new("t_ret"),
        TransitionKind::Return,
        vec!["s1".to_string(), "s2".to_string(), "s3".to_string()],
    );
    assert!(t.is_return());
    assert_eq!(t.id, TransitionId::new("t_ret"));
    assert_eq!(format!("{:?}", t.anchor_sids), "Anchors { list: [\"s1\", \"s2\", \"s3\"] }");
    let copy = t.clone();
    assert_eq!(format!("{:?}", copy.anchor_sids), format!("{:?}", t.anchor_sids));
    let lock = Transition::new(TransitionId::new("t_lock"), TransitionKind::Lock, Vec::new());
    assert!(!lock.is_return());
    assert_eq!(format!("{:?}", lock.anchor_sids), "Anchors { list: [] }");
}
