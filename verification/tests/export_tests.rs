use unipn::cvn::builder::CvnBuilder;
use unipn::cvn::expr::BoolExpr;
use unipn::cvn::kinds::{ControlSub, PlaceKind, ResourceType, TransitionKind};
use unipn::export::to_dot;

#[test]
fn dot_export_styles_places_and_transitions() {
    let mut b = CvnBuilder::new();
    let a = b.add_place("a", PlaceKind::Control(ControlSub::BasicBlock));
    let m = b.add_place("m", PlaceKind::Resource(ResourceType::Mutex));
    let w = b.add_place("w", PlaceKind::Control(ControlSub::WaitPoint));
    let lock = b.add_transition("lock", TransitionKind::Lock);
    let sw = b.add_transition("sw", TransitionKind::Switch { label: "case \"1\"".to_string() });
    b.add_input_arc(a, lock, 1, BoolExpr::True);
    b.add_input_arc(m, lock, 1, BoolExpr::True);
    b.add_output_arc(lock, w, 2, None);
    b.add_input_arc(w, sw, 1, BoolExpr::True);
    let (net, _) = b.build();
    let expected = [
        "digraph PetriNet {\n",
        "    rankdir=LR;\n",
        "    p0 [label=\"a\\n\", shape=circle, style=filled, fillcolor=\"#e3f2fd\"];\n",
        "    p1 [label=\"m\\nmutex\", shape=box, style=filled, fillcolor=\"#c8e6c9\"];\n",
        "    p2 [label=\"w\\nwait\", shape=diamond, style=filled, fillcolor=\"#ffe0b2\"];\n",
        "    t0 [label=\"lock\\nlock\", shape=box, style=filled, fillcolor=\"#ffcdd2\"];\n",
        "    t1 [label=\"sw\\ncase \\\"1\\\"\", shape=box, style=filled, fillcolor=\"#ffe0b2\"];\n",
        "    p0 -> t0;\n",
        "    p1 -> t0;\n",
        "    t0 -> p2 [label=\"2\"];\n",
        "    p2 -> t1;\n",
        "}\n",
    ]
    .concat();
    assert_eq!(to_dot(&net), expected);
}

#[test]
fn dot_export_of_ends_and_resources() {
    let mut b = CvnBuilder::new();
    b.add_place("e", PlaceKind::Control(ControlSub::FunctionEnd));
    b.add_place("s", PlaceKind::Resource(ResourceType::Semaphore { count: 2 }));
    let t = b.add_transition("go", TransitionKind::Spawn);
    let (net, _) = b.build();
    let dot = to_dot(&net);
    assert!(dot.contains("    p0 [label=\"e\\nend\", shape=circle, style=filled, fillcolor=\"#e3f2fd\"];\n"));
    assert!(dot.contains("    p1 [label=\"s\\nsem\", shape=box, style=filled, fillcolor=\"#c8e6c9\"];\n"));
    assert!(dot.contains("    t0 [label=\"go\\nspawn\", shape=box, style=filled, fillcolor=\"#fff9c4\"];\n"));
    assert!(dot.ends_with("fillcolor=\"#fff9c4\"];\n}\n"));
    let _ = t;
}
