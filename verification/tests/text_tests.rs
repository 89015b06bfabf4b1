use unipn::analysis::boundness::BoundnessResult;
use unipn::analysis::timed::dbm::DBM;
use unipn::ids::{PlaceId, TransitionId};

#[test]
fn boundness_verdicts_in_words() {
    assert_eq!(BoundnessResult::Bounded.text(), "Petri net is bounded");
    let unbounded = BoundnessResult::Unbounded {
        unbounded_places: vec![PlaceId(0), PlaceId(3)],
        witness_sequence: Some(vec![TransitionId(1)]),
    };
    assert_eq!(
        unbounded.text(),
        "Petri net is unbounded; unbounded places: [PlaceId(0), PlaceId(3)]; witness sequence: [TransitionId(1)]"
    );
    let no_witness = BoundnessResult::Unbounded { unbounded_places: Vec::new(), witness_sequence: None };
    assert_eq!(no_witness.text(), "Petri net is unbounded; unbounded places: []");
    let unknown = BoundnessResult::Unknown { reason: "state limit".to_string() };
    assert_eq!(unknown.text(), "Could not determine boundness: state limit");
}

#[test]
fn dbm_renders_as_a_table() {
    assert_eq!(DBM::new(0).render(), "DBM(empty)");
    let mut d = DBM::new(2);
    assert_eq!(
        d.render(),
        "DBM(size=2):\n         x0      x1\nx0        0       0\nx1      inf       0\n"
    );
    d.set_constraint(1, 0, -12);
    assert!(d.render().contains("x1      -12       0\n"));
}
