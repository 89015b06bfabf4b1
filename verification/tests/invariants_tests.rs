use num_bigint::BigInt;
use unipn::analysis::invariants::{compute_nullspace, place_invariants, transition_invariants, BigNum};
use unipn::bug::{PlaceType, TransitionType};
use unipn::pt::{ArcDir, PtNet, PtPlace, PtTransition};

fn place(name: &str, tokens: usize) -> PtPlace {
    PtPlace {
        name: name.to_string(),
        tokens,
        capacity: None,
        place_type: PlaceType::BasicBlock,
        span: String::new(),
    }
}

fn transition(name: &str) -> PtTransition {
    PtTransition::new_with_transition_type(name.to_string(), TransitionType::Goto)
}

fn values(v: &[BigNum]) -> Vec<BigInt> {
    v.iter().map(|x| BigInt::from_signed_bytes_le(&x.bytes)).collect()
}

fn big(x: i64) -> BigNum {
    BigNum { bytes: BigInt::from(x).to_signed_bytes_le() }
}

fn ints(xs: &[i64]) -> Vec<BigInt> {
    xs.iter().map(|x| BigInt::from(*x)).collect()
}

/// p0 -t0-> p1 -t1-> p0.
fn cycle_net() -> PtNet {
    let mut net = PtNet::new();
    let p0 = net.add_place(place("p0", 1));
    let p1 = net.add_place(place("p1", 0));
    let t0 = net.add_transition(transition("t0"));
    let t1 = net.add_transition(transition("t1"));
    net.add_arc(p0, t0, ArcDir::Input, 1);
    net.add_arc(p1, t0, ArcDir::Output, 1);
    net.add_arc(p1, t1, ArcDir::Input, 1);
    net.add_arc(p0, t1, ArcDir::Output, 1);
    net
}

/// p0 -t0-> p1 -t1-> p2.
fn chain_net() -> PtNet {
    let mut net = PtNet::new();
    let p0 = net.add_place(place("p0", 1));
    let p1 = net.add_place(place("p1", 0));
    let p2 = net.add_place(place("p2", 0));
    let t0 = net.add_transition(transition("t0"));
    let t1 = net.add_transition(transition("t1"));
    net.add_arc(p0, t0, ArcDir::Input, 1);
    net.add_arc(p1, t0, ArcDir::Output, 1);
    net.add_arc(p1, t1, ArcDir::Input, 1);
    net.add_arc(p2, t1, ArcDir::Output, 1);
    net
}

#[test]
fn a_cycle_conserves_its_token_and_can_repeat() {
    let net = cycle_net();
    let ps = place_invariants(&net);
    assert_eq!(ps.len(), 1);
    assert_eq!(values(&ps[0]), ints(&[1, 1]));
    let ts = transition_invariants(&net);
    assert_eq!(ts.len(), 1);
    assert_eq!(values(&ts[0]), ints(&[1, 1]));
}

#[test]
fn a_chain_conserves_its_token_but_cannot_repeat() {
    let net = chain_net();
    let ps = place_invariants(&net);
    assert_eq!(ps.len(), 1);
    assert_eq!(values(&ps[0]), ints(&[1, 1, 1]));
    assert!(transition_invariants(&net).is_empty());
}

#[test]
fn weighted_arcs_give_scaled_coprime_invariants() {
    // t0 takes 2 from p0 and puts 3 on p1: 3·m(p0) + 2·m(p1) is constant.
    let mut net = PtNet::new();
    let p0 = net.add_place(place("p0", 6));
    let p1 = net.add_place(place("p1", 0));
    let t0 = net.add_transition(transition("t0"));
    net.add_arc(p0, t0, ArcDir::Input, 2);
    net.add_arc(p1, t0, ArcDir::Output, 3);
    let ps = place_invariants(&net);
    assert_eq!(ps.len(), 1);
    assert_eq!(values(&ps[0]), ints(&[3, 2]));
}

#[test]
fn the_kernel_of_no_rows_is_every_unit_vector() {
    let basis = compute_nullspace(&Vec::new(), 2);
    assert_eq!(basis.len(), 2);
    assert_eq!(values(&basis[0]), ints(&[1, 0]));
    assert_eq!(values(&basis[1]), ints(&[0, 1]));
    assert!(compute_nullspace(&vec![vec![big(1), big(2)]], 0).is_empty());
}

#[test]
fn the_kernel_of_a_full_rank_matrix_is_empty() {
    let m = vec![vec![big(1), big(2)], vec![big(3), big(4)]];
    assert!(compute_nullspace(&m, 2).is_empty());
    let m = vec![vec![big(2), big(-4), big(6)]];
    let basis = compute_nullspace(&m, 3);
    assert_eq!(basis.len(), 2);
    assert_eq!(values(&basis[0]), ints(&[2, 1, 0]));
    assert_eq!(values(&basis[1]), ints(&[-3, 0, 1]));
}
