//! The sample value type and the operator catalogue, checked against the
//! host's own double-precision arithmetic.

use dagrid::control::{ControlGraph, Direction};
use dagrid::node::{c, Add, ContainerInput, Inv, Mul, Node, Sine};
use dagrid::Sample;

fn b(x: f64) -> u64 {
    x.to_bits()
}

fn f(x: u64) -> f64 {
    f64::from_bits(x)
}

#[test]
fn arithmetic_matches_the_host() {
    let x = Sample::stereo(b(2.5), b(-3.0));
    let y = Sample::stereo(b(4.0), b(0.5));
    assert_eq!(f(x.add(y).l()), 2.5 + 4.0);
    assert_eq!(f(x.add(y).r()), -3.0 + 0.5);
    assert_eq!(f(x.sub(y).l()), 2.5 - 4.0);
    assert_eq!(f(x.mul(y).r()), -3.0 * 0.5);
    assert_eq!(f(x.div(y).l()), 2.5 / 4.0);
    assert_eq!(f(x.recip().l()), 1.0 / 2.5);
    assert_eq!(f(x.neg().r()), 3.0);
    assert_eq!(f(x.abs().r()), 3.0);
    assert_eq!(f(x.copysign(y).r()), 3.0);
    assert_eq!(f(x.floor().l()), 2.0);
    assert_eq!(f(x.ceil().l()), 3.0);
    assert_eq!(f(x.round().l()), 3.0);
    assert_eq!(f(x.min(y).l()), 2.5);
    assert_eq!(f(x.max(y).l()), 4.0);
    assert_eq!(f(x.clamp(b(0.0), b(1.0)).l()), 1.0);
    assert_eq!(f(x.clamp(b(0.0), b(1.0)).r()), 0.0);
    assert_eq!(f(x.mul_add(b(2.0), b(1.0)).l()), 2.5f64.mul_add(2.0, 1.0));
    assert!((f(x.sqrt().l()) - 2.5f64.sqrt()).abs() < 1e-12);
    assert!((f(x.exp().l()) - 2.5f64.exp()).abs() < 1e-9);
    assert!((f(x.ln().l()) - 2.5f64.ln()).abs() < 1e-12);
    assert!((f(x.sin().l()) - 2.5f64.sin()).abs() < 1e-12);
    assert!((f(x.cos().l()) - 2.5f64.cos()).abs() < 1e-12);
    let (s, co) = x.sin_cos();
    assert_eq!(s.l(), x.sin().l());
    assert_eq!(co.r(), x.cos().r());
    assert!((f(x.powi(3).l()) - 2.5f64.powi(3)).abs() < 1e-9);
    assert!((f(x.powf(b(1.5)).l()) - 2.5f64.powf(1.5)).abs() < 1e-9);
    assert_eq!(f(Sample::mono(b(7.0)).r()), 7.0);
    assert_eq!(f(Sample::zero().l()), 0.0);
    assert!(f(Sample::default().l()).is_nan());
    let mut m = Sample::mono(b(1.0));
    *m.l_mut() = b(9.0);
    assert_eq!(f(m.l()), 9.0);
    assert_eq!(f(m.r()), 1.0);
    *m.r_mut() = b(8.0);
    assert_eq!(f(m.r()), 8.0);
}

#[test]
fn operator_catalogue() {
    let add = Node::Add(Add);
    assert_eq!(add.get_ident(), "Add");
    assert_eq!(add.arity(), 2);
    assert!(!add.is_const());
    let labels = add.get_input_labels();
    let lhs: String = labels[0].iter().collect();
    let rhs: String = labels[1].iter().collect();
    assert_eq!(lhs, "LHS");
    assert_eq!(rhs, "RHS");

    let k = Node::Const(c(b(5.0)));
    assert_eq!(k.get_ident(), "Constant");
    assert_eq!(k.arity(), 0);
    assert!(k.is_const());

    let sine = Node::Sine(Sine);
    assert_eq!(sine.get_ident(), "Sine");
    let freq: String = sine.get_input_labels()[0].iter().collect();
    assert_eq!(freq, "Frequency");

    let inv = Node::Inv(Inv);
    assert_eq!(inv.get_ident(), "Inverse");
    let mul = Node::Mul(Mul);
    assert_eq!(mul.get_ident(), "Multiply");

    let ci = Node::ContainerInput(ContainerInput {
        label: "Gate".chars().collect(),
    });
    assert_eq!(ci.get_ident(), "ContainerInput");
    let gate: String = ci.get_input_labels()[0].iter().collect();
    assert_eq!(gate, "Gate");

    // the catalogue evaluates: 3 + 4, 3 * 4, 1/4
    let inputs = [Sample::mono(b(3.0)), Sample::mono(b(4.0))];
    assert_eq!(f(add.process(&inputs, 0, 44100).l()), 7.0);
    assert_eq!(f(mul.process(&inputs, 0, 44100).l()), 12.0);
    let inputs2 = [Sample::mono(b(4.0))];
    assert_eq!(f(inv.process(&inputs2, 0, 44100).l()), 0.25);
    assert_eq!(f(k.process(&[], 9, 1).l()), 5.0);
}

#[test]
fn oscillator_formula() {
    let sine = Node::Sine(Sine);
    let inputs = [Sample::mono(b(441.0))];
    let got = f(sine.process(&inputs, 100, 44100).l());
    let want = (100.0f64 * (441.0 / 44100.0) * (2.0 * std::f64::consts::PI)).sin();
    assert!((got - want).abs() < 1e-12, "{} != {}", got, want);
}

#[test]
fn introspection_reads_back_the_patch() {
    let mut cg = ControlGraph::new(44100);
    let k = cg.insert(Node::Const(c(b(2.0))));
    let m = cg.insert(Node::Mul(Mul));
    cg.connect(k, m, 0).unwrap();
    cg.connect_existing_aout(m).unwrap();

    assert_eq!(cg.get_node_indexes(), vec![0, 1, 2]);
    assert_eq!(cg.get_node(m).unwrap().get_ident(), "Multiply");
    assert!(cg.get_node(17).is_none());

    let into_m = cg.get_node_neighbors(m, Direction::Incoming);
    assert_eq!(into_m.len(), 1);
    assert_eq!(into_m[0].node_index, k);
    assert_eq!(into_m[0].dest_port_id, 0);
    let out_of_m = cg.get_node_neighbors(m, Direction::Outgoing);
    assert_eq!(out_of_m.len(), 1);
    assert_eq!(out_of_m[0].node_index, 0);

    let _ = cg.next_sample();
    let rec = cg.get_node_record(m).unwrap();
    // 2.0 * NaN on the unwired port: the cached value is NaN
    assert!(f(rec.val.l()).is_nan());
}

#[test]
fn phase_reset_restarts_the_waveform() {
    let mut cg = ControlGraph::new(44100);
    dagrid::presets::subsynth_plain(&mut cg).unwrap();
    let mut first = Vec::new();
    for _ in 0..32 {
        first.push(cg.next_sample().l());
    }
    cg.reset_phase();
    let mut again = Vec::new();
    for _ in 0..32 {
        again.push(cg.next_sample().l());
    }
    assert_eq!(first, again);
}

#[test]
fn sample_rate_rescales_the_oscillator() {
    let mut cg = ControlGraph::new(44100);
    let s = cg.connect_const_new(b(441.0), Node::Sine(Sine)).unwrap();
    cg.connect_existing_aout(s).unwrap();
    let _ = cg.next_sample();
    cg.set_sample_rate(88200);
    let got = f(cg.next_sample().l());
    let want = (1.0f64 * (441.0 / 88200.0) * (2.0 * std::f64::consts::PI)).sin();
    assert!((got - want).abs() < 1e-12);
}

#[test]
fn many_wiring_onto_an_existing_consumer() {
    let mut cg = ControlGraph::new(44100);
    let m = cg.insert(Node::Mul(Mul));
    let k1 = cg.insert(Node::Const(c(b(6.0))));
    let k2 = cg.insert(Node::Const(c(b(7.0))));
    cg.connect_many_ex(&[k1, k2], m).unwrap();
    cg.connect_existing_aout(m).unwrap();
    assert_eq!(f(cg.next_sample().l()), 42.0);
    // a second batch onto the same ports stops at the first occupied one
    let k3 = cg.insert(Node::Const(c(b(9.0))));
    assert!(cg.connect_many_ex(&[k3], m).is_err());
}

#[test]
fn save_is_stable_and_load_rejects_truncation() {
    let mut cg = ControlGraph::new(44100);
    dagrid::presets::subsynth_with_containers(&mut cg).unwrap();
    let s1 = cg.save();
    let s2 = cg.save();
    assert_eq!(s1, s2);
    for cut in [1usize, 7, 8, 15, s1.len() - 1] {
        assert!(ControlGraph::load(44100, &s1[..cut]).is_err());
    }
    // a second-generation copy encodes identically
    let h = ControlGraph::load(48000, &s1).unwrap();
    assert_eq!(h.save(), s1);
}
