//! The engine's documented properties, exercised on concrete patches.

use dagrid::control::{ControlGraph, GraphError};
use dagrid::node::{c, Add, Mul, Node, Sine};
use dagrid::presets;

fn bits(x: f64) -> u64 {
    x.to_bits()
}

fn sample_bits(cg: &mut ControlGraph, n: usize) -> Vec<(u64, u64)> {
    let mut v = Vec::new();
    for _ in 0..n {
        let s = cg.next_sample();
        v.push((s.l(), s.r()));
    }
    v
}

/// Acyclicity: every edge that would close a path back to its own source
/// is rejected, and rejected without touching the graph.
#[test]
fn cycle_attempts_are_rejected() {
    let mut cg = ControlGraph::new(44100);
    let a = cg.insert(Node::Add(Add));
    let b = cg.insert(Node::Add(Add));
    let d = cg.insert(Node::Add(Add));
    cg.connect(a, b, 0).unwrap();
    cg.connect(b, d, 0).unwrap();
    // direct two-node cycle
    assert_eq!(cg.connect(b, a, 0), Err(GraphError::WouldCycle));
    // cycle across a longer path
    assert_eq!(cg.connect(d, a, 0), Err(GraphError::WouldCycle));
    // self-loop
    assert_eq!(cg.connect(a, a, 1), Err(GraphError::WouldCycle));
    // the rejections left the safe ports usable
    let fresh = cg.insert(Node::Add(Add));
    cg.connect(fresh, a, 1).unwrap();
}

/// Determinism: two freshly constructed, structurally identical graphs fed
/// the same sample rate and the same number of calls produce bit-identical
/// output sequences.
#[test]
fn identical_graphs_produce_identical_bits() {
    let mut g1 = ControlGraph::new(44100);
    presets::subsynth_plain(&mut g1).unwrap();
    let mut g2 = ControlGraph::new(44100);
    presets::subsynth_plain(&mut g2).unwrap();
    assert_eq!(sample_bits(&mut g1, 128), sample_bits(&mut g2, 128));
}

/// Cache equivalence: a no-op touch (disconnect then reconnect the same
/// edge) between samples forces the cold path every time, yet the sequence
/// matches an untouched graph's warm replays bit for bit.
#[test]
fn cold_and_warm_paths_agree() {
    let mut warm = ControlGraph::new(44100);
    presets::subsynth_plain(&mut warm).unwrap();
    let mut cold = ControlGraph::new(44100);
    presets::subsynth_plain(&mut cold).unwrap();

    let mut w = Vec::new();
    let mut c = Vec::new();
    let mut sink_edge = 8;
    for i in 0..64 {
        let s = warm.next_sample();
        w.push((s.l(), s.r()));
        if i % 2 == 1 {
            // touch: sever the sink edge and rewire it identically
            let port = cold.disconnect(sink_edge).unwrap();
            assert_eq!(port, 0);
            sink_edge = cold.connect_existing_aout(9).unwrap();
        }
        let s = cold.next_sample();
        c.push((s.l(), s.r()));
    }
    assert_eq!(w, c);
}

/// Round trip: a re-imported graph produces the same sequence as the
/// original, from the same starting phase, and keeps handle numbering.
#[test]
fn round_trip_preserves_output_and_handles() {
    let mut g = ControlGraph::new(44100);
    presets::subsynth_plain(&mut g).unwrap();
    let saved = g.save();
    let mut h = ControlGraph::load(44100, &saved).unwrap();
    assert_eq!(g.get_node_indexes(), h.get_node_indexes());
    assert_eq!(sample_bits(&mut g, 128), sample_bits(&mut h, 128));

    // handle numbering also survives removal holes
    let mut p = ControlGraph::new(44100);
    presets::subsynth_plain(&mut p).unwrap();
    p.remove(1).unwrap();
    p.connect_const_ex(bits(330.0), 2).unwrap();
    let mut q = ControlGraph::load(44100, &p.save()).unwrap();
    assert_eq!(p.get_node_indexes(), q.get_node_indexes());
    assert_eq!(sample_bits(&mut p, 64), sample_bits(&mut q, 64));
}

/// Container transparency: the Subtract container and its hand-wired
/// expansion produce identical output for identical inputs.
#[test]
fn container_matches_hand_wiring() {
    let mut hand = ControlGraph::new(44100);
    let a1 = hand.connect_const_new(bits(440.0), Node::Sine(Sine)).unwrap();
    let a2 = hand.connect_const_new(bits(220.0), Node::Sine(Sine)).unwrap();
    let mneg = hand.connect_const_new(bits(-1.0), Node::Mul(Mul)).unwrap();
    hand.connect(a2, mneg, 1).unwrap();
    let add = hand.connect_many_new(&[a1, mneg], Node::Add(Add)).unwrap();
    hand.connect_existing_aout(add).unwrap();

    let mut boxed = ControlGraph::new(44100);
    let b1 = boxed.connect_const_new(bits(440.0), Node::Sine(Sine)).unwrap();
    let b2 = boxed.connect_const_new(bits(220.0), Node::Sine(Sine)).unwrap();
    let (sub_in, sub_out) = boxed.insert_container(dagrid::container::Sub);
    boxed.connect_ex_ex(b1, sub_in[0]).unwrap();
    boxed.connect_ex_ex(b2, sub_in[1]).unwrap();
    boxed.connect_existing_aout(sub_out[0]).unwrap();

    assert_eq!(sample_bits(&mut hand, 128), sample_bits(&mut boxed, 128));
}

/// The concrete reference scenario: 440 Hz and 220 Hz oscillators,
/// difference by negate-and-add, scaled by one half, at 44100 Hz; the
/// first 256 samples match an independent synthesis of
/// (sin(220)*-1 + sin(440)) * 0.5.
#[test]
fn reference_waveform() {
    let mut cg = ControlGraph::new(44100);
    presets::subsynth_plain(&mut cg).unwrap();
    let tau = std::f64::consts::PI * 2.0;
    for n in 0..256u64 {
        let s = cg.next_sample();
        let got = f64::from_bits(s.l());
        let s440 = ((n as f64) * (440.0 / 44100.0) * tau).sin();
        let s220 = ((n as f64) * (220.0 / 44100.0) * tau).sin();
        let want = (s220 * -1.0 + s440) * 0.5;
        assert!((got - want).abs() < 1e-9, "sample {}: {} != {}", n, got, want);
    }
}

/// The patching scenario: replacing the 440 Hz source with a 330 Hz
/// constant mid-run changes subsequent output to the new waveform, while
/// the samples computed before the patch are unaffected.
#[test]
fn patch_mid_run() {
    let mut cg = ControlGraph::new(44100);
    presets::subsynth_plain(&mut cg).unwrap();
    let before = sample_bits(&mut cg, 100);

    let mut untouched = ControlGraph::new(44100);
    presets::subsynth_plain(&mut untouched).unwrap();
    assert_eq!(before, sample_bits(&mut untouched, 100));

    cg.remove(1).unwrap();
    cg.connect_const_ex(bits(330.0), 2).unwrap();

    let tau = std::f64::consts::PI * 2.0;
    for n in 100..200u64 {
        let s = cg.next_sample();
        let got = f64::from_bits(s.l());
        let s330 = ((n as f64) * (330.0 / 44100.0) * tau).sin();
        let s220 = ((n as f64) * (220.0 / 44100.0) * tau).sin();
        let want = (s220 * -1.0 + s330) * 0.5;
        assert!((got - want).abs() < 1e-9, "sample {}: {} != {}", n, got, want);
    }
}

/// Each rejection reports its exact reason.
#[test]
fn error_variants() {
    let mut cg = ControlGraph::new(44100);
    let a = cg.insert(Node::Add(Add));
    // unknown handles
    assert_eq!(cg.connect(99, a, 0), Err(GraphError::NoSuchNode));
    assert_eq!(cg.connect(a, 99, 0), Err(GraphError::NoSuchNode));
    // the sink cannot produce
    assert_eq!(cg.connect(0, a, 0), Err(GraphError::NoSuchNode));
    // a port beyond the declared arity
    assert_eq!(cg.connect_const_ex(bits(1.0), a).err(), None);
    assert_eq!(
        cg.connect_new_ex_port(Node::Sine(Sine), a, 5),
        Err(GraphError::NoSuchPort)
    );
    // a port already fed
    assert_eq!(
        cg.connect_const_ex(bits(2.0), a),
        Err(GraphError::PortOccupied)
    );
    // stale handles after removal
    let s = cg.insert(Node::Sine(Sine));
    cg.remove(s).unwrap();
    assert_eq!(cg.connect(s, a, 1), Err(GraphError::NoSuchNode));
    assert!(cg.remove(s).is_none());
    assert!(cg.remove(0).is_none());
    assert_eq!(cg.disconnect(77), None);
    // malformed persisted data
    assert_eq!(
        ControlGraph::load(44100, &[1, 2, 3]).err(),
        Some(GraphError::Malformed)
    );
    let garbage = vec![0xFFu8; 64];
    assert_eq!(
        ControlGraph::load(44100, &garbage).err(),
        Some(GraphError::Malformed)
    );
}

/// A sink with nothing wired to it yields the zero sample; wiring it later
/// takes effect on the next call.
#[test]
fn unwired_sink_is_silent() {
    let mut cg = ControlGraph::new(44100);
    let s = cg.next_sample();
    assert_eq!(f64::from_bits(s.l()), 0.0);
    assert_eq!(f64::from_bits(s.r()), 0.0);
    let k = cg.insert(Node::Const(c(bits(7.5))));
    cg.connect_existing_aout(k).unwrap();
    assert_eq!(f64::from_bits(cg.next_sample().l()), 7.5);
}

/// An unwired input port reads as NaN, the documented uninitialized value.
#[test]
fn unwired_port_reads_nan() {
    let mut cg = ControlGraph::new(44100);
    let m = cg.insert(Node::Add(Add));
    cg.connect_const_ex(bits(1.0), m).unwrap();
    // port 1 left unwired: 1.0 + NaN is NaN
    cg.connect_existing_aout(m).unwrap();
    assert!(f64::from_bits(cg.next_sample().l()).is_nan());
}
