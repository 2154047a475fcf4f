//! The preset patches, checked sample by sample against an independent
//! synthesis of the same signal by the glicol engine.

use dagrid::container::{Div, Sub};
use dagrid::control::ControlGraph;
use dagrid::node::{c, Add, ContainerOutput, Mul, Node, Sine};
use dagrid::presets;

fn cg_samples(cg: &mut ControlGraph, n: usize) -> Vec<f32> {
    let mut v = Vec::new();
    for _ in 0..n {
        let s = cg.next_sample();
        v.push(f64::from_bits(s.l()) as f32);
    }
    v
}

fn glicol_ref_256(src: &str) -> Vec<f32> {
    let mut engine = glicol::Engine::<256>::new();
    engine.update_with_code(src);
    engine.next_block(vec![]).0[0].to_vec()
}

fn assert_glicol_eq_256(synthesized: &[f32], src: &str, epsilon_factor: usize) {
    let reference = glicol_ref_256(src);
    for i in 0..synthesized.len() {
        let d = (synthesized[i] - reference[i]).abs();
        if !(d < f32::EPSILON * epsilon_factor as f32) {
            panic!(
                "sample {} deviates: {} != {} (|d| = {})",
                i, synthesized[i], reference[i], d
            );
        }
    }
}

#[test]
fn subsynth_plain() {
    let mut cg = ControlGraph::new(44100);
    presets::subsynth_plain(&mut cg).unwrap();

    let synthesized = cg_samples(&mut cg, 256);
    assert_glicol_eq_256(
        &synthesized,
        "~s1: sin 440\n~s2: sin 220\no: ~s2 >> mul -1 >> add ~s1 >> mul 0.5",
        26,
    );
}

#[test]
fn subsynth_plain_multiout() {
    let mut cg = ControlGraph::new(44100);
    presets::subsynth_plain_multiout(&mut cg).unwrap();

    let synthesized = cg_samples(&mut cg, 256);
    assert_glicol_eq_256(
        &synthesized,
        "~s1: sin 220\n~s2: sin 220\n~s3: sin ~s2\no: ~s3 >> add ~s1 >> mul 0.5",
        140_000,
    );
}

#[test]
fn subsynth_with_containers() {
    let mut cg = ControlGraph::new(44100);
    presets::subsynth_with_containers(&mut cg).unwrap();

    let synthesized = cg_samples(&mut cg, 2);
    assert_glicol_eq_256(
        &synthesized,
        "~s1: sin 440\n~s2: sin 220\no: ~s2 >> mul -1 >> add ~s1 >> mul 0.5",
        26,
    );
}

#[test]
fn subsynth_with_containers_save_load() {
    let mut cg1 = ControlGraph::new(44100);
    presets::subsynth_with_containers(&mut cg1).unwrap();

    let mut cg2 = ControlGraph::load(44100, &cg1.save()).unwrap();

    let s1 = cg_samples(&mut cg1, 256);
    let s2 = cg_samples(&mut cg2, 256);

    if s1 != s2 {
        panic!("re-imported graph deviates from the original");
    }
}

#[test]
fn subsynth_plain_patch() {
    let mut cg = ControlGraph::new(44100);
    presets::subsynth_plain(&mut cg).unwrap();

    cg.remove(1);
    cg.connect_const_ex((330.0f64).to_bits(), 2).unwrap();

    let synthesized = cg_samples(&mut cg, 256);
    assert_glicol_eq_256(
        &synthesized,
        "~s1: sin 330\n~s2: sin 220\no: ~s2 >> mul -1 >> add ~s1 >> mul 0.5",
        70,
    );
}

#[test]
fn subsynth_plain_disconnect() {
    let mut cg = ControlGraph::new(44100);
    presets::subsynth_plain(&mut cg).unwrap();

    cg.disconnect(1).unwrap();
    cg.connect_const_ex((110.0f64).to_bits(), 4).unwrap();

    let synthesized = cg_samples(&mut cg, 256);
    assert_glicol_eq_256(
        &synthesized,
        "~s1: sin 440\n~s2: sin 110\no: ~s2 >> mul -1 >> add ~s1 >> mul 0.5",
        70,
    );
}

#[test]
fn subsynth_with_containers_disconnect() {
    let mut cg = ControlGraph::new(44100);
    presets::subsynth_with_containers(&mut cg).unwrap();

    let synthesized = cg_samples(&mut cg, 256);
    assert_glicol_eq_256(
        &synthesized,
        "~s1: sin 440\n~s2: sin 220\no: ~s2 >> mul -1 >> add ~s1 >> mul 0.5",
        26,
    );

    cg.disconnect(14).unwrap();
    cg.connect_const_ex((4.0f64).to_bits(), 12).unwrap();
    cg.reset_phase();

    let synthesized = cg_samples(&mut cg, 256);
    assert_glicol_eq_256(
        &synthesized,
        "~s1: sin 440\n~s2: sin 220\no: ~s2 >> mul -1 >> add ~s1 >> mul 0.25",
        26,
    );
}

#[test]
fn disconnect() {
    let mut cg = ControlGraph::new(44100);
    let co = Node::ContainerOutput(ContainerOutput {
        label: "disconnect".chars().collect(),
    });
    let co_id = cg.connect_const_new((1.0f64).to_bits(), co).unwrap();
    cg.connect_existing_aout(co_id).unwrap();

    assert_eq!(f64::from_bits(cg.next_sample().l()), 1.0);

    cg.disconnect(0).unwrap();
    let c2 = cg.insert(Node::Const(c((2.0f64).to_bits())));
    cg.connect_ex_ex(c2, 2).unwrap();

    assert_eq!(f64::from_bits(cg.next_sample().l()), 2.0);
}

#[test]
fn containers_build_the_documented_patch() {
    let mut cg = ControlGraph::new(48000);
    let s1 = cg.connect_const_new((300.0f64).to_bits(), Node::Sine(Sine)).unwrap();
    let s2 = cg.connect_const_new((150.0f64).to_bits(), Node::Sine(Sine)).unwrap();
    let (sub_in, sub_out) = cg.insert_container(Sub);
    assert_eq!(sub_in.len(), 2);
    assert_eq!(sub_out.len(), 1);
    cg.connect_ex_ex(s1, sub_in[0]).unwrap();
    cg.connect_ex_ex(s2, sub_in[1]).unwrap();
    let (div_in, div_out) = cg.insert_container(Div);
    assert_eq!(div_in.len(), 2);
    assert_eq!(div_out.len(), 1);
    cg.connect_ex_ex(sub_out[0], div_in[0]).unwrap();
    cg.connect_const_ex((2.0f64).to_bits(), div_in[1]).unwrap();
    cg.connect_existing_aout(div_out[0]).unwrap();

    let subtract: String = cg.get_container_ident(0).iter().collect();
    assert_eq!(subtract, "Subtract");
    let divide: String = cg.get_container_ident(1).iter().collect();
    assert_eq!(divide, "Divide");
    assert_eq!(cg.get_container_children().len(), 3);
    assert_eq!(cg.get_container_children()[0], vec![0, 1]);
    assert!(cg.get_container_member_indexes(0).len() >= 3);

    let _ = cg.next_sample();

    // the same patch built with an Add of a negated operand, by hand
    let mut hw = ControlGraph::new(48000);
    let h1 = hw.connect_const_new((300.0f64).to_bits(), Node::Sine(Sine)).unwrap();
    let h2 = hw.connect_const_new((150.0f64).to_bits(), Node::Sine(Sine)).unwrap();
    let mneg = hw.connect_const_new((-1.0f64).to_bits(), Node::Mul(Mul)).unwrap();
    hw.connect(h2, mneg, 1).unwrap();
    let add = hw.connect_many_new(&[h1, mneg], Node::Add(Add)).unwrap();
    let mhalf = hw.connect_const_new((0.5f64).to_bits(), Node::Mul(Mul)).unwrap();
    hw.connect(add, mhalf, 1).unwrap();
    hw.connect_existing_aout(mhalf).unwrap();

    let mut a = ControlGraph::load(48000, &cg.save()).unwrap();
    let va = cg_samples(&mut a, 64);
    let vb = cg_samples(&mut hw, 64);
    for i in 0..64 {
        // reciprocal-of-two multiply and one-half multiply agree exactly here
        assert!((va[i] - vb[i]).abs() < 1e-6);
    }
}
