//! Ready-made demonstration patches.
//!
//! Each preset wires a small subtractive-synthesis graph into a control
//! graph whose sink is still unwired: two oscillators, their difference
//! (negate-and-add, or the Subtract and Divide containers), scaled to the
//! output range. A rejected wiring is passed back to the caller; the graph
//! stays well-formed either way.

use vstd::prelude::*;

use crate::container::{Container, Div, Sub};
use crate::control::{id_range, ControlGraph, GraphError};
use crate::fp::NEG_ONE_BITS;
use crate::model::{Edge, GraphModel};
use crate::node::{c, Add, Mul, Node, Sine};
use crate::sample::Sample;

verus! {

/// Bit pattern of the 440 Hz default frequency.
pub const HZ440_BITS: u64 = 0x407B800000000000;

/// Bit pattern of the 220 Hz default frequency.
pub const HZ220_BITS: u64 = 0x406B800000000000;

/// Bit pattern of one half.
pub const HALF_BITS: u64 = 0x3FE0000000000000;

/// Bit pattern of two.
pub const TWO_BITS: u64 = 0x4000000000000000;

/// The structure `subsynth_plain` appends: two constant-fed oscillators,
/// the negate-and-add difference, and the half-scale into the sink.
pub open spec fn subsynth_plain_model(m: GraphModel) -> GraphModel {
    let l = m.slots.len() as usize;
    GraphModel {
        slots: m.slots + seq![
            Some(Node::Const(crate::node::Const(Sample { l: HZ440_BITS, r: HZ440_BITS }))),
            Some(Node::Sine(Sine)),
            Some(Node::Const(crate::node::Const(Sample { l: HZ220_BITS, r: HZ220_BITS }))),
            Some(Node::Sine(Sine)),
            Some(Node::Const(crate::node::Const(Sample { l: NEG_ONE_BITS, r: NEG_ONE_BITS }))),
            Some(Node::Mul(Mul)),
            Some(Node::Add(Add)),
            Some(Node::Const(crate::node::Const(Sample { l: HALF_BITS, r: HALF_BITS }))),
            Some(Node::Mul(Mul)),
        ],
        edges: m.edges + seq![
            Some(Edge { src: l, dst: (l + 1) as usize, port: 0 }),
            Some(Edge { src: (l + 2) as usize, dst: (l + 3) as usize, port: 0 }),
            Some(Edge { src: (l + 4) as usize, dst: (l + 5) as usize, port: 0 }),
            Some(Edge { src: (l + 3) as usize, dst: (l + 5) as usize, port: 1 }),
            Some(Edge { src: (l + 5) as usize, dst: (l + 6) as usize, port: 0 }),
            Some(Edge { src: (l + 1) as usize, dst: (l + 6) as usize, port: 1 }),
            Some(Edge { src: (l + 7) as usize, dst: (l + 8) as usize, port: 0 }),
            Some(Edge { src: (l + 6) as usize, dst: (l + 8) as usize, port: 1 }),
            Some(Edge { src: (l + 8) as usize, dst: 0, port: 0 }),
        ],
        rate: m.rate,
    }
}

/// Two oscillators at 440 Hz and 220 Hz, subtracted by negate-and-add and
/// scaled by one half into the sink. Succeeds whenever the sink is still
/// unwired, and appends exactly the documented nodes and edges.
pub fn subsynth_plain(cg: &mut ControlGraph) -> (r: Result<(), GraphError>)
    requires
        old(cg).wf(),
        !old(cg).model().has_producer(0, 0),
    ensures
        final(cg).wf(),
        r is Ok,
        final(cg).model() == subsynth_plain_model(old(cg).model()),
        final(cg).phase() == old(cg).phase(),
        !final(cg).cache_ok(),
        final(cg).containers_idents() == old(cg).containers_idents(),
        final(cg).containers_children() == old(cg).containers_children(),
        final(cg).containers_stack() == old(cg).containers_stack(),
        final(cg).scopes_extended(
            old(cg),
            old(cg).model().slots.len() as int,
            old(cg).model().slots.len() as int + 9,
        ),
{
    let ghost pre = *cg;
    let ghost pm = pre.model();
    let ghost l = pm.slots.len() as int;
    proof {
        pre.lemma_wf_model();
    }
    let sine_osc_1 = match cg.connect_const_new(HZ440_BITS, Node::Sine(Sine)) {
        Ok(v) => v,
        Err(_) => vstd::pervasive::unreached(),
    };
    let ghost s1 = *cg;
    let sine_osc_2 = match cg.connect_const_new(HZ220_BITS, Node::Sine(Sine)) {
        Ok(v) => v,
        Err(_) => vstd::pervasive::unreached(),
    };
    let ghost s2 = *cg;
    let mulneg1 = match cg.connect_const_new(NEG_ONE_BITS, Node::Mul(Mul)) {
        Ok(v) => v,
        Err(_) => vstd::pervasive::unreached(),
    };
    let ghost s3 = *cg;
    proof {
        let m3 = s3.model();
        assert(m3.live(sine_osc_2 as int) && sine_osc_2 != 0);
        assert(m3.live(mulneg1 as int) && mulneg1 != 0);
        assert(m3.kind(mulneg1 as int) is Mul);
        assert(!m3.has_producer(mulneg1 as int, 1)) by {
            if m3.has_producer(mulneg1 as int, 1) {
                let e = choose|e: int|
                    #[trigger] m3.edge_live(e) && m3.edge(e).dst as int == mulneg1 as int
                        && m3.edge(e).port as int == 1;
                if e < pm.edges.len() {
                    assert(pm.edge_live(e));
                    assert(pm.live(pm.edge(e).dst as int));
                }
            }
        }
        assert(!m3.reaches(mulneg1 as int, sine_osc_2 as int)) by {
            assert forall|e: int| #[trigger] m3.edge_live(e) implies m3.edge(e).src as int != (
            mulneg1 as int) by {
                if e < pm.edges.len() {
                    assert(pm.edge_live(e));
                    assert(pm.live(pm.edge(e).src as int));
                }
            }
            crate::model::lemma_no_outgoing_unreaches(m3, mulneg1 as int, sine_osc_2 as int);
        }
    }
    match cg.connect(sine_osc_2, mulneg1, 1) {
        Ok(_) => (),
        Err(_) => vstd::pervasive::unreached(),
    };
    let ghost s4 = *cg;
    let mut add_srcs: Vec<usize> = Vec::new();
    add_srcs.push(mulneg1);
    add_srcs.push(sine_osc_1);
    proof {
        assert(add_srcs@ =~= seq![mulneg1, sine_osc_1]);
        assert(s4.model().live(mulneg1 as int));
        assert(s4.model().live(sine_osc_1 as int) && sine_osc_1 != 0);
    }
    let add = match cg.connect_many_new(add_srcs.as_slice(), Node::Add(Add)) {
        Ok(v) => v,
        Err(_) => vstd::pervasive::unreached(),
    };
    let ghost s5 = *cg;
    let mulhalf = match cg.connect_const_new(HALF_BITS, Node::Mul(Mul)) {
        Ok(v) => v,
        Err(_) => vstd::pervasive::unreached(),
    };
    let ghost s6 = *cg;
    proof {
        let m6 = s6.model();
        assert(m6.live(add as int) && add != 0);
        assert(m6.live(mulhalf as int) && mulhalf != 0);
        assert(m6.kind(mulhalf as int) is Mul);
        assert(!m6.has_producer(mulhalf as int, 1)) by {
            if m6.has_producer(mulhalf as int, 1) {
                let e = choose|e: int|
                    #[trigger] m6.edge_live(e) && m6.edge(e).dst as int == mulhalf as int
                        && m6.edge(e).port as int == 1;
                if e < pm.edges.len() {
                    assert(pm.edge_live(e));
                    assert(pm.live(pm.edge(e).dst as int));
                }
            }
        }
        assert(!m6.reaches(mulhalf as int, add as int)) by {
            assert forall|e: int| #[trigger] m6.edge_live(e) implies m6.edge(e).src as int != (
            mulhalf as int) by {
                if e < pm.edges.len() {
                    assert(pm.edge_live(e));
                    assert(pm.live(pm.edge(e).src as int));
                }
            }
            crate::model::lemma_no_outgoing_unreaches(m6, mulhalf as int, add as int);
        }
    }
    match cg.connect(add, mulhalf, 1) {
        Ok(_) => (),
        Err(_) => vstd::pervasive::unreached(),
    };
    let ghost s7 = *cg;
    proof {
        let m7 = s7.model();
        assert(m7.live(mulhalf as int));
        assert(!m7.has_producer(0, 0)) by {
            if m7.has_producer(0, 0) {
                let e = choose|e: int|
                    #[trigger] m7.edge_live(e) && m7.edge(e).dst as int == 0 && m7.edge(
                        e,
                    ).port as int == 0;
                if e < pm.edges.len() {
                    assert(pm.edge_live(e));
                    assert(pm.has_producer(0, 0));
                }
            }
        }
        assert(!m7.reaches(0, mulhalf as int)) by {
            assert forall|e: int| #[trigger] m7.edge_live(e) implies m7.edge(e).src as int
                != 0 by {
                if e < pm.edges.len() {
                    assert(pm.edge_live(e));
                }
            }
            crate::model::lemma_no_outgoing_unreaches(m7, 0, mulhalf as int);
        }
    }
    match cg.connect_existing_aout(mulhalf) {
        Ok(_) => (),
        Err(_) => vstd::pervasive::unreached(),
    };
    proof {
        assert(cg.model().slots =~= subsynth_plain_model(pm).slots);
        assert(cg.model().edges =~= subsynth_plain_model(pm).edges);
        assert(cg.model() =~= subsynth_plain_model(pm));
        assert forall|j: int| 0 <= j < pre.containers_members().len() implies #[trigger] cg
            .containers_members()[j] == if (exists|q: int|
            0 <= q < pre.containers_stack().len() && (#[trigger] pre.containers_stack()[q]
                as int) == j) {
            pre.containers_members()[j] + id_range(l, l + 9)
        } else {
            pre.containers_members()[j]
        } by {
            if exists|q: int|
                0 <= q < pre.containers_stack().len() && (#[trigger] pre.containers_stack()[q]
                    as int) == j {
                assert(s1.containers_members()[j] == pre.containers_members()[j].push(
                    (l as usize),
                ).push((l + 1) as usize));
                assert(s2.containers_members()[j] == s1.containers_members()[j].push(
                    (l + 2) as usize,
                ).push((l + 3) as usize));
                assert(s3.containers_members()[j] == s2.containers_members()[j].push(
                    (l + 4) as usize,
                ).push((l + 5) as usize));
                assert(s4.containers_members()[j] == s3.containers_members()[j]);
                assert(s5.containers_members()[j] == s4.containers_members()[j].push(
                    (l + 6) as usize,
                ));
                assert(s6.containers_members()[j] == s5.containers_members()[j].push(
                    (l + 7) as usize,
                ).push((l + 8) as usize));
                assert(cg.containers_members()[j] =~= pre.containers_members()[j] + id_range(
                    l,
                    l + 9,
                ));
            }
        }
        assert(cg.scopes_extended(&pre, l, l + 9));
    }
    Ok(())
}

/// The edges `subsynth_with_containers` appends, in wiring order: the two
/// constant-to-oscillator feeds, the Subtract container's interior, the
/// oscillators into its boundaries, the Divide container's interior, the
/// difference and the constant two into its boundaries, and the quotient
/// into the sink.
pub open spec fn subsynth_with_containers_edges(m: GraphModel) -> Seq<Option<Edge>> {
    let l = m.slots.len() as usize;
    m.edges + seq![
        Some(Edge { src: l, dst: (l + 1) as usize, port: 0 }),
        Some(Edge { src: (l + 2) as usize, dst: (l + 3) as usize, port: 0 }),
        Some(Edge { src: (l + 7) as usize, dst: (l + 8) as usize, port: 0 }),
        Some(Edge { src: (l + 5) as usize, dst: (l + 8) as usize, port: 1 }),
        Some(Edge { src: (l + 4) as usize, dst: (l + 9) as usize, port: 0 }),
        Some(Edge { src: (l + 8) as usize, dst: (l + 9) as usize, port: 1 }),
        Some(Edge { src: (l + 9) as usize, dst: (l + 6) as usize, port: 0 }),
        Some(Edge { src: (l + 1) as usize, dst: (l + 4) as usize, port: 0 }),
        Some(Edge { src: (l + 3) as usize, dst: (l + 5) as usize, port: 0 }),
        Some(Edge { src: (l + 11) as usize, dst: (l + 13) as usize, port: 0 }),
        Some(Edge { src: (l + 10) as usize, dst: (l + 14) as usize, port: 0 }),
        Some(Edge { src: (l + 13) as usize, dst: (l + 14) as usize, port: 1 }),
        Some(Edge { src: (l + 14) as usize, dst: (l + 12) as usize, port: 0 }),
        Some(Edge { src: (l + 6) as usize, dst: (l + 10) as usize, port: 0 }),
        Some(Edge { src: (l + 15) as usize, dst: (l + 11) as usize, port: 0 }),
        Some(Edge { src: (l + 12) as usize, dst: 0, port: 0 }),
    ]
}

/// The operators `subsynth_with_containers` appends, by offset from the
/// old slot count: the labelled container boundaries are stated by kind
/// and label view, everything else by exact value.
pub open spec fn subsynth_with_containers_slots(m1: GraphModel, m2: GraphModel) -> bool {
    let l = m1.slots.len() as int;
    &&& m2.slots.len() == l + 16
    &&& (forall|q: int| 0 <= q < l ==> #[trigger] m2.slots[q] == m1.slots[q])
    &&& m2.slots[l] == Some(
        Node::Const(crate::node::Const(Sample { l: HZ440_BITS, r: HZ440_BITS })),
    )
    &&& m2.slots[l + 1] == Some(Node::Sine(Sine))
    &&& m2.slots[l + 2] == Some(
        Node::Const(crate::node::Const(Sample { l: HZ220_BITS, r: HZ220_BITS })),
    )
    &&& m2.slots[l + 3] == Some(Node::Sine(Sine))
    &&& m2.slots[l + 4] is Some && m2.kind(l + 4) is ContainerInput && m2.kind(
        l + 4,
    )->ContainerInput_0.label@ == "LHS"@
    &&& m2.slots[l + 5] is Some && m2.kind(l + 5) is ContainerInput && m2.kind(
        l + 5,
    )->ContainerInput_0.label@ == "RHS"@
    &&& m2.slots[l + 6] is Some && m2.kind(l + 6) is ContainerOutput && m2.kind(
        l + 6,
    )->ContainerOutput_0.label@ == "Difference"@
    &&& m2.slots[l + 7] == Some(
        Node::Const(crate::node::Const(Sample { l: NEG_ONE_BITS, r: NEG_ONE_BITS })),
    )
    &&& m2.slots[l + 8] == Some(Node::Mul(Mul))
    &&& m2.slots[l + 9] == Some(Node::Add(Add))
    &&& m2.slots[l + 10] is Some && m2.kind(l + 10) is ContainerInput && m2.kind(
        l + 10,
    )->ContainerInput_0.label@ == "Dividend"@
    &&& m2.slots[l + 11] is Some && m2.kind(l + 11) is ContainerInput && m2.kind(
        l + 11,
    )->ContainerInput_0.label@ == "Divisor"@
    &&& m2.slots[l + 12] is Some && m2.kind(l + 12) is ContainerOutput && m2.kind(
        l + 12,
    )->ContainerOutput_0.label@ == "Quotient"@
    &&& m2.slots[l + 13] == Some(Node::Inv(crate::node::Inv))
    &&& m2.slots[l + 14] == Some(Node::Mul(Mul))
    &&& m2.slots[l + 15] == Some(
        Node::Const(crate::node::Const(Sample { l: TWO_BITS, r: TWO_BITS })),
    )
}

/// Two oscillators at 440 Hz and 220 Hz, fed through the Subtract
/// container and halved through the Divide container into the sink.
/// Succeeds whenever the sink is still unwired, and appends exactly the
/// documented operators, wiring and container-tree entries.
pub fn subsynth_with_containers(cg: &mut ControlGraph) -> (r: Result<(), GraphError>)
    requires
        old(cg).wf(),
        !old(cg).model().has_producer(0, 0),
    ensures
        final(cg).wf(),
        r is Ok,
        subsynth_with_containers_slots(old(cg).model(), final(cg).model()),
        final(cg).model().edges == subsynth_with_containers_edges(old(cg).model()),
        final(cg).model().rate == old(cg).model().rate,
        final(cg).phase() == old(cg).phase(),
        !final(cg).cache_ok(),
        final(cg).containers_idents() == old(cg).containers_idents().push("Subtract"@).push(
            "Divide"@,
        ),
        final(cg).containers_stack() == old(cg).containers_stack(),
        final(cg).containers_members().len() == old(cg).containers_members().len() + 2,
        final(cg).containers_members()[old(cg).containers_members().len() as int] == id_range(
            old(cg).model().slots.len() as int + 4,
            old(cg).model().slots.len() as int + 10,
        ),
        final(cg).containers_members()[old(cg).containers_members().len() as int + 1]
            == id_range(
            old(cg).model().slots.len() as int + 10,
            old(cg).model().slots.len() as int + 15,
        ),
{
    let ghost pre = *cg;
    let ghost pm = pre.model();
    let ghost l = pm.slots.len() as int;
    proof {
        pre.lemma_wf_model();
        pre.lemma_stack_bounds();
        assert(l >= 1);
    }
    let sine_osc_1 = match cg.connect_const_new(HZ440_BITS, Node::Sine(Sine)) {
        Ok(v) => v,
        Err(_) => vstd::pervasive::unreached(),
    };
    let sine_osc_2 = match cg.connect_const_new(HZ220_BITS, Node::Sine(Sine)) {
        Ok(v) => v,
        Err(_) => vstd::pervasive::unreached(),
    };
    let ghost s2 = *cg;
    proof {
        assert(forall|e: int| #[trigger]
            s2.model().edge_live(e) ==> e < pm.edges.len() + 2 && (e >= pm.edges.len()
                ==> s2.model().edge(e).dst as int == l + 1 || s2.model().edge(e).dst as int == l
                + 3));
    }
    let (sub_in, sub_out) = cg.insert_container(Sub);
    let sc3 = cg.node_slot_count();
    let ghost s3 = *cg;
    let ghost m3 = s3.model();
    proof {
        assert(sc3 as int == l + 10);
        assert(l + 10 <= usize::MAX as int);
        assert(sub_in@ == id_range(l + 4, l + 6));
        assert(sub_out@ == id_range(l + 6, l + 7));
    }
    let ghost sub_mid = choose|mid: GraphModel|
        {
            &&& #[trigger] mid.slots.len() == l + 7
            &&& (forall|q: int| 0 <= q < l + 4 ==> #[trigger] mid.slots[q] == s2.model().slots[q])
            &&& (forall|k: int|
                0 <= k < 2 ==> (#[trigger] mid.slots[l + 4 + k]) is Some && mid.kind(l + 4 + k)
                    is ContainerInput && mid.kind(l + 4 + k)->ContainerInput_0.label@
                    == Sub.input_labels_spec()[k])
            &&& (forall|k: int|
                0 <= k < 1 ==> (#[trigger] mid.slots[l + 6 + k]) is Some && mid.kind(l + 6 + k)
                    is ContainerOutput && mid.kind(l + 6 + k)->ContainerOutput_0.label@
                    == Sub.output_labels_spec()[k])
            &&& mid.edges == s2.model().edges
            &&& mid.rate == s2.model().rate
            &&& s3.model() == Sub.construct_spec(mid, sub_in@, sub_out@)
        };
    proof {
        assert(m3 == Sub.construct_spec(sub_mid, sub_in@, sub_out@));
        assert(m3.edges =~= pm.edges + seq![
            Some(Edge { src: (l as usize), dst: ((l + 1) as usize), port: 0 }),
            Some(Edge { src: ((l + 2) as usize), dst: ((l + 3) as usize), port: 0 }),
            Some(Edge { src: ((l + 7) as usize), dst: ((l + 8) as usize), port: 0 }),
            Some(Edge { src: ((l + 5) as usize), dst: ((l + 8) as usize), port: 1 }),
            Some(Edge { src: ((l + 4) as usize), dst: ((l + 9) as usize), port: 0 }),
            Some(Edge { src: ((l + 8) as usize), dst: ((l + 9) as usize), port: 1 }),
            Some(Edge { src: ((l + 9) as usize), dst: ((l + 6) as usize), port: 0 }),
        ]);
        assert forall|e: int|
            #[trigger] m3.edge_live(e) && e >= pm.edges.len() implies (m3.edge(e) == (Edge { src: (l as usize), dst: ((l + 1) as usize), port: 0 })) || (m3.edge(e) == (Edge { src: ((l + 2) as usize), dst: ((l + 3) as usize), port: 0 })) || (m3.edge(e) == (Edge { src: ((l + 7) as usize), dst: ((l + 8) as usize), port: 0 })) || (m3.edge(e) == (Edge { src: ((l + 5) as usize), dst: ((l + 8) as usize), port: 1 })) || (m3.edge(e) == (Edge { src: ((l + 4) as usize), dst: ((l + 9) as usize), port: 0 })) || (m3.edge(e) == (Edge { src: ((l + 8) as usize), dst: ((l + 9) as usize), port: 1 })) || (m3.edge(e) == (Edge { src: ((l + 9) as usize), dst: ((l + 6) as usize), port: 0 })) by {
            let k = e - pm.edges.len();
            assert(0 <= k < 7);
            if k == 0 {
                assert(m3.edges[pm.edges.len() as int + 0] == Some(Edge { src: (l as usize), dst: ((l + 1) as usize), port: 0 }));
            }
            else if k == 1 {
                assert(m3.edges[pm.edges.len() as int + 1] == Some(Edge { src: ((l + 2) as usize), dst: ((l + 3) as usize), port: 0 }));
            }
            else if k == 2 {
                assert(m3.edges[pm.edges.len() as int + 2] == Some(Edge { src: ((l + 7) as usize), dst: ((l + 8) as usize), port: 0 }));
            }
            else if k == 3 {
                assert(m3.edges[pm.edges.len() as int + 3] == Some(Edge { src: ((l + 5) as usize), dst: ((l + 8) as usize), port: 1 }));
            }
            else if k == 4 {
                assert(m3.edges[pm.edges.len() as int + 4] == Some(Edge { src: ((l + 4) as usize), dst: ((l + 9) as usize), port: 0 }));
            }
            else if k == 5 {
                assert(m3.edges[pm.edges.len() as int + 5] == Some(Edge { src: ((l + 8) as usize), dst: ((l + 9) as usize), port: 1 }));
            }
            else {
                assert(m3.edges[pm.edges.len() as int + 6] == Some(Edge { src: ((l + 9) as usize), dst: ((l + 6) as usize), port: 0 }));
            }
        }
        assert(m3.live(sine_osc_1 as int) && sine_osc_1 != 0);
        assert(m3.live(sine_osc_2 as int));
        assert(m3.live(l + 4) && m3.kind(l + 4) is ContainerInput);
        assert(m3.live(l + 5) && m3.kind(l + 5) is ContainerInput);
        assert(!m3.has_producer(l + 4, 0) && !m3.has_producer(l + 5, 0)) by {
            assert forall|e: int| #[trigger] m3.edge_live(e) implies m3.edge(e).dst as int != l + 4
                && m3.edge(e).dst as int != l + 5 by {
                if e < pm.edges.len() {
                    assert(pm.edge_live(e));
                    assert(pm.live(pm.edge(e).dst as int));
                }
            }
        }
        assert(!m3.reaches(l + 4, sine_osc_1 as int)) by {
            let reach = set![l + 4, l + 9, l + 6];
            assert forall|v: int, d: int|
                reach.contains(v) && #[trigger] m3.step(v, d) implies reach.contains(d) by {
                let e = choose|e: int|
                    m3.edge_live(e) && m3.edge(e).src as int == v && m3.edge(e).dst as int == d;
                if e < pm.edges.len() {
                    assert(pm.edge_live(e));
                    assert(pm.live(pm.edge(e).src as int));
                }
            }
            assert(reach.contains(l + 4) && !reach.contains(sine_osc_1 as int));
            crate::model::lemma_closed_unreached(m3, reach, l + 4, sine_osc_1 as int);
        }
        assert(!m3.reaches(l + 5, sine_osc_2 as int)) by {
            let reach = set![l + 5, l + 8, l + 9, l + 6];
            assert forall|v: int, d: int|
                reach.contains(v) && #[trigger] m3.step(v, d) implies reach.contains(d) by {
                let e = choose|e: int|
                    m3.edge_live(e) && m3.edge(e).src as int == v && m3.edge(e).dst as int == d;
                if e < pm.edges.len() {
                    assert(pm.edge_live(e));
                    assert(pm.live(pm.edge(e).src as int));
                }
            }
            assert(reach.contains(l + 5) && !reach.contains(sine_osc_2 as int));
            crate::model::lemma_closed_unreached(m3, reach, l + 5, sine_osc_2 as int);
        }
    }
    proof {
        assert(sub_in@.len() == 2);
        assert(sine_osc_1 as int == l + 1 && sine_osc_2 as int == l + 3);
        assert(sub_in@[0] == ((l + 4) as usize) && sub_in@[1] == ((l + 5) as usize));
        assert(s3.port_in_range(l + 4, 0) && s3.port_in_range(l + 5, 0));
    }
    let si0 = sub_in[0];
    let si1 = sub_in[1];
    match cg.connect_ex_ex(sine_osc_1, si0) {
        Ok(_) => (),
        Err(_) => vstd::pervasive::unreached(),
    };
    let ghost s4 = *cg;
    let ghost m4 = s4.model();
    proof {
        assert(m4.edges == m3.edges.push(
            Some(Edge { src: ((l + 1) as usize), dst: ((l + 4) as usize), port: 0 }),
        )) by {
            assert(sine_osc_1 == ((l + 1) as usize));
            assert(si0 == ((l + 4) as usize));
        }
        assert(m4.slots == m3.slots);
        assert(m4.live(sine_osc_2 as int) && sine_osc_2 != 0);
        assert(m4.live(l + 5) && m4.kind(l + 5) is ContainerInput);
        assert(s4.port_in_range(l + 5, 0));
        assert(!m4.has_producer(l + 5, 0)) by {
            if m4.has_producer(l + 5, 0) {
                let e = choose|e: int|
                    #[trigger] m4.edge_live(e) && m4.edge(e).dst as int == l + 5 && m4.edge(
                        e,
                    ).port as int == 0;
                if e < m3.edges.len() {
                    assert(m3.edge_live(e));
                    assert(m3.has_producer(l + 5, 0));
                }
            }
        }
        assert(!m4.reaches(l + 5, sine_osc_2 as int)) by {
            let reach = set![l + 5, l + 8, l + 9, l + 6];
            assert forall|v: int, d: int|
                reach.contains(v) && #[trigger] m4.step(v, d) implies reach.contains(d) by {
                let e = choose|e: int|
                    m4.edge_live(e) && m4.edge(e).src as int == v && m4.edge(e).dst as int == d;
                if e < pm.edges.len() {
                    assert(pm.edge_live(e));
                    assert(pm.live(pm.edge(e).src as int));
                } else if e < m3.edges.len() {
                    assert(m3.edge_live(e) && m3.edge(e) == m4.edge(e));
                } else {
                    assert(m4.edge(e).src as int == l + 1);
                }
            }
            assert(reach.contains(l + 5) && !reach.contains(sine_osc_2 as int));
            crate::model::lemma_closed_unreached(m4, reach, l + 5, sine_osc_2 as int);
        }
    }
    match cg.connect_ex_ex(sine_osc_2, si1) {
        Ok(_) => (),
        Err(_) => vstd::pervasive::unreached(),
    };
    let ghost s5 = *cg;
    let ghost m5 = s5.model();
    proof {
        assert(m5.edges == m4.edges.push(
            Some(Edge { src: ((l + 3) as usize), dst: ((l + 5) as usize), port: 0 }),
        )) by {
            assert(sine_osc_2 == ((l + 3) as usize));
            assert(si1 == ((l + 5) as usize));
        }
        assert(m5.edges =~= m3.edges + seq![
            Some(Edge { src: ((l + 1) as usize), dst: ((l + 4) as usize), port: 0 }),
            Some(Edge { src: ((l + 3) as usize), dst: ((l + 5) as usize), port: 0 }),
        ]);
        assert(m5.slots == m3.slots);
        assert forall|e: int|
            #[trigger] m5.edge_live(e) && e >= pm.edges.len() implies (m5.edge(e) == (Edge { src: (l as usize), dst: ((l + 1) as usize), port: 0 })) || (m5.edge(e) == (Edge { src: ((l + 2) as usize), dst: ((l + 3) as usize), port: 0 })) || (m5.edge(e) == (Edge { src: ((l + 7) as usize), dst: ((l + 8) as usize), port: 0 })) || (m5.edge(e) == (Edge { src: ((l + 5) as usize), dst: ((l + 8) as usize), port: 1 })) || (m5.edge(e) == (Edge { src: ((l + 4) as usize), dst: ((l + 9) as usize), port: 0 })) || (m5.edge(e) == (Edge { src: ((l + 8) as usize), dst: ((l + 9) as usize), port: 1 })) || (m5.edge(e) == (Edge { src: ((l + 9) as usize), dst: ((l + 6) as usize), port: 0 })) || (m5.edge(e) == (Edge { src: ((l + 1) as usize), dst: ((l + 4) as usize), port: 0 })) || (m5.edge(e) == (Edge { src: ((l + 3) as usize), dst: ((l + 5) as usize), port: 0 })) by {
            let k = e - pm.edges.len();
            assert(0 <= k < 9);
            if k == 0 {
                assert(m5.edges[pm.edges.len() as int + 0] == Some(Edge { src: (l as usize), dst: ((l + 1) as usize), port: 0 }));
            }
            else if k == 1 {
                assert(m5.edges[pm.edges.len() as int + 1] == Some(Edge { src: ((l + 2) as usize), dst: ((l + 3) as usize), port: 0 }));
            }
            else if k == 2 {
                assert(m5.edges[pm.edges.len() as int + 2] == Some(Edge { src: ((l + 7) as usize), dst: ((l + 8) as usize), port: 0 }));
            }
            else if k == 3 {
                assert(m5.edges[pm.edges.len() as int + 3] == Some(Edge { src: ((l + 5) as usize), dst: ((l + 8) as usize), port: 1 }));
            }
            else if k == 4 {
                assert(m5.edges[pm.edges.len() as int + 4] == Some(Edge { src: ((l + 4) as usize), dst: ((l + 9) as usize), port: 0 }));
            }
            else if k == 5 {
                assert(m5.edges[pm.edges.len() as int + 5] == Some(Edge { src: ((l + 8) as usize), dst: ((l + 9) as usize), port: 1 }));
            }
            else if k == 6 {
                assert(m5.edges[pm.edges.len() as int + 6] == Some(Edge { src: ((l + 9) as usize), dst: ((l + 6) as usize), port: 0 }));
            }
            else if k == 7 {
                assert(m5.edges[pm.edges.len() as int + 7] == Some(Edge { src: ((l + 1) as usize), dst: ((l + 4) as usize), port: 0 }));
            }
            else {
                assert(m5.edges[pm.edges.len() as int + 8] == Some(Edge { src: ((l + 3) as usize), dst: ((l + 5) as usize), port: 0 }));
            }
        }

    }
    let (div_in, div_out) = cg.insert_container(Div);
    let sc6 = cg.node_slot_count();
    let ghost s6 = *cg;
    let ghost m6 = s6.model();
    proof {
        assert(sc6 as int == l + 15);
        assert(l + 15 <= usize::MAX as int);
        assert(div_in@ == id_range(l + 10, l + 12));
        assert(div_out@ == id_range(l + 12, l + 13));
    }
    let ghost div_mid = choose|mid: GraphModel|
        {
            &&& #[trigger] mid.slots.len() == l + 13
            &&& (forall|q: int| 0 <= q < l + 10 ==> #[trigger] mid.slots[q] == s5.model().slots[q])
            &&& (forall|k: int|
                0 <= k < 2 ==> (#[trigger] mid.slots[l + 10 + k]) is Some && mid.kind(l + 10 + k)
                    is ContainerInput && mid.kind(l + 10 + k)->ContainerInput_0.label@
                    == Div.input_labels_spec()[k])
            &&& (forall|k: int|
                0 <= k < 1 ==> (#[trigger] mid.slots[l + 12 + k]) is Some && mid.kind(l + 12 + k)
                    is ContainerOutput && mid.kind(l + 12 + k)->ContainerOutput_0.label@
                    == Div.output_labels_spec()[k])
            &&& mid.edges == s5.model().edges
            &&& mid.rate == s5.model().rate
            &&& s6.model() == Div.construct_spec(mid, div_in@, div_out@)
        };
    proof {
        assert(m6 == Div.construct_spec(div_mid, div_in@, div_out@));
        assert(m6.edges =~= m5.edges + seq![
            Some(Edge { src: ((l + 11) as usize), dst: ((l + 13) as usize), port: 0 }),
            Some(Edge { src: ((l + 10) as usize), dst: ((l + 14) as usize), port: 0 }),
            Some(Edge { src: ((l + 13) as usize), dst: ((l + 14) as usize), port: 1 }),
            Some(Edge { src: ((l + 14) as usize), dst: ((l + 12) as usize), port: 0 }),
        ]);
        assert forall|e: int|
            #[trigger] m6.edge_live(e) && e >= pm.edges.len() implies (m6.edge(e) == (Edge { src: (l as usize), dst: ((l + 1) as usize), port: 0 })) || (m6.edge(e) == (Edge { src: ((l + 2) as usize), dst: ((l + 3) as usize), port: 0 })) || (m6.edge(e) == (Edge { src: ((l + 7) as usize), dst: ((l + 8) as usize), port: 0 })) || (m6.edge(e) == (Edge { src: ((l + 5) as usize), dst: ((l + 8) as usize), port: 1 })) || (m6.edge(e) == (Edge { src: ((l + 4) as usize), dst: ((l + 9) as usize), port: 0 })) || (m6.edge(e) == (Edge { src: ((l + 8) as usize), dst: ((l + 9) as usize), port: 1 })) || (m6.edge(e) == (Edge { src: ((l + 9) as usize), dst: ((l + 6) as usize), port: 0 })) || (m6.edge(e) == (Edge { src: ((l + 1) as usize), dst: ((l + 4) as usize), port: 0 })) || (m6.edge(e) == (Edge { src: ((l + 3) as usize), dst: ((l + 5) as usize), port: 0 })) || (m6.edge(e) == (Edge { src: ((l + 11) as usize), dst: ((l + 13) as usize), port: 0 })) || (m6.edge(e) == (Edge { src: ((l + 10) as usize), dst: ((l + 14) as usize), port: 0 })) || (m6.edge(e) == (Edge { src: ((l + 13) as usize), dst: ((l + 14) as usize), port: 1 })) || (m6.edge(e) == (Edge { src: ((l + 14) as usize), dst: ((l + 12) as usize), port: 0 })) by {
            let k = e - pm.edges.len();
            assert(0 <= k < 13);
            if k == 0 {
                assert(m6.edges[pm.edges.len() as int + 0] == Some(Edge { src: (l as usize), dst: ((l + 1) as usize), port: 0 }));
            }
            else if k == 1 {
                assert(m6.edges[pm.edges.len() as int + 1] == Some(Edge { src: ((l + 2) as usize), dst: ((l + 3) as usize), port: 0 }));
            }
            else if k == 2 {
                assert(m6.edges[pm.edges.len() as int + 2] == Some(Edge { src: ((l + 7) as usize), dst: ((l + 8) as usize), port: 0 }));
            }
            else if k == 3 {
                assert(m6.edges[pm.edges.len() as int + 3] == Some(Edge { src: ((l + 5) as usize), dst: ((l + 8) as usize), port: 1 }));
            }
            else if k == 4 {
                assert(m6.edges[pm.edges.len() as int + 4] == Some(Edge { src: ((l + 4) as usize), dst: ((l + 9) as usize), port: 0 }));
            }
            else if k == 5 {
                assert(m6.edges[pm.edges.len() as int + 5] == Some(Edge { src: ((l + 8) as usize), dst: ((l + 9) as usize), port: 1 }));
            }
            else if k == 6 {
                assert(m6.edges[pm.edges.len() as int + 6] == Some(Edge { src: ((l + 9) as usize), dst: ((l + 6) as usize), port: 0 }));
            }
            else if k == 7 {
                assert(m6.edges[pm.edges.len() as int + 7] == Some(Edge { src: ((l + 1) as usize), dst: ((l + 4) as usize), port: 0 }));
            }
            else if k == 8 {
                assert(m6.edges[pm.edges.len() as int + 8] == Some(Edge { src: ((l + 3) as usize), dst: ((l + 5) as usize), port: 0 }));
            }
            else if k == 9 {
                assert(m6.edges[pm.edges.len() as int + 9] == Some(Edge { src: ((l + 11) as usize), dst: ((l + 13) as usize), port: 0 }));
            }
            else if k == 10 {
                assert(m6.edges[pm.edges.len() as int + 10] == Some(Edge { src: ((l + 10) as usize), dst: ((l + 14) as usize), port: 0 }));
            }
            else if k == 11 {
                assert(m6.edges[pm.edges.len() as int + 11] == Some(Edge { src: ((l + 13) as usize), dst: ((l + 14) as usize), port: 1 }));
            }
            else {
                assert(m6.edges[pm.edges.len() as int + 12] == Some(Edge { src: ((l + 14) as usize), dst: ((l + 12) as usize), port: 0 }));
            }
        }
        assert(m6.live(l + 6) && m6.kind(l + 6) is ContainerOutput);
        assert(m6.live(l + 10) && m6.kind(l + 10) is ContainerInput);
        assert(m6.live(l + 11) && m6.kind(l + 11) is ContainerInput);
        assert(!m6.has_producer(l + 10, 0) && !m6.has_producer(l + 11, 0)) by {
            assert forall|e: int| #[trigger] m6.edge_live(e) implies m6.edge(e).dst as int != l
                + 10 && m6.edge(e).dst as int != l + 11 by {
                if e < pm.edges.len() {
                    assert(pm.edge_live(e));
                    assert(pm.live(pm.edge(e).dst as int));
                }
            }
        }
        assert(!m6.reaches(l + 10, l + 6)) by {
            let reach = set![l + 10, l + 14, l + 12];
            assert forall|v: int, d: int|
                reach.contains(v) && #[trigger] m6.step(v, d) implies reach.contains(d) by {
                let e = choose|e: int|
                    m6.edge_live(e) && m6.edge(e).src as int == v && m6.edge(e).dst as int == d;
                if e < pm.edges.len() {
                    assert(pm.edge_live(e));
                    assert(pm.live(pm.edge(e).src as int));
                }
            }
            assert(reach.contains(l + 10) && !reach.contains(l + 6));
            crate::model::lemma_closed_unreached(m6, reach, l + 10, l + 6);
        }
    }
    proof {
        assert(div_in@.len() == 2);
        assert(sub_out@.len() == 1);
        assert(sub_out@[0] == ((l + 6) as usize));
        assert(div_in@[0] == ((l + 10) as usize) && div_in@[1] == ((l + 11) as usize));
        assert(s6.port_in_range(l + 10, 0) && s6.port_in_range(l + 11, 0));
    }
    let so0 = sub_out[0];
    let di0 = div_in[0];
    let di1 = div_in[1];
    match cg.connect_ex_ex(so0, di0) {
        Ok(_) => (),
        Err(_) => vstd::pervasive::unreached(),
    };
    let ghost s7 = *cg;
    let ghost m7 = s7.model();
    proof {
        assert(m7.edges == m6.edges.push(
            Some(Edge { src: ((l + 6) as usize), dst: ((l + 10) as usize), port: 0 }),
        )) by {
            assert(so0 == ((l + 6) as usize));
            assert(di0 == ((l + 10) as usize));
        }
        assert(m7.slots == m6.slots);
        assert(m7.live(l + 11) && m7.kind(l + 11) is ContainerInput);
        assert(s7.port_in_range(l + 11, 0));
        assert(!m7.has_producer(l + 11, 0)) by {
            if m7.has_producer(l + 11, 0) {
                let e = choose|e: int|
                    #[trigger] m7.edge_live(e) && m7.edge(e).dst as int == l + 11 && m7.edge(
                        e,
                    ).port as int == 0;
                if e < m6.edges.len() {
                    assert(m6.edge_live(e));
                    assert(m6.has_producer(l + 11, 0));
                }
            }
        }
    }
    match cg.connect_const_ex(TWO_BITS, di1) {
        Ok(_) => (),
        Err(_) => vstd::pervasive::unreached(),
    };
    let sc8 = cg.node_slot_count();
    let ghost s8 = *cg;
    let ghost m8 = s8.model();
    proof {
        assert(sc8 as int == l + 16);
        assert(l + 16 <= usize::MAX as int);
        assert(m8.edges =~= m6.edges + seq![
            Some(Edge { src: ((l + 6) as usize), dst: ((l + 10) as usize), port: 0 }),
            Some(Edge { src: ((l + 15) as usize), dst: ((l + 11) as usize), port: 0 }),
        ]);
        assert forall|e: int|
            #[trigger] m8.edge_live(e) && e >= pm.edges.len() implies (m8.edge(e) == (Edge { src: (l as usize), dst: ((l + 1) as usize), port: 0 })) || (m8.edge(e) == (Edge { src: ((l + 2) as usize), dst: ((l + 3) as usize), port: 0 })) || (m8.edge(e) == (Edge { src: ((l + 7) as usize), dst: ((l + 8) as usize), port: 0 })) || (m8.edge(e) == (Edge { src: ((l + 5) as usize), dst: ((l + 8) as usize), port: 1 })) || (m8.edge(e) == (Edge { src: ((l + 4) as usize), dst: ((l + 9) as usize), port: 0 })) || (m8.edge(e) == (Edge { src: ((l + 8) as usize), dst: ((l + 9) as usize), port: 1 })) || (m8.edge(e) == (Edge { src: ((l + 9) as usize), dst: ((l + 6) as usize), port: 0 })) || (m8.edge(e) == (Edge { src: ((l + 1) as usize), dst: ((l + 4) as usize), port: 0 })) || (m8.edge(e) == (Edge { src: ((l + 3) as usize), dst: ((l + 5) as usize), port: 0 })) || (m8.edge(e) == (Edge { src: ((l + 11) as usize), dst: ((l + 13) as usize), port: 0 })) || (m8.edge(e) == (Edge { src: ((l + 10) as usize), dst: ((l + 14) as usize), port: 0 })) || (m8.edge(e) == (Edge { src: ((l + 13) as usize), dst: ((l + 14) as usize), port: 1 })) || (m8.edge(e) == (Edge { src: ((l + 14) as usize), dst: ((l + 12) as usize), port: 0 })) || (m8.edge(e) == (Edge { src: ((l + 6) as usize), dst: ((l + 10) as usize), port: 0 })) || (m8.edge(e) == (Edge { src: ((l + 15) as usize), dst: ((l + 11) as usize), port: 0 })) by {
            let k = e - pm.edges.len();
            assert(0 <= k < 15);
            if k == 0 {
                assert(m8.edges[pm.edges.len() as int + 0] == Some(Edge { src: (l as usize), dst: ((l + 1) as usize), port: 0 }));
            }
            else if k == 1 {
                assert(m8.edges[pm.edges.len() as int + 1] == Some(Edge { src: ((l + 2) as usize), dst: ((l + 3) as usize), port: 0 }));
            }
            else if k == 2 {
                assert(m8.edges[pm.edges.len() as int + 2] == Some(Edge { src: ((l + 7) as usize), dst: ((l + 8) as usize), port: 0 }));
            }
            else if k == 3 {
                assert(m8.edges[pm.edges.len() as int + 3] == Some(Edge { src: ((l + 5) as usize), dst: ((l + 8) as usize), port: 1 }));
            }
            else if k == 4 {
                assert(m8.edges[pm.edges.len() as int + 4] == Some(Edge { src: ((l + 4) as usize), dst: ((l + 9) as usize), port: 0 }));
            }
            else if k == 5 {
                assert(m8.edges[pm.edges.len() as int + 5] == Some(Edge { src: ((l + 8) as usize), dst: ((l + 9) as usize), port: 1 }));
            }
            else if k == 6 {
                assert(m8.edges[pm.edges.len() as int + 6] == Some(Edge { src: ((l + 9) as usize), dst: ((l + 6) as usize), port: 0 }));
            }
            else if k == 7 {
                assert(m8.edges[pm.edges.len() as int + 7] == Some(Edge { src: ((l + 1) as usize), dst: ((l + 4) as usize), port: 0 }));
            }
            else if k == 8 {
                assert(m8.edges[pm.edges.len() as int + 8] == Some(Edge { src: ((l + 3) as usize), dst: ((l + 5) as usize), port: 0 }));
            }
            else if k == 9 {
                assert(m8.edges[pm.edges.len() as int + 9] == Some(Edge { src: ((l + 11) as usize), dst: ((l + 13) as usize), port: 0 }));
            }
            else if k == 10 {
                assert(m8.edges[pm.edges.len() as int + 10] == Some(Edge { src: ((l + 10) as usize), dst: ((l + 14) as usize), port: 0 }));
            }
            else if k == 11 {
                assert(m8.edges[pm.edges.len() as int + 11] == Some(Edge { src: ((l + 13) as usize), dst: ((l + 14) as usize), port: 1 }));
            }
            else if k == 12 {
                assert(m8.edges[pm.edges.len() as int + 12] == Some(Edge { src: ((l + 14) as usize), dst: ((l + 12) as usize), port: 0 }));
            }
            else if k == 13 {
                assert(m8.edges[pm.edges.len() as int + 13] == Some(Edge { src: ((l + 6) as usize), dst: ((l + 10) as usize), port: 0 }));
            }
            else {
                assert(m8.edges[pm.edges.len() as int + 14] == Some(Edge { src: ((l + 15) as usize), dst: ((l + 11) as usize), port: 0 }));
            }
        }
        assert(m8.live(l + 12) && m8.kind(l + 12) is ContainerOutput);
        assert(!m8.has_producer(0, 0)) by {
            if m8.has_producer(0, 0) {
                let e = choose|e: int|
                    #[trigger] m8.edge_live(e) && m8.edge(e).dst as int == 0 && m8.edge(
                        e,
                    ).port as int == 0;
                if e < pm.edges.len() {
                    assert(pm.edge_live(e));
                    assert(pm.has_producer(0, 0));
                }
            }
        }
        assert(!m8.reaches(0, l + 12)) by {
            assert forall|e: int| #[trigger] m8.edge_live(e) implies m8.edge(e).src as int
                != 0 by {
                if e < pm.edges.len() {
                    assert(pm.edge_live(e));
                }
            }
            crate::model::lemma_no_outgoing_unreaches(m8, 0, l + 12);
        }
    }
    proof {
        assert(div_out@.len() == 1);
        assert(div_out@[0] == ((l + 12) as usize));
    }
    let do0 = div_out[0];
    match cg.connect_existing_aout(do0) {
        Ok(_) => (),
        Err(_) => vstd::pervasive::unreached(),
    };
    proof {
        let fm = cg.model();
        assert(fm.edges =~= subsynth_with_containers_edges(pm));
        assert(subsynth_with_containers_slots(pm, fm)) by {
            assert(fm.slots == m8.slots);
            assert(m8.slots == m7.slots.push(
                Some(Node::Const(crate::node::Const(Sample { l: TWO_BITS, r: TWO_BITS }))),
            ));
            assert(m7.slots == m6.slots);
            assert(forall|q: int| 0 <= q < l + 13 ==> #[trigger] m6.slots[q] == div_mid.slots[q]);
            assert(forall|q: int| 0 <= q < l + 10 ==> #[trigger] div_mid.slots[q] == m5.slots[q]);
            assert(m5.slots == m3.slots);
            assert(forall|q: int| 0 <= q < l + 7 ==> #[trigger] m3.slots[q] == sub_mid.slots[q]);
            assert(forall|q: int| 0 <= q < l + 4 ==> #[trigger] sub_mid.slots[q]
                == s2.model().slots[q]);
            assert(forall|q: int| 0 <= q < l ==> #[trigger] fm.slots[q] == pm.slots[q]);
        }
        assert(cg.containers_idents() =~= pre.containers_idents().push("Subtract"@).push(
            "Divide"@,
        ));
        assert(cg.containers_stack() =~= pre.containers_stack());
        let n0 = pre.containers_members().len() as int;
        assert(cg.containers_members().len() == n0 + 2);
        assert(cg.containers_members()[n0] == id_range(l + 4, l + 10)) by {
            assert(s3.containers_members()[n0] == id_range(l + 4, l + 10));
            assert(s5.containers_members()[n0] == s3.containers_members()[n0]);
            assert(!(exists|q: int|
                0 <= q < s5.containers_stack().len() && (#[trigger] s5.containers_stack()[q]
                    as int) == n0)) by {
                if exists|q: int|
                    0 <= q < s5.containers_stack().len() && (#[trigger] s5.containers_stack()[q]
                        as int) == n0 {
                    let q = choose|q: int|
                        0 <= q < s5.containers_stack().len() && (
                        #[trigger] s5.containers_stack()[q] as int) == n0;
                    assert(pre.containers_stack()[q] as int == n0);
                    assert((pre.containers_stack()[q] as int) < n0);
                }
            }
            assert(s6.containers_members()[n0] == s5.containers_members()[n0]);
            assert(s8.containers_members()[n0] == s6.containers_members()[n0]);
            assert(cg.containers_members()[n0] == s8.containers_members()[n0]);
        }
        assert(cg.containers_members()[n0 + 1] == id_range(l + 10, l + 15)) by {
            assert(s6.containers_members()[n0 + 1] == id_range(l + 10, l + 15));
            assert(!(exists|q: int|
                0 <= q < s6.containers_stack().len() && (#[trigger] s6.containers_stack()[q]
                    as int) == n0 + 1)) by {
                if exists|q: int|
                    0 <= q < s6.containers_stack().len() && (#[trigger] s6.containers_stack()[q]
                        as int) == n0 + 1 {
                    let q = choose|q: int|
                        0 <= q < s6.containers_stack().len() && (
                        #[trigger] s6.containers_stack()[q] as int) == n0 + 1;
                    assert(pre.containers_stack()[q] as int == n0 + 1);
                    assert((pre.containers_stack()[q] as int) < n0);
                }
            }
            assert(s8.containers_members()[n0 + 1] == s6.containers_members()[n0 + 1]);
            assert(cg.containers_members()[n0 + 1] == s8.containers_members()[n0 + 1]);
        }
    }
    Ok(())
}

/// The structure `subsynth_plain_multiout` appends: one shared constant
/// driving two oscillators, a third oscillator fed by the second, their
/// sum, and the half-scale into the sink.
pub open spec fn subsynth_plain_multiout_model(m: GraphModel) -> GraphModel {
    let l = m.slots.len() as usize;
    GraphModel {
        slots: m.slots + seq![
            Some(Node::Const(crate::node::Const(Sample { l: HZ220_BITS, r: HZ220_BITS }))),
            Some(Node::Sine(Sine)),
            Some(Node::Sine(Sine)),
            Some(Node::Sine(Sine)),
            Some(Node::Add(Add)),
            Some(Node::Const(crate::node::Const(Sample { l: HALF_BITS, r: HALF_BITS }))),
            Some(Node::Mul(Mul)),
        ],
        edges: m.edges + seq![
            Some(Edge { src: l, dst: (l + 1) as usize, port: 0 }),
            Some(Edge { src: l, dst: (l + 2) as usize, port: 0 }),
            Some(Edge { src: (l + 2) as usize, dst: (l + 3) as usize, port: 0 }),
            Some(Edge { src: (l + 1) as usize, dst: (l + 4) as usize, port: 0 }),
            Some(Edge { src: (l + 3) as usize, dst: (l + 4) as usize, port: 1 }),
            Some(Edge { src: (l + 5) as usize, dst: (l + 6) as usize, port: 0 }),
            Some(Edge { src: (l + 4) as usize, dst: (l + 6) as usize, port: 1 }),
            Some(Edge { src: (l + 6) as usize, dst: 0, port: 0 }),
        ],
        rate: m.rate,
    }
}

/// One shared 220 Hz constant driving two oscillators, one of which drives
/// a third; the fan-out exercises the per-phase memoization. Succeeds
/// whenever the sink is still unwired, and appends exactly the documented
/// nodes and edges.
pub fn subsynth_plain_multiout(cg: &mut ControlGraph) -> (r: Result<(), GraphError>)
    requires
        old(cg).wf(),
        !old(cg).model().has_producer(0, 0),
    ensures
        final(cg).wf(),
        r is Ok,
        final(cg).model() == subsynth_plain_multiout_model(old(cg).model()),
        final(cg).phase() == old(cg).phase(),
        !final(cg).cache_ok(),
        final(cg).containers_idents() == old(cg).containers_idents(),
        final(cg).containers_children() == old(cg).containers_children(),
        final(cg).containers_stack() == old(cg).containers_stack(),
        final(cg).scopes_extended(
            old(cg),
            old(cg).model().slots.len() as int,
            old(cg).model().slots.len() as int + 7,
        ),
{
    let ghost pre = *cg;
    let ghost pm = pre.model();
    let ghost l = pm.slots.len() as int;
    proof {
        pre.lemma_wf_model();
        assert(l >= 1);
    }
    let c_220 = cg.insert(Node::Const(c(HZ220_BITS)));
    let ghost s1 = *cg;
    let sine_osc_1 = match cg.connect_ex_new(c_220, Node::Sine(Sine)) {
        Ok(v) => v,
        Err(_) => vstd::pervasive::unreached(),
    };
    let ghost s2 = *cg;
    let sine_osc_2 = match cg.connect_ex_new(c_220, Node::Sine(Sine)) {
        Ok(v) => v,
        Err(_) => vstd::pervasive::unreached(),
    };
    let ghost s3 = *cg;
    let sine_osc_3 = match cg.connect_ex_new(sine_osc_2, Node::Sine(Sine)) {
        Ok(v) => v,
        Err(_) => vstd::pervasive::unreached(),
    };
    let ghost s4 = *cg;
    let mut add_srcs: Vec<usize> = Vec::new();
    add_srcs.push(sine_osc_1);
    add_srcs.push(sine_osc_3);
    proof {
        assert(add_srcs@ =~= seq![sine_osc_1, sine_osc_3]);
        assert(s4.model().live(sine_osc_1 as int) && sine_osc_1 != 0);
        assert(s4.model().live(sine_osc_3 as int) && sine_osc_3 != 0);
    }
    let add = match cg.connect_many_new(add_srcs.as_slice(), Node::Add(Add)) {
        Ok(v) => v,
        Err(_) => vstd::pervasive::unreached(),
    };
    let ghost s5 = *cg;
    let mulhalf = match cg.connect_const_new(HALF_BITS, Node::Mul(Mul)) {
        Ok(v) => v,
        Err(_) => vstd::pervasive::unreached(),
    };
    let ghost s6 = *cg;
    proof {
        let m6 = s6.model();
        assert(m6.live(add as int) && add != 0);
        assert(m6.live(mulhalf as int) && mulhalf != 0);
        assert(m6.kind(mulhalf as int) is Mul);
        assert(!m6.has_producer(mulhalf as int, 1)) by {
            if m6.has_producer(mulhalf as int, 1) {
                let e = choose|e: int|
                    #[trigger] m6.edge_live(e) && m6.edge(e).dst as int == mulhalf as int
                        && m6.edge(e).port as int == 1;
                if e < pm.edges.len() {
                    assert(pm.edge_live(e));
                    assert(pm.live(pm.edge(e).dst as int));
                }
            }
        }
        assert(!m6.reaches(mulhalf as int, add as int)) by {
            assert forall|e: int| #[trigger] m6.edge_live(e) implies m6.edge(e).src as int != (
            mulhalf as int) by {
                if e < pm.edges.len() {
                    assert(pm.edge_live(e));
                    assert(pm.live(pm.edge(e).src as int));
                }
            }
            crate::model::lemma_no_outgoing_unreaches(m6, mulhalf as int, add as int);
        }
    }
    match cg.connect(add, mulhalf, 1) {
        Ok(_) => (),
        Err(_) => vstd::pervasive::unreached(),
    };
    let ghost s7 = *cg;
    proof {
        let m7 = s7.model();
        assert(m7.live(mulhalf as int));
        assert(!m7.has_producer(0, 0)) by {
            if m7.has_producer(0, 0) {
                let e = choose|e: int|
                    #[trigger] m7.edge_live(e) && m7.edge(e).dst as int == 0 && m7.edge(
                        e,
                    ).port as int == 0;
                if e < pm.edges.len() {
                    assert(pm.edge_live(e));
                    assert(pm.has_producer(0, 0));
                }
            }
        }
        assert(!m7.reaches(0, mulhalf as int)) by {
            assert forall|e: int| #[trigger] m7.edge_live(e) implies m7.edge(e).src as int
                != 0 by {
                if e < pm.edges.len() {
                    assert(pm.edge_live(e));
                }
            }
            crate::model::lemma_no_outgoing_unreaches(m7, 0, mulhalf as int);
        }
    }
    match cg.connect_existing_aout(mulhalf) {
        Ok(_) => (),
        Err(_) => vstd::pervasive::unreached(),
    };
    proof {
        assert(cg.model().slots =~= subsynth_plain_multiout_model(pm).slots);
        assert(cg.model().edges =~= subsynth_plain_multiout_model(pm).edges);
        assert(cg.model() =~= subsynth_plain_multiout_model(pm));
        assert forall|j: int| 0 <= j < pre.containers_members().len() implies #[trigger] cg
            .containers_members()[j] == if (exists|q: int|
            0 <= q < pre.containers_stack().len() && (#[trigger] pre.containers_stack()[q]
                as int) == j) {
            pre.containers_members()[j] + id_range(l, l + 7)
        } else {
            pre.containers_members()[j]
        } by {
            if exists|q: int|
                0 <= q < pre.containers_stack().len() && (#[trigger] pre.containers_stack()[q]
                    as int) == j {
                assert(s1.containers_members()[j] == pre.containers_members()[j].push(
                    (l as usize),
                ));
                assert(s2.containers_members()[j] == s1.containers_members()[j].push(
                    (l + 1) as usize,
                ));
                assert(s3.containers_members()[j] == s2.containers_members()[j].push(
                    (l + 2) as usize,
                ));
                assert(s4.containers_members()[j] == s3.containers_members()[j].push(
                    (l + 3) as usize,
                ));
                assert(s5.containers_members()[j] == s4.containers_members()[j].push(
                    (l + 4) as usize,
                ));
                assert(s6.containers_members()[j] == s5.containers_members()[j].push(
                    (l + 5) as usize,
                ).push((l + 6) as usize));
                assert(cg.containers_members()[j] =~= pre.containers_members()[j] + id_range(
                    l,
                    l + 7,
                ));
            }
        }
        assert(cg.scopes_extended(&pre, l, l + 7));
    }
    Ok(())
}

} // verus!
