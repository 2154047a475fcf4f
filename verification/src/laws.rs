//! The engine's global guarantees, stated on their own.
//!
//! Each law here is proved from the contracts in `control` and the model in
//! `model`; nothing below restates executable code.

use vstd::prelude::*;

use crate::control::ControlGraph;
use crate::fp::{add64, mul64, NEG_ONE_BITS};
use crate::model::GraphModel;
use crate::node::Node;
use crate::sample::Sample;

verus! {

/// Acyclicity: a well-formed graph never holds a directed cycle. Every
/// operation preserves well-formedness, and `connect` rejects exactly the
/// edges whose target already reaches their source, so no accepted call can
/// ever close a path back to its own source.
pub proof fn lemma_always_acyclic(g: &ControlGraph)
    requires
        g.wf(),
    ensures
        g.model().acyclic(),
{
    g.lemma_wf_model();
}

/// Determinism, and cold/warm agreement: the sample a graph produces is a
/// function of its persistent structure and the phase alone. Two freshly
/// constructed, structurally identical graphs therefore produce bit-identical
/// output sequences under the same calls; and since neither the recorded
/// evaluation order nor the per-node generations appear in the statement,
/// the cold dependency walk and the warm replay agree on every sample —
/// `next_sample` ensures its result equals `sink_value` either way.
pub proof fn lemma_sample_determined_by_structure(
    g1: &ControlGraph,
    g2: &ControlGraph,
    phase: u64,
)
    requires
        g1.model() == g2.model(),
    ensures
        g1.model().sink_value(phase) == g2.model().sink_value(phase),
{
}

/// Container transparency: a boundary pass-through node carries exactly its
/// producer's value, so a subgraph wired through container boundary markers
/// computes the same samples as the same primitives wired by hand.
pub proof fn lemma_boundary_transparent(m: GraphModel, phase: u64, n: int)
    requires
        m.wf(),
        m.live(n),
        m.kind(n) is ContainerInput || m.kind(n) is ContainerOutput,
        m.has_producer(n, 0),
    ensures
        m.node_value(phase, n) == m.node_value(phase, m.producer(n, 0)),
{
    let inputs = Seq::new(m.kind(n).arity_spec(), |i: int| m.input_value(phase, n, i));
    assert(m.node_value(phase, n) == m.kind(n).process_spec(inputs, phase, m.rate));
    assert(inputs[0] == m.input_value(phase, n, 0));
    assert(m.input_value(phase, n, 0) == m.node_value(phase, m.producer(n, 0)));
}

/// The sink always has exactly zero or one incoming edge: every edge into
/// it addresses its single port, and no port is fed twice.
pub proof fn lemma_sink_single_feed(g: &ControlGraph, e1: int, e2: int)
    requires
        g.wf(),
        g.model().edge_live(e1),
        g.model().edge_live(e2),
        g.model().edge(e1).dst == 0,
        g.model().edge(e2).dst == 0,
    ensures
        e1 == e2,
{
    g.lemma_wf_model();
    let m = g.model();
    assert(m.edge(e1).port as int == 0 && m.edge(e2).port as int == 0);
}

/// The output sequence a structure produces from a starting phase: one
/// sink value per successive phase.
pub open spec fn sink_sequence(m: GraphModel, start: u64, n: nat) -> Seq<crate::sample::Sample> {
    Seq::new(n, |i: int| m.sink_value((start + i) as u64))
}

/// Round trips and copies alike: any two graphs holding the same structure
/// — a re-imported graph and its original, or two builds of one patch —
/// produce the same output sequence from the same starting phase, however
/// many samples are drawn.
pub proof fn lemma_equal_structures_equal_sequences(
    g1: &ControlGraph,
    g2: &ControlGraph,
    start: u64,
    n: nat,
)
    requires
        g1.model() == g2.model(),
    ensures
        sink_sequence(g1.model(), start, n) == sink_sequence(g2.model(), start, n),
{
}

/// Container transparency, end to end: a subtraction built through the
/// Subtract container's boundary markers carries, at every phase, exactly
/// the value of the same subtraction wired by hand — so two graphs whose
/// remaining structure feeds equal values into the two versions produce
/// identical output sequences. `mb` holds the container form: input
/// boundaries `ci0`, `ci1` pass their producers through, a constant minus
/// one times `ci1` is added to `ci0`, and the sum leaves through the output
/// boundary `co`. `mh` holds the hand-wired form: the constant minus one
/// times the right operand is added to the left operand at `haddn`. With
/// equal operand values on both sides, the boundary output equals the
/// hand-wired sum, bit for bit, at every phase.
pub proof fn lemma_subtract_container_transparent(
    mb: GraphModel,
    mh: GraphModel,
    phase: u64,
    ci0: int,
    ci1: int,
    co: int,
    mneg_c: int,
    mneg: int,
    addn: int,
    hmneg_c: int,
    hmneg: int,
    haddn: int,
)
    requires
        mb.wf(),
        mh.wf(),
        // the container form, as Sub expands it
        mb.live(ci0) && mb.kind(ci0) is ContainerInput && mb.has_producer(ci0, 0),
        mb.live(ci1) && mb.kind(ci1) is ContainerInput && mb.has_producer(ci1, 0),
        mb.live(mneg_c) && mb.kind(mneg_c) == Node::Const(
            crate::node::Const(Sample { l: NEG_ONE_BITS, r: NEG_ONE_BITS }),
        ),
        mb.live(mneg) && mb.kind(mneg) is Mul,
        mb.has_producer(mneg, 0) && mb.producer(mneg, 0) == mneg_c,
        mb.has_producer(mneg, 1) && mb.producer(mneg, 1) == ci1,
        mb.live(addn) && mb.kind(addn) is Add,
        mb.has_producer(addn, 0) && mb.producer(addn, 0) == ci0,
        mb.has_producer(addn, 1) && mb.producer(addn, 1) == mneg,
        mb.live(co) && mb.kind(co) is ContainerOutput,
        mb.has_producer(co, 0) && mb.producer(co, 0) == addn,
        // the hand-wired form
        mh.live(hmneg_c) && mh.kind(hmneg_c) == Node::Const(
            crate::node::Const(Sample { l: NEG_ONE_BITS, r: NEG_ONE_BITS }),
        ),
        mh.live(hmneg) && mh.kind(hmneg) is Mul,
        mh.has_producer(hmneg, 0) && mh.producer(hmneg, 0) == hmneg_c,
        mh.has_producer(hmneg, 1),
        mh.live(haddn) && mh.kind(haddn) is Add,
        mh.has_producer(haddn, 0),
        mh.has_producer(haddn, 1) && mh.producer(haddn, 1) == hmneg,
        // equal operand values flow into both versions
        mb.node_value(phase, mb.producer(ci0, 0)) == mh.node_value(
            phase,
            mh.producer(haddn, 0),
        ),
        mb.node_value(phase, mb.producer(ci1, 0)) == mh.node_value(phase, mh.producer(hmneg, 1)),
    ensures
        mb.node_value(phase, co) == mh.node_value(phase, haddn),
{
    let va = mb.node_value(phase, mb.producer(ci0, 0));
    let vb = mb.node_value(phase, mb.producer(ci1, 0));
    let negs = Sample { l: NEG_ONE_BITS, r: NEG_ONE_BITS };
    // the boundaries pass their producers through
    lemma_boundary_transparent(mb, phase, ci0);
    lemma_boundary_transparent(mb, phase, ci1);
    assert(mb.node_value(phase, ci0) == va);
    assert(mb.node_value(phase, ci1) == vb);
    // the constants carry their stored sample
    assert(mb.node_value(phase, mneg_c) == negs) by {
        assert(mb.node_value(phase, mneg_c) == mb.kind(mneg_c).process_spec(
            Seq::new(mb.kind(mneg_c).arity_spec(), |i: int| mb.input_value(phase, mneg_c, i)),
            phase,
            mb.rate,
        ));
    }
    assert(mh.node_value(phase, hmneg_c) == negs) by {
        assert(mh.node_value(phase, hmneg_c) == mh.kind(hmneg_c).process_spec(
            Seq::new(mh.kind(hmneg_c).arity_spec(), |i: int| mh.input_value(phase, hmneg_c, i)),
            phase,
            mh.rate,
        ));
    }
    // the negating multiplies agree
    let negb = Sample { l: mul64(negs.l, vb.l), r: mul64(negs.r, vb.r) };
    assert(mb.node_value(phase, mneg) == negb) by {
        let inputs = Seq::new(mb.kind(mneg).arity_spec(), |i: int| mb.input_value(phase, mneg, i));
        assert(inputs[0] == mb.input_value(phase, mneg, 0));
        assert(inputs[1] == mb.input_value(phase, mneg, 1));
        assert(mb.input_value(phase, mneg, 0) == mb.node_value(phase, mneg_c));
        assert(mb.input_value(phase, mneg, 1) == mb.node_value(phase, ci1));
        assert(mb.node_value(phase, mneg) == mb.kind(mneg).process_spec(inputs, phase, mb.rate));
    }
    assert(mh.node_value(phase, hmneg) == negb) by {
        let inputs = Seq::new(
            mh.kind(hmneg).arity_spec(),
            |i: int| mh.input_value(phase, hmneg, i),
        );
        assert(inputs[0] == mh.input_value(phase, hmneg, 0));
        assert(inputs[1] == mh.input_value(phase, hmneg, 1));
        assert(mh.input_value(phase, hmneg, 0) == mh.node_value(phase, hmneg_c));
        assert(mh.input_value(phase, hmneg, 1) == mh.node_value(phase, mh.producer(hmneg, 1)));
        assert(mh.node_value(phase, hmneg) == mh.kind(hmneg).process_spec(inputs, phase, mh.rate));
    }
    // the adds agree
    let summed = Sample { l: add64(va.l, negb.l), r: add64(va.r, negb.r) };
    assert(mb.node_value(phase, addn) == summed) by {
        let inputs = Seq::new(mb.kind(addn).arity_spec(), |i: int| mb.input_value(phase, addn, i));
        assert(inputs[0] == mb.input_value(phase, addn, 0));
        assert(inputs[1] == mb.input_value(phase, addn, 1));
        assert(mb.input_value(phase, addn, 0) == mb.node_value(phase, ci0));
        assert(mb.input_value(phase, addn, 1) == mb.node_value(phase, mneg));
        assert(mb.node_value(phase, addn) == mb.kind(addn).process_spec(inputs, phase, mb.rate));
    }
    assert(mh.node_value(phase, haddn) == summed) by {
        let inputs = Seq::new(
            mh.kind(haddn).arity_spec(),
            |i: int| mh.input_value(phase, haddn, i),
        );
        assert(inputs[0] == mh.input_value(phase, haddn, 0));
        assert(inputs[1] == mh.input_value(phase, haddn, 1));
        assert(mh.input_value(phase, haddn, 0) == mh.node_value(phase, mh.producer(haddn, 0)));
        assert(mh.input_value(phase, haddn, 1) == mh.node_value(phase, hmneg));
        assert(mh.node_value(phase, haddn) == mh.kind(haddn).process_spec(inputs, phase, mh.rate));
    }
    // and the output boundary passes the sum through
    lemma_boundary_transparent(mb, phase, co);
    assert(mb.node_value(phase, co) == mb.node_value(phase, addn));
}

} // verus!
