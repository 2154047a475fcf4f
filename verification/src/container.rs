//! Reusable named subgraphs.
//!
//! A container is a construction-time macro: a named operator with declared
//! input and output ports that expands, when inserted, into primitive nodes
//! wired between identity boundary markers. It has no runtime form of its
//! own — only the container tree remembers it. A `Container` declares its
//! expansion exactly (`construct_spec`), so that everything built through
//! one is pinned as tightly as hand-wired structure.

use vstd::prelude::*;

use crate::control::ControlGraph;
use crate::fp::{NEG_ONE_BITS};
use crate::model::{Edge, GraphModel};
use crate::node::Node;
use crate::sample::Sample;
use crate::text::chars_of;

verus! {

/// A node that stands clear of every live edge.
pub open spec fn untouched(m: GraphModel, n: usize) -> bool {
    forall|e: int| #[trigger] m.edge_live(e) ==> m.edge(e).src != n && m.edge(e).dst != n
}

/// Freshly inserted boundary handles: live pass-through markers of the
/// right kind, pairwise distinct, not yet wired to anything.
pub open spec fn boundaries_ok(m: GraphModel, inputs: Seq<usize>, outputs: Seq<usize>) -> bool {
    &&& forall|k: int|
        0 <= k < inputs.len() ==> (#[trigger] inputs[k]) != 0 && m.live(inputs[k] as int)
            && m.kind(inputs[k] as int) is ContainerInput && untouched(m, inputs[k])
    &&& forall|k: int|
        0 <= k < outputs.len() ==> (#[trigger] outputs[k]) != 0 && m.live(outputs[k] as int)
            && m.kind(outputs[k] as int) is ContainerOutput && untouched(m, outputs[k])
    &&& forall|k1: int, k2: int|
        #![trigger inputs[k1], inputs[k2]]
        0 <= k1 < k2 < inputs.len() ==> inputs[k1] != inputs[k2]
    &&& forall|k1: int, k2: int|
        #![trigger outputs[k1], outputs[k2]]
        0 <= k1 < k2 < outputs.len() ==> outputs[k1] != outputs[k2]
    &&& forall|k1: int, k2: int|
        #![trigger inputs[k1], outputs[k2]]
        0 <= k1 < inputs.len() && 0 <= k2 < outputs.len() ==> inputs[k1] != outputs[k2]
}

/// A reusable named subgraph: an identifier, named input and output ports,
/// and a `construct` procedure that wires primitive nodes between the
/// boundary handles it is given. `construct_spec` states the wiring
/// exactly, so callers know the structure a container expands into.
pub trait Container: Sized {
    /// The container's name.
    spec fn ident_spec(&self) -> Seq<char>;

    /// The declared input port labels, in port order.
    spec fn input_labels_spec(&self) -> Seq<Seq<char>>;

    /// The declared output port labels, in port order.
    spec fn output_labels_spec(&self) -> Seq<Seq<char>>;

    /// The exact structure `construct` leaves behind, as a function of the
    /// structure it was given and the boundary handles.
    spec fn construct_spec(&self, m: GraphModel, inputs: Seq<usize>, outputs: Seq<usize>)
        -> GraphModel;

    fn get_ident(&self) -> (r: Vec<char>)
        ensures
            r@ == self.ident_spec(),
    ;

    fn get_input_labels(&self) -> (r: Vec<Vec<char>>)
        ensures
            r@.len() == self.input_labels_spec().len(),
            forall|i: int| 0 <= i < r@.len() ==> (#[trigger] r@[i])@ == self.input_labels_spec()[i],
    ;

    fn get_output_labels(&self) -> (r: Vec<Vec<char>>)
        ensures
            r@.len() == self.output_labels_spec().len(),
            forall|i: int|
                0 <= i < r@.len() ==> (#[trigger] r@[i])@ == self.output_labels_spec()[i],
    ;

    /// Wires the container's interior between the boundary handles.
    fn construct(&self, inputs: &Vec<usize>, outputs: &Vec<usize>, cg: &mut ControlGraph)
        requires
            old(cg).wf(),
            inputs@.len() == self.input_labels_spec().len(),
            outputs@.len() == self.output_labels_spec().len(),
            boundaries_ok(old(cg).model(), inputs@, outputs@),
        ensures
            final(cg).wf(),
            final(cg).model() == self.construct_spec(old(cg).model(), inputs@, outputs@),
            final(cg).model().slots.len() >= old(cg).model().slots.len(),
            forall|q: int|
                0 <= q < old(cg).model().slots.len() ==> #[trigger] final(cg).model().slots[q]
                    == old(cg).model().slots[q],
            final(cg).phase() == old(cg).phase(),
            final(cg).containers_idents() == old(cg).containers_idents(),
            final(cg).containers_children() == old(cg).containers_children(),
            final(cg).containers_stack() == old(cg).containers_stack(),
            final(cg).scopes_extended(
                old(cg),
                old(cg).model().slots.len() as int,
                final(cg).model().slots.len() as int,
            ),
    ;
}

/// Subtraction of the second input from the first, expanded as
/// negate-and-add: the right operand times minus one, added to the left.
pub struct Sub;

impl Container for Sub {
    open spec fn ident_spec(&self) -> Seq<char> {
        "Subtract"@
    }

    open spec fn input_labels_spec(&self) -> Seq<Seq<char>> {
        seq!["LHS"@, "RHS"@]
    }

    open spec fn output_labels_spec(&self) -> Seq<Seq<char>> {
        seq!["Difference"@]
    }

    open spec fn construct_spec(&self, m: GraphModel, inputs: Seq<usize>, outputs: Seq<usize>)
        -> GraphModel {
        let a = m.slots.len() as usize;
        let b = (m.slots.len() + 1) as usize;
        let c = (m.slots.len() + 2) as usize;
        GraphModel {
            slots: m.slots + seq![
                Some(
                    Node::Const(
                        crate::node::Const(Sample { l: NEG_ONE_BITS, r: NEG_ONE_BITS }),
                    ),
                ),
                Some(Node::Mul(crate::node::Mul)),
                Some(Node::Add(crate::node::Add)),
            ],
            edges: m.edges + seq![
                Some(Edge { src: a, dst: b, port: 0 }),
                Some(Edge { src: inputs[1], dst: b, port: 1 }),
                Some(Edge { src: inputs[0], dst: c, port: 0 }),
                Some(Edge { src: b, dst: c, port: 1 }),
                Some(Edge { src: c, dst: outputs[0], port: 0 }),
            ],
            rate: m.rate,
        }
    }

    fn get_ident(&self) -> (r: Vec<char>) {
        chars_of("Subtract")
    }

    fn get_input_labels(&self) -> (r: Vec<Vec<char>>) {
        let mut v: Vec<Vec<char>> = Vec::new();
        v.push(chars_of("LHS"));
        v.push(chars_of("RHS"));
        v
    }

    fn get_output_labels(&self) -> (r: Vec<Vec<char>>) {
        let mut v: Vec<Vec<char>> = Vec::new();
        v.push(chars_of("Difference"));
        v
    }

    fn construct(&self, inputs: &Vec<usize>, outputs: &Vec<usize>, cg: &mut ControlGraph) {
        let ghost pre = *cg;
        let ghost pm = pre.model();
        let ghost plen = pm.slots.len() as int;
        proof {
            pre.lemma_wf_model();
        }
        let b = match cg.connect_const_new(NEG_ONE_BITS, Node::Mul(crate::node::Mul)) {
            Ok(b) => b,
            Err(_) => vstd::pervasive::unreached(),
        };
        let ghost a = (b - 1) as usize;
        let ghost s1 = *cg;
        proof {
            let m1 = s1.model();
            assert(inputs@[1] != 0 && pm.live(inputs@[1] as int));
            assert(m1.live(inputs@[1] as int));
            assert(m1.live(b as int) && b != 0);
            assert(m1.kind(b as int) is Mul);
            assert(!m1.has_producer(b as int, 1)) by {
                if m1.has_producer(b as int, 1) {
                    let e = choose|e: int|
                        #[trigger] m1.edge_live(e) && m1.edge(e).dst as int == b as int && m1.edge(
                            e,
                        ).port as int == 1;
                    if e < pm.edges.len() {
                        assert(pm.edge_live(e));
                        assert(pm.live(pm.edge(e).dst as int));
                    }
                }
            }
            assert(!m1.reaches(b as int, inputs@[1] as int)) by {
                assert forall|e: int| #[trigger] m1.edge_live(e) implies m1.edge(e).src as int != (
                b as int) by {
                    if e < pm.edges.len() {
                        assert(pm.edge_live(e));
                        assert(pm.live(pm.edge(e).src as int));
                    }
                }
                crate::model::lemma_no_outgoing_unreaches(m1, b as int, inputs@[1] as int);
            }
        }
        match cg.connect(inputs[1], b, 1) {
            Ok(_) => (),
            Err(_) => vstd::pervasive::unreached(),
        };
        let ghost s2 = *cg;
        let mut srcs: Vec<usize> = Vec::new();
        srcs.push(inputs[0]);
        srcs.push(b);
        proof {
            assert(srcs@ =~= seq![inputs@[0], b]);
            assert(s2.model().live(inputs@[0] as int) && inputs@[0] != 0);
            assert(s2.model().live(b as int));
        }
        let c = match cg.connect_many_new(srcs.as_slice(), Node::Add(crate::node::Add)) {
            Ok(c) => c,
            Err(_) => vstd::pervasive::unreached(),
        };
        let ghost s3 = *cg;
        proof {
            let m3 = s3.model();
            assert(m3.live(c as int) && c != 0);
            assert(outputs@[0] != 0 && pm.live(outputs@[0] as int));
            assert(m3.live(outputs@[0] as int));
            assert(m3.kind(outputs@[0] as int) is ContainerOutput);
            assert(s3.port_in_range(outputs@[0] as int, 0));
            assert(!m3.has_producer(outputs@[0] as int, 0)) by {
                if m3.has_producer(outputs@[0] as int, 0) {
                    let e = choose|e: int|
                        #[trigger] m3.edge_live(e) && m3.edge(e).dst as int == outputs@[0] as int
                            && m3.edge(e).port as int == 0;
                    if e < pm.edges.len() {
                        assert(pm.edge_live(e));
                        assert(untouched(pm, outputs@[0]));
                    } else {
                        assert(m3.edge(e).dst as int == b as int || m3.edge(e).dst as int == (
                        c as int));
                    }
                }
            }
            assert(!m3.reaches(outputs@[0] as int, c as int)) by {
                assert forall|e: int| #[trigger] m3.edge_live(e) implies m3.edge(e).src as int != (
                outputs@[0] as int) by {
                    if e < pm.edges.len() {
                        assert(pm.edge_live(e));
                        assert(untouched(pm, outputs@[0]));
                    } else {
                        assert(m3.edge(e).src as int == a as int || m3.edge(e).src as int == (
                        inputs@[1] as int) || m3.edge(e).src as int == (inputs@[0] as int)
                            || m3.edge(e).src as int == (b as int));
                    }
                }
                crate::model::lemma_no_outgoing_unreaches(m3, outputs@[0] as int, c as int);
            }
        }
        match cg.connect_ex_ex(c, outputs[0]) {
            Ok(_) => (),
            Err(_) => vstd::pervasive::unreached(),
        };
        proof {
            assert(cg.model().slots =~= pm.slots + seq![
                Some(
                    Node::Const(
                        crate::node::Const(Sample { l: NEG_ONE_BITS, r: NEG_ONE_BITS }),
                    ),
                ),
                Some(Node::Mul(crate::node::Mul)),
                Some(Node::Add(crate::node::Add)),
            ]);
            assert(cg.model().edges =~= pm.edges + seq![
                Some(Edge { src: a, dst: b, port: 0 }),
                Some(Edge { src: inputs@[1], dst: b, port: 1 }),
                Some(Edge { src: inputs@[0], dst: c, port: 0 }),
                Some(Edge { src: b, dst: c, port: 1 }),
                Some(Edge { src: c, dst: outputs@[0], port: 0 }),
            ]);
            assert(cg.model() =~= self.construct_spec(pm, inputs@, outputs@));
            assert forall|j: int| 0 <= j < pre.containers_members().len() implies #[trigger] cg
                .containers_members()[j] == if (exists|q: int|
                0 <= q < pre.containers_stack().len() && (#[trigger] pre.containers_stack()[q]
                    as int) == j) {
                pre.containers_members()[j] + crate::control::id_range(plen, plen + 3)
            } else {
                pre.containers_members()[j]
            } by {
                if exists|q: int|
                    0 <= q < pre.containers_stack().len() && (#[trigger] pre.containers_stack()[q]
                        as int) == j {
                    assert(s1.containers_members()[j] == pre.containers_members()[j].push(a).push(
                        b,
                    ));
                    assert(s3.containers_members()[j] == s2.containers_members()[j].push(c));
                    assert(cg.containers_members()[j] =~= pre.containers_members()[j]
                        + crate::control::id_range(plen, plen + 3));
                }
            }
            assert(cg.scopes_extended(&pre, plen, cg.model().slots.len() as int));
        }
    }
}

/// Division of the first input by the second, expanded as
/// reciprocal-and-multiply: the right operand inverted, multiplied by the
/// left.
pub struct Div;

impl Container for Div {
    open spec fn ident_spec(&self) -> Seq<char> {
        "Divide"@
    }

    open spec fn input_labels_spec(&self) -> Seq<Seq<char>> {
        seq!["Dividend"@, "Divisor"@]
    }

    open spec fn output_labels_spec(&self) -> Seq<Seq<char>> {
        seq!["Quotient"@]
    }

    open spec fn construct_spec(&self, m: GraphModel, inputs: Seq<usize>, outputs: Seq<usize>)
        -> GraphModel {
        let d = m.slots.len() as usize;
        let e = (m.slots.len() + 1) as usize;
        GraphModel {
            slots: m.slots + seq![
                Some(Node::Inv(crate::node::Inv)),
                Some(Node::Mul(crate::node::Mul)),
            ],
            edges: m.edges + seq![
                Some(Edge { src: inputs[1], dst: d, port: 0 }),
                Some(Edge { src: inputs[0], dst: e, port: 0 }),
                Some(Edge { src: d, dst: e, port: 1 }),
                Some(Edge { src: e, dst: outputs[0], port: 0 }),
            ],
            rate: m.rate,
        }
    }

    fn get_ident(&self) -> (r: Vec<char>) {
        chars_of("Divide")
    }

    fn get_input_labels(&self) -> (r: Vec<Vec<char>>) {
        let mut v: Vec<Vec<char>> = Vec::new();
        v.push(chars_of("Dividend"));
        v.push(chars_of("Divisor"));
        v
    }

    fn get_output_labels(&self) -> (r: Vec<Vec<char>>) {
        let mut v: Vec<Vec<char>> = Vec::new();
        v.push(chars_of("Quotient"));
        v
    }

    fn construct(&self, inputs: &Vec<usize>, outputs: &Vec<usize>, cg: &mut ControlGraph) {
        let ghost pre = *cg;
        let ghost pm = pre.model();
        let ghost plen = pm.slots.len() as int;
        proof {
            pre.lemma_wf_model();
            assert(pm.live(inputs@[1] as int) && inputs@[1] != 0);
        }
        let d = match cg.connect_ex_new(inputs[1], Node::Inv(crate::node::Inv)) {
            Ok(d) => d,
            Err(_) => vstd::pervasive::unreached(),
        };
        let ghost s1 = *cg;
        let mut srcs: Vec<usize> = Vec::new();
        srcs.push(inputs[0]);
        srcs.push(d);
        proof {
            assert(srcs@ =~= seq![inputs@[0], d]);
            assert(s1.model().live(inputs@[0] as int) && inputs@[0] != 0);
            assert(s1.model().live(d as int) && d != 0);
        }
        let e = match cg.connect_many_new(srcs.as_slice(), Node::Mul(crate::node::Mul)) {
            Ok(e) => e,
            Err(_) => vstd::pervasive::unreached(),
        };
        let ghost s2 = *cg;
        proof {
            let m2 = s2.model();
            assert(m2.live(e as int) && e != 0);
            assert(outputs@[0] != 0 && pm.live(outputs@[0] as int));
            assert(m2.live(outputs@[0] as int));
            assert(m2.kind(outputs@[0] as int) is ContainerOutput);
            assert(s2.port_in_range(outputs@[0] as int, 0));
            assert(!m2.has_producer(outputs@[0] as int, 0)) by {
                if m2.has_producer(outputs@[0] as int, 0) {
                    let e2 = choose|e2: int|
                        #[trigger] m2.edge_live(e2) && m2.edge(e2).dst as int == outputs@[0] as int
                            && m2.edge(e2).port as int == 0;
                    if e2 < pm.edges.len() {
                        assert(pm.edge_live(e2));
                        assert(untouched(pm, outputs@[0]));
                    } else {
                        assert(m2.edge(e2).dst as int == d as int || m2.edge(e2).dst as int == (
                        e as int));
                    }
                }
            }
            assert(!m2.reaches(outputs@[0] as int, e as int)) by {
                assert forall|e2: int| #[trigger] m2.edge_live(e2) implies m2.edge(e2).src as int
                    != (outputs@[0] as int) by {
                    if e2 < pm.edges.len() {
                        assert(pm.edge_live(e2));
                        assert(untouched(pm, outputs@[0]));
                    } else {
                        assert(m2.edge(e2).src as int == (inputs@[1] as int) || m2.edge(
                            e2,
                        ).src as int == (inputs@[0] as int) || m2.edge(e2).src as int == (
                        d as int));
                    }
                }
                crate::model::lemma_no_outgoing_unreaches(m2, outputs@[0] as int, e as int);
            }
        }
        match cg.connect_ex_ex(e, outputs[0]) {
            Ok(_) => (),
            Err(_) => vstd::pervasive::unreached(),
        };
        proof {
            assert(cg.model().slots =~= pm.slots + seq![
                Some(Node::Inv(crate::node::Inv)),
                Some(Node::Mul(crate::node::Mul)),
            ]);
            assert(cg.model().edges =~= pm.edges + seq![
                Some(Edge { src: inputs@[1], dst: d, port: 0 }),
                Some(Edge { src: inputs@[0], dst: e, port: 0 }),
                Some(Edge { src: d, dst: e, port: 1 }),
                Some(Edge { src: e, dst: outputs@[0], port: 0 }),
            ]);
            assert(cg.model() =~= self.construct_spec(pm, inputs@, outputs@));
            assert forall|j: int| 0 <= j < pre.containers_members().len() implies #[trigger] cg
                .containers_members()[j] == if (exists|q: int|
                0 <= q < pre.containers_stack().len() && (#[trigger] pre.containers_stack()[q]
                    as int) == j) {
                pre.containers_members()[j] + crate::control::id_range(plen, plen + 2)
            } else {
                pre.containers_members()[j]
            } by {
                if exists|q: int|
                    0 <= q < pre.containers_stack().len() && (#[trigger] pre.containers_stack()[q]
                        as int) == j {
                    assert(s1.containers_members()[j] == pre.containers_members()[j].push(d));
                    assert(s2.containers_members()[j] == s1.containers_members()[j].push(e));
                    assert(cg.containers_members()[j] =~= pre.containers_members()[j]
                        + crate::control::id_range(plen, plen + 2));
                }
            }
            assert(cg.scopes_extended(&pre, plen, cg.model().slots.len() as int));
        }
    }
}

} // verus!
