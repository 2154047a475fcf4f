//! The mathematical model of a control graph.
//!
//! A `GraphModel` is what the contracts of the engine speak about: the slot
//! sequence of operators (holes where nodes were removed), the slot sequence
//! of edges, and the sample rate. Everything transient — the phase counter,
//! per-node generations and cached values, the evaluation-order log — is
//! deliberately absent, so that two graphs with equal models are
//! interchangeable for evaluation.
//!
//! On top of the model this module defines directed paths, reachability,
//! acyclicity and ancestor sets, the well-formedness predicate every graph
//! maintains, and the denotational value `node_value` of a node at a phase:
//! what one evaluation pass must compute.

use vstd::prelude::*;

use crate::fp::NAN_BITS;
use crate::node::Node;
use crate::sample::Sample;

verus! {

use vstd::set_lib::lemma_len_subset;

/// A directed connection from a producer to a consumer's input port.
#[derive(Clone, Copy, PartialEq, Eq, Structural, Debug)]
pub struct Edge {
    pub src: usize,
    pub dst: usize,
    pub port: usize,
}

/// The persistent structure of a control graph: operator slots, edge slots,
/// and the sample rate.
#[verifier::ext_equal]
pub struct GraphModel {
    pub slots: Seq<Option<Node>>,
    pub edges: Seq<Option<Edge>>,
    pub rate: u32,
}

impl GraphModel {
    /// Slot `a` holds a live node.
    pub open spec fn live(&self, a: int) -> bool {
        0 <= a < self.slots.len() && self.slots[a] is Some
    }

    /// The operator in live slot `a`.
    pub open spec fn kind(&self, a: int) -> Node {
        self.slots[a]->0
    }

    /// Slot `e` holds a live edge.
    pub open spec fn edge_live(&self, e: int) -> bool {
        0 <= e < self.edges.len() && self.edges[e] is Some
    }

    /// The edge in live slot `e`.
    pub open spec fn edge(&self, e: int) -> Edge {
        self.edges[e]->0
    }

    /// Some live edge leads from `a` to `b`.
    pub open spec fn step(&self, a: int, b: int) -> bool {
        exists|e: int|
            self.edge_live(e) && self.edge(e).src as int == a && self.edge(e).dst as int == b
    }

    /// `p` is a directed walk along live edges; a single node is a trivial
    /// walk.
    pub open spec fn is_path(&self, p: Seq<int>) -> bool {
        p.len() >= 1 && (forall|i: int|
            0 <= i < p.len() - 1 ==> #[trigger] self.step(p[i], p[i + 1]))
    }

    /// `b` can be reached from `a`, in zero or more steps.
    pub open spec fn reaches(&self, a: int, b: int) -> bool {
        exists|p: Seq<int>| #[trigger] self.is_path(p) && p.first() == a && p.last() == b
    }

    /// `b` can be reached from `a` in at least one step.
    pub open spec fn reaches_plus(&self, a: int, b: int) -> bool {
        exists|p: Seq<int>|
            #[trigger] self.is_path(p) && p.len() >= 2 && p.first() == a && p.last() == b
    }

    /// No node lies on a directed cycle.
    pub open spec fn acyclic(&self) -> bool {
        forall|a: int| !#[trigger] self.reaches_plus(a, a)
    }

    /// The nodes from which `b` can be reached in at least one step.
    pub open spec fn ancestors(&self, b: int) -> Set<int> {
        Set::new(|a: int| self.reaches_plus(a, b))
    }

    /// A live edge feeds input port `i` of node `n`.
    pub open spec fn has_producer(&self, n: int, i: int) -> bool {
        exists|e: int|
            #[trigger] self.edge_live(e) && self.edge(e).dst as int == n && self.edge(
                e,
            ).port as int == i
    }

    /// The slot of the live edge feeding input port `i` of node `n`; under
    /// `wf` there is at most one.
    pub open spec fn producer_edge(&self, n: int, i: int) -> int {
        choose|e: int|
            #[trigger] self.edge_live(e) && self.edge(e).dst as int == n && self.edge(
                e,
            ).port as int == i
    }

    /// The producer node feeding input port `i` of node `n`.
    pub open spec fn producer(&self, n: int, i: int) -> int {
        self.edge(self.producer_edge(n, i)).src as int
    }

    /// Every live edge joins live nodes and addresses a real input port of
    /// its consumer (the sink's single port for the sink). The sink is
    /// never a source: its slot doubles as the unwired-port marker.
    pub open spec fn edges_wired(&self) -> bool {
        forall|e: int| #[trigger]
            self.edge_live(e) ==> {
                &&& self.live(self.edge(e).src as int)
                &&& self.edge(e).src != 0
                &&& self.live(self.edge(e).dst as int)
                &&& (self.edge(e).dst as int == 0 ==> self.edge(e).port as int == 0)
                &&& (self.edge(e).dst as int != 0 ==> (self.edge(e).port as int) < self.kind(
                    self.edge(e).dst as int,
                ).arity_spec())
            }
    }

    /// No two live edges feed the same port of the same consumer.
    pub open spec fn ports_unique(&self) -> bool {
        forall|e1: int, e2: int|
            #![trigger self.edge_live(e1), self.edge_live(e2)]
            self.edge_live(e1) && self.edge_live(e2) && self.edge(e1).dst == self.edge(e2).dst
                && self.edge(e1).port == self.edge(e2).port ==> e1 == e2
    }

    /// Every live edge joins live nodes, addresses a real input port of its
    /// consumer, and no two live edges feed the same port of the same
    /// consumer.
    pub open spec fn edges_ok(&self) -> bool {
        self.edges_wired() && self.ports_unique()
    }

    /// A well-formed model: the sink placeholder sits in slot zero, edges
    /// are consistent, and the graph is acyclic.
    pub open spec fn wf(&self) -> bool {
        &&& self.slots.len() >= 1
        &&& self.live(0)
        &&& self.kind(0) is Empty
        &&& self.edges_ok()
        &&& self.acyclic()
    }

    /// The value input port `i` of node `n` resolves to at `phase`: its
    /// producer's value, or the uninitialized NaN sample where no edge
    /// feeds the port.
    pub open spec fn input_value(&self, phase: u64, n: int, i: int) -> Sample
        decreases self.ancestors(n).len(), 0int,
        when self.wf() && self.live(n)
    {
        if self.has_producer(n, i) {
            proof {
                lemma_producer_edge_props(*self, n, i);
                lemma_step_ancestors_lt(*self, self.producer(n, i), n);
            }
            self.node_value(phase, self.producer(n, i))
        } else {
            Sample { l: NAN_BITS, r: NAN_BITS }
        }
    }

    /// The value node `n` evaluates to at `phase`: its operator applied to
    /// its resolved input values, the phase, and the sample rate.
    pub open spec fn node_value(&self, phase: u64, n: int) -> Sample
        decreases self.ancestors(n).len(), 1int,
        when self.wf() && self.live(n)
    {
        self.kind(n).process_spec(
            Seq::new(self.kind(n).arity_spec(), |i: int| self.input_value(phase, n, i)),
            phase,
            self.rate,
        )
    }

    /// The graph's output at `phase`: the value of the sink's sole
    /// producer, or the zero sample while nothing is wired to the sink.
    pub open spec fn sink_value(&self, phase: u64) -> Sample {
        if self.has_producer(0, 0) {
            self.node_value(phase, self.producer(0, 0))
        } else {
            Sample { l: 0u64, r: 0u64 }
        }
    }
}

/// The producer edge of a fed port is live, feeds that port, and leads from
/// a live node.
pub proof fn lemma_producer_edge_props(m: GraphModel, n: int, i: int)
    requires
        m.edges_ok(),
        m.has_producer(n, i),
    ensures
        m.edge_live(m.producer_edge(n, i)),
        m.edge(m.producer_edge(n, i)).dst as int == n,
        m.edge(m.producer_edge(n, i)).port as int == i,
        m.live(m.producer(n, i)),
        m.step(m.producer(n, i), n),
{
    let e = m.producer_edge(n, i);
    assert(m.edge_live(e) && m.edge(e).dst as int == n && m.edge(e).port as int == i);
    assert(m.step(m.producer(n, i), n));
}

/// Under `edges_ok` a live edge is the one producer edge of the port it
/// feeds.
pub proof fn lemma_producer_unique(m: GraphModel, e: int)
    requires
        m.ports_unique(),
        m.edge_live(e),
    ensures
        m.has_producer(m.edge(e).dst as int, m.edge(e).port as int),
        m.producer_edge(m.edge(e).dst as int, m.edge(e).port as int) == e,
        m.producer(m.edge(e).dst as int, m.edge(e).port as int) == m.edge(e).src as int,
{
    let n = m.edge(e).dst as int;
    let i = m.edge(e).port as int;
    assert(m.has_producer(n, i));
    let e2 = m.producer_edge(n, i);
    assert(m.edge_live(e2) && m.edge(e2).dst as int == n && m.edge(e2).port as int == i);
    assert(e2 == e);
}

/// Each adjacent pair of a path is a step.
pub proof fn lemma_path_step(m: GraphModel, p: Seq<int>, i: int)
    requires
        m.is_path(p),
        0 <= i < p.len() - 1,
    ensures
        m.step(p[i], p[i + 1]),
{
    assert(m.step(p[i], p[i + 1]));
}

/// Reachability runs along paths: gluing a path to `b` and a path from `b`
/// reaches across.
pub proof fn lemma_path_glue(m: GraphModel, p1: Seq<int>, p2: Seq<int>)
    requires
        m.is_path(p1),
        m.is_path(p2),
        p1.last() == p2.first(),
    ensures
        m.is_path(p1 + p2.drop_first()),
        (p1 + p2.drop_first()).first() == p1.first(),
        (p1 + p2.drop_first()).last() == p2.last(),
        (p1 + p2.drop_first()).len() == p1.len() + p2.len() - 1,
{
    let q = p1 + p2.drop_first();
    assert(q.len() == p1.len() + p2.len() - 1);
    assert forall|i: int| 0 <= i < q.len() - 1 implies #[trigger] m.step(q[i], q[i + 1]) by {
        if i < p1.len() - 1 {
            assert(m.step(p1[i], p1[i + 1]));
            assert(q[i] == p1[i] && q[i + 1] == p1[i + 1]);
        } else if i == p1.len() - 1 {
            assert(q[i] == p1.last());
            assert(q[i + 1] == p2[1]);
            assert(m.step(p2[0], p2[1]));
        } else {
            let j = i - p1.len();
            assert(q[i] == p2[j + 1] && q[i + 1] == p2[j + 2]);
            assert(m.step(p2[j + 1], p2[j + 2]));
        }
    }
    if p2.len() == 1 {
        assert(q =~= p1);
    } else {
        assert(q.last() == p2.last());
    }
    assert(q.first() == p1.first());
}

/// Reachability is transitive; one strict leg keeps the whole strict.
pub proof fn lemma_reaches_trans(m: GraphModel, a: int, b: int, c: int)
    requires
        m.reaches(a, b),
        m.reaches(b, c),
    ensures
        m.reaches(a, c),
        m.reaches_plus(a, b) || m.reaches_plus(b, c) ==> m.reaches_plus(a, c),
{
    let p1 = choose|p: Seq<int>| #[trigger] m.is_path(p) && p.first() == a && p.last() == b;
    let p2 = choose|p: Seq<int>| #[trigger] m.is_path(p) && p.first() == b && p.last() == c;
    lemma_path_glue(m, p1, p2);
    let q = p1 + p2.drop_first();
    assert(m.is_path(q) && q.first() == a && q.last() == c);
    if m.reaches_plus(a, b) {
        let s1 = choose|p: Seq<int>|
            #[trigger] m.is_path(p) && p.len() >= 2 && p.first() == a && p.last() == b;
        lemma_path_glue(m, s1, p2);
        let q1 = s1 + p2.drop_first();
        assert(m.is_path(q1) && q1.len() >= 2 && q1.first() == a && q1.last() == c);
    }
    if m.reaches_plus(b, c) {
        let s2 = choose|p: Seq<int>|
            #[trigger] m.is_path(p) && p.len() >= 2 && p.first() == b && p.last() == c;
        lemma_path_glue(m, p1, s2);
        let q2 = p1 + s2.drop_first();
        assert(m.is_path(q2) && q2.len() >= 2 && q2.first() == a && q2.last() == c);
    }
}

/// Strict reachability is reachability.
pub proof fn lemma_plus_reaches(m: GraphModel, a: int, b: int)
    requires
        m.reaches_plus(a, b),
    ensures
        m.reaches(a, b),
{
    let p = choose|p: Seq<int>|
        #[trigger] m.is_path(p) && p.len() >= 2 && p.first() == a && p.last() == b;
    assert(m.is_path(p) && p.first() == a && p.last() == b);
}

/// A single step reaches, strictly.
pub proof fn lemma_step_reaches_plus(m: GraphModel, a: int, b: int)
    requires
        m.step(a, b),
    ensures
        m.reaches_plus(a, b),
        m.reaches(a, b),
{
    let p = seq![a, b];
    assert(m.is_path(p)) by {
        assert(forall|i: int| 0 <= i < 1 ==> #[trigger] m.step(p[i], p[i + 1]));
    }
    assert(m.is_path(p) && p.len() >= 2 && p.first() == a && p.last() == b);
}

/// A node reaches itself trivially.
pub proof fn lemma_reaches_refl(m: GraphModel, a: int)
    ensures
        m.reaches(a, a),
{
    let p = seq![a];
    assert(m.is_path(p) && p.first() == a && p.last() == a);
}

/// Every strict ancestor is a live node: it has an outgoing live edge.
pub proof fn lemma_ancestor_live(m: GraphModel, a: int, b: int)
    requires
        m.edges_ok(),
        m.reaches_plus(a, b),
    ensures
        m.live(a),
        0 <= a < m.slots.len(),
{
    let p = choose|p: Seq<int>|
        #[trigger] m.is_path(p) && p.len() >= 2 && p.first() == a && p.last() == b;
    lemma_path_step(m, p, 0);
    assert(m.step(p[0], p[1]));
    let e = choose|e: int|
        #[trigger] m.edge_live(e) && m.edge(e).src as int == p[0] && m.edge(e).dst as int == p[1];
    assert(m.live(a));
}

/// Ancestor sets are finite, bounded by the slot count.
pub proof fn lemma_ancestors_finite(m: GraphModel, b: int)
    requires
        m.edges_ok(),
    ensures
        m.ancestors(b).finite(),
        m.ancestors(b).len() <= m.slots.len(),
{
    let range = vstd::set_lib::set_int_range(0, m.slots.len() as int);
    vstd::set_lib::lemma_int_range(0, m.slots.len() as int);
    assert forall|a: int| m.ancestors(b).contains(a) implies range.contains(a) by {
        lemma_ancestor_live(m, a, b);
    }
    lemma_len_subset(m.ancestors(b), range);
}

/// Along a live edge the ancestor set grows strictly: the producer's
/// ancestors all reach the consumer, the producer itself is one more, and
/// acyclicity keeps it out of its own set.
pub proof fn lemma_step_ancestors_lt(m: GraphModel, a: int, b: int)
    requires
        m.edges_ok(),
        m.acyclic(),
        m.step(a, b),
    ensures
        m.ancestors(a).len() < m.ancestors(b).len(),
{
    lemma_step_reaches_plus(m, a, b);
    assert forall|x: int| m.ancestors(a).contains(x) implies m.ancestors(b).contains(x) by {
        lemma_reaches_trans(m, x, a, b);
    }
    assert(!m.ancestors(a).contains(a));
    assert(m.ancestors(b).contains(a));
    lemma_ancestors_finite(m, a);
    lemma_ancestors_finite(m, b);
    let grown = m.ancestors(a).insert(a);
    assert(grown.subset_of(m.ancestors(b)));
    lemma_len_subset(grown, m.ancestors(b));
    assert(grown.len() == m.ancestors(a).len() + 1);
}

/// A model whose live edges all exist in a second model with the same
/// shape of steps: every step of the first is a step of the second.
pub open spec fn steps_subset(m1: GraphModel, m2: GraphModel) -> bool {
    forall|a: int, b: int| #[trigger] m1.step(a, b) ==> m2.step(a, b)
}

/// Paths survive into any model with at least the same steps; so does
/// reachability, and acyclicity survives backwards.
pub proof fn lemma_steps_subset_reaches(m1: GraphModel, m2: GraphModel, a: int, b: int)
    requires
        steps_subset(m1, m2),
    ensures
        m1.reaches(a, b) ==> m2.reaches(a, b),
        m1.reaches_plus(a, b) ==> m2.reaches_plus(a, b),
{
    if m1.reaches(a, b) {
        let p = choose|p: Seq<int>| #[trigger] m1.is_path(p) && p.first() == a && p.last() == b;
        assert forall|i: int| 0 <= i < p.len() - 1 implies #[trigger] m2.step(p[i], p[i + 1]) by {
            lemma_path_step(m1, p, i);
        }
        assert(m2.is_path(p));
    }
    if m1.reaches_plus(a, b) {
        let p = choose|p: Seq<int>|
            #[trigger] m1.is_path(p) && p.len() >= 2 && p.first() == a && p.last() == b;
        assert forall|i: int| 0 <= i < p.len() - 1 implies #[trigger] m2.step(p[i], p[i + 1]) by {
            lemma_path_step(m1, p, i);
        }
        assert(m2.is_path(p));
    }
}

/// Removing edges or nodes cannot create a cycle.
pub proof fn lemma_steps_subset_acyclic(m1: GraphModel, m2: GraphModel)
    requires
        steps_subset(m1, m2),
        m2.acyclic(),
    ensures
        m1.acyclic(),
{
    assert forall|a: int| !#[trigger] m1.reaches_plus(a, a) by {
        lemma_steps_subset_reaches(m1, m2, a, a);
    }
}

/// Decomposes any path of a model extended by the single step
/// `src -> dst`: either the path already ran in the base model, or it
/// passes through the new step, reaching `src` first and leaving `dst`
/// later, entirely in the base model.
pub proof fn lemma_new_step_path_decompose(
    m1: GraphModel,
    m2: GraphModel,
    src: int,
    dst: int,
    p: Seq<int>,
)
    requires
        forall|a: int, b: int| #[trigger]
            m2.step(a, b) ==> m1.step(a, b) || (a == src && b == dst),
        !m1.reaches(dst, src),
        m2.is_path(p),
        p.len() >= 2,
    ensures
        m1.reaches_plus(p.first(), p.last()) || (m1.reaches(p.first(), src) && m1.reaches(
            dst,
            p.last(),
        )),
    decreases p.len(),
{
    if p.len() == 2 {
        lemma_path_step(m2, p, 0);
        assert(m2.step(p[0], p[1]));
        if m1.step(p[0], p[1]) {
            lemma_step_reaches_plus(m1, p[0], p[1]);
        } else {
            lemma_reaches_refl(m1, src);
            lemma_reaches_refl(m1, dst);
        }
    } else {
        let q = p.drop_last();
        assert(m2.is_path(q)) by {
            assert forall|i: int| 0 <= i < q.len() - 1 implies #[trigger] m2.step(q[i], q[i + 1]) by {
                assert(m2.step(p[i], p[i + 1]));
                assert(q[i] == p[i] && q[i + 1] == p[i + 1]);
            }
        }
        lemma_new_step_path_decompose(m1, m2, src, dst, q);
        let x = q.last();
        let y = p.last();
        lemma_path_step(m2, p, p.len() - 2);
        assert(x == p[p.len() - 2]);
        assert(m2.step(x, y));
        if m1.step(x, y) {
            lemma_step_reaches_plus(m1, x, y);
            if m1.reaches_plus(q.first(), x) {
                lemma_reaches_trans(m1, q.first(), x, y);
            } else {
                lemma_reaches_trans(m1, dst, x, y);
            }
        } else {
            // the last step is the new edge: x == src, y == dst
            if m1.reaches_plus(q.first(), x) {
                lemma_reaches_refl(m1, dst);
            } else {
                // q reaches src after leaving dst: dst would reach src
                assert(m1.reaches(dst, x));
                assert(false);
            }
        }
    }
}

/// Two models over the same edge slots agree on steps, on which ports are
/// fed, and on each port's producer.
pub proof fn lemma_same_edges_wiring(m1: GraphModel, m2: GraphModel)
    requires
        m1.edges == m2.edges,
        m1.ports_unique(),
    ensures
        m2.ports_unique(),
        forall|a: int, b: int|
            #![trigger m1.step(a, b)]
            #![trigger m2.step(a, b)]
            m1.step(a, b) == m2.step(a, b),
        forall|n: int, i: int|
            #![trigger m1.has_producer(n, i)]
            #![trigger m2.has_producer(n, i)]
            m1.has_producer(n, i) == m2.has_producer(n, i),
        forall|n: int, i: int|
            #![trigger m1.producer(n, i)]
            #![trigger m2.producer(n, i)]
            m1.has_producer(n, i) ==> m1.producer_edge(n, i) == m2.producer_edge(n, i)
                && m1.producer(n, i) == m2.producer(n, i),
{
    assert(forall|e: int| #[trigger] m1.edge_live(e) == m2.edge_live(e));
    assert(forall|e: int| m1.edge_live(e) ==> #[trigger] m1.edge(e) == m2.edge(e));
    assert forall|e1: int, e2: int|
        #![trigger m2.edge_live(e1), m2.edge_live(e2)]
        m2.edge_live(e1) && m2.edge_live(e2) && m2.edge(e1).dst == m2.edge(e2).dst && m2.edge(
            e1,
        ).port == m2.edge(e2).port implies e1 == e2 by {
        assert(m1.edge_live(e1) && m1.edge_live(e2));
    }
    assert forall|a: int, b: int|
        #![trigger m1.step(a, b)]
        #![trigger m2.step(a, b)]
        m1.step(a, b) == m2.step(a, b) by {
        if m1.step(a, b) {
            let e = choose|e: int|
                m1.edge_live(e) && m1.edge(e).src as int == a && m1.edge(e).dst as int == b;
            assert(m2.edge_live(e) && m2.edge(e).src as int == a && m2.edge(e).dst as int == b);
        }
        if m2.step(a, b) {
            let e = choose|e: int|
                m2.edge_live(e) && m2.edge(e).src as int == a && m2.edge(e).dst as int == b;
            assert(m1.edge_live(e) && m1.edge(e).src as int == a && m1.edge(e).dst as int == b);
        }
    }
    assert forall|n: int, i: int|
        #![trigger m1.has_producer(n, i)]
        #![trigger m2.has_producer(n, i)]
        m1.has_producer(n, i) == m2.has_producer(n, i) by {
        if m1.has_producer(n, i) {
            let e = choose|e: int|
                #[trigger] m1.edge_live(e) && m1.edge(e).dst as int == n && m1.edge(e).port as int
                    == i;
            assert(m2.edge_live(e) && m2.edge(e).dst as int == n && m2.edge(e).port as int == i);
        }
        if m2.has_producer(n, i) {
            let e = choose|e: int|
                #[trigger] m2.edge_live(e) && m2.edge(e).dst as int == n && m2.edge(e).port as int
                    == i;
            assert(m1.edge_live(e) && m1.edge(e).dst as int == n && m1.edge(e).port as int == i);
        }
    }
    assert forall|n: int, i: int|
        #![trigger m1.producer(n, i)]
        #![trigger m2.producer(n, i)]
        m1.has_producer(n, i) implies m1.producer_edge(n, i) == m2.producer_edge(n, i)
        && m1.producer(n, i) == m2.producer(n, i) by {
        let e1 = m1.producer_edge(n, i);
        assert(m1.edge_live(e1) && m1.edge(e1).dst as int == n && m1.edge(e1).port as int == i);
        let e2 = m2.producer_edge(n, i);
        assert(m2.has_producer(n, i));
        assert(m2.edge_live(e2) && m2.edge(e2).dst as int == n && m2.edge(e2).port as int == i);
        assert(m1.edge_live(e2));
        assert(e1 == e2);
    }
}

/// Blanking one edge slot: what stays fed keeps its producer, and the
/// blanked edge's port is no longer fed.
pub proof fn lemma_removed_edge_wiring(m1: GraphModel, m2: GraphModel, e: int)
    requires
        0 <= e < m1.edges.len(),
        m2.edges == m1.edges.update(e, None),
        m1.ports_unique(),
    ensures
        m2.ports_unique(),
        forall|a: int, b: int| #[trigger] m2.step(a, b) ==> m1.step(a, b),
        forall|n: int, i: int| #[trigger]
            m2.has_producer(n, i) ==> m1.has_producer(n, i) && m2.producer_edge(n, i)
                == m1.producer_edge(n, i) && m2.producer(n, i) == m1.producer(n, i),
        forall|n: int, i: int| #[trigger]
            m1.has_producer(n, i) && m1.producer_edge(n, i) != e ==> m2.has_producer(n, i),
        m1.edge_live(e) ==> !m2.has_producer(m1.edge(e).dst as int, m1.edge(e).port as int),
{
    assert(forall|e2: int| e2 != e ==> #[trigger] m2.edge_live(e2) == m1.edge_live(e2));
    assert(forall|e2: int| e2 != e && m1.edge_live(e2) ==> #[trigger] m2.edge(e2) == m1.edge(e2));
    assert(!m2.edge_live(e));
    assert forall|a: int, b: int| #[trigger] m2.step(a, b) implies m1.step(a, b) by {
        let e2 = choose|e2: int|
            m2.edge_live(e2) && m2.edge(e2).src as int == a && m2.edge(e2).dst as int == b;
        assert(m1.edge_live(e2) && m1.edge(e2).src as int == a && m1.edge(e2).dst as int == b);
    }
    assert forall|n: int, i: int| #[trigger]
        m2.has_producer(n, i) implies m1.has_producer(n, i) && m2.producer_edge(n, i)
        == m1.producer_edge(n, i) && m2.producer(n, i) == m1.producer(n, i) by {
        let e2 = m2.producer_edge(n, i);
        assert(m2.edge_live(e2) && m2.edge(e2).dst as int == n && m2.edge(e2).port as int == i);
        assert(m1.edge_live(e2) && m1.edge(e2).dst as int == n && m1.edge(e2).port as int == i);
        assert(m1.has_producer(n, i));
        let e1 = m1.producer_edge(n, i);
        assert(m1.edge_live(e1) && m1.edge(e1).dst as int == n && m1.edge(e1).port as int == i);
        assert(e1 == e2);
    }
    assert forall|n: int, i: int| #[trigger]
        m1.has_producer(n, i) && m1.producer_edge(n, i) != e implies m2.has_producer(n, i) by {
        let e1 = m1.producer_edge(n, i);
        assert(m1.edge_live(e1) && m1.edge(e1).dst as int == n && m1.edge(e1).port as int == i);
        assert(m2.edge_live(e1) && m2.edge(e1).dst as int == n && m2.edge(e1).port as int == i);
    }
    if m1.edge_live(e) {
        let n = m1.edge(e).dst as int;
        let i = m1.edge(e).port as int;
        if m2.has_producer(n, i) {
            let e2 = m2.producer_edge(n, i);
            assert(m2.edge_live(e2) && m2.edge(e2).dst as int == n && m2.edge(e2).port as int == i);
            assert(m1.edge_live(e2));
            assert(e2 == e);
            assert(false);
        }
    }
}

/// Appending one live edge: the new edge's port becomes fed by its source,
/// every other port keeps its producer.
pub proof fn lemma_added_edge_wiring(m1: GraphModel, m2: GraphModel, ed: Edge)
    requires
        m2.edges == m1.edges.push(Some(ed)),
        m1.ports_unique(),
        !m1.has_producer(ed.dst as int, ed.port as int),
    ensures
        m2.ports_unique(),
        m2.has_producer(ed.dst as int, ed.port as int),
        m2.producer(ed.dst as int, ed.port as int) == ed.src as int,
        forall|a: int, b: int| #[trigger]
            m2.step(a, b) ==> m1.step(a, b) || (a == ed.src as int && b == ed.dst as int),
        forall|a: int, b: int| #[trigger] m1.step(a, b) ==> m2.step(a, b),
        forall|n: int, i: int|
            #![trigger m1.has_producer(n, i)]
            #![trigger m2.has_producer(n, i)]
            !(n == ed.dst as int && i == ed.port as int) ==> m1.has_producer(n, i)
                == m2.has_producer(n, i) && (m1.has_producer(n, i) ==> m1.producer(n, i)
                == m2.producer(n, i)),
{
    let enew = m1.edges.len() as int;
    assert(m2.edge_live(enew) && m2.edge(enew) == ed);
    assert(forall|e: int| 0 <= e < enew ==> #[trigger] m2.edge_live(e) == m1.edge_live(e));
    assert(forall|e: int| 0 <= e < enew && m1.edge_live(e) ==> #[trigger] m2.edge(e) == m1.edge(e));
    assert forall|e1: int, e2: int|
        #![trigger m2.edge_live(e1), m2.edge_live(e2)]
        m2.edge_live(e1) && m2.edge_live(e2) && m2.edge(e1).dst == m2.edge(e2).dst && m2.edge(
            e1,
        ).port == m2.edge(e2).port implies e1 == e2 by {
        if e1 != e2 {
            if e1 == enew {
                assert(m1.edge_live(e2));
                assert(m1.has_producer(ed.dst as int, ed.port as int));
            } else if e2 == enew {
                assert(m1.edge_live(e1));
                assert(m1.has_producer(ed.dst as int, ed.port as int));
            } else {
                assert(m1.edge_live(e1) && m1.edge_live(e2));
            }
        }
    }
    assert(m2.has_producer(ed.dst as int, ed.port as int));
    lemma_producer_unique(m2, enew);
    assert forall|a: int, b: int| #[trigger]
        m2.step(a, b) implies m1.step(a, b) || (a == ed.src as int && b == ed.dst as int) by {
        let e = choose|e: int|
            m2.edge_live(e) && m2.edge(e).src as int == a && m2.edge(e).dst as int == b;
        if e != enew {
            assert(m1.edge_live(e) && m1.edge(e).src as int == a && m1.edge(e).dst as int == b);
        }
    }
    assert forall|a: int, b: int| #[trigger] m1.step(a, b) implies m2.step(a, b) by {
        let e = choose|e: int|
            m1.edge_live(e) && m1.edge(e).src as int == a && m1.edge(e).dst as int == b;
        assert(m2.edge_live(e) && m2.edge(e).src as int == a && m2.edge(e).dst as int == b);
    }
    assert forall|n: int, i: int|
        #![trigger m1.has_producer(n, i)]
        #![trigger m2.has_producer(n, i)]
        !(n == ed.dst as int && i == ed.port as int) implies m1.has_producer(n, i)
        == m2.has_producer(n, i) && (m1.has_producer(n, i) ==> m1.producer(n, i) == m2.producer(
        n,
        i,
    )) by {
        if m1.has_producer(n, i) {
            let pe = m1.producer_edge(n, i);
            assert(m1.edge_live(pe) && m1.edge(pe).dst as int == n && m1.edge(pe).port as int == i);
            assert(m2.edge_live(pe) && m2.edge(pe).dst as int == n && m2.edge(pe).port as int == i);
            assert(m2.has_producer(n, i));
            lemma_producer_unique(m2, pe);
            lemma_producer_unique(m1, pe);
        }
        if m2.has_producer(n, i) {
            let pe = m2.producer_edge(n, i);
            assert(m2.edge_live(pe) && m2.edge(pe).dst as int == n && m2.edge(pe).port as int == i);
            if pe == enew {
                assert(n == ed.dst as int && i == ed.port as int);
            } else {
                assert(m1.edge_live(pe) && m1.edge(pe).dst as int == n && m1.edge(pe).port as int
                    == i);
                assert(m1.has_producer(n, i));
            }
        }
    }
}

/// A set of nodes that contains the start of a walk and is closed under
/// steps contains everything the walk reaches.
pub proof fn lemma_closed_unreached(m: GraphModel, vset: Set<int>, from: int, to: int)
    requires
        vset.contains(from),
        forall|v: int, d: int|
            vset.contains(v) && #[trigger] m.step(v, d) ==> #[trigger] vset.contains(d),
        !vset.contains(to),
    ensures
        !m.reaches(from, to),
{
    if m.reaches(from, to) {
        let p = choose|p: Seq<int>| #[trigger] m.is_path(p) && p.first() == from && p.last() == to;
        lemma_path_stays_in_closed(m, vset, p);
    }
}

/// Every node of a walk that starts inside a step-closed set stays inside.
pub proof fn lemma_path_stays_in_closed(m: GraphModel, vset: Set<int>, p: Seq<int>)
    requires
        m.is_path(p),
        vset.contains(p.first()),
        forall|v: int, d: int|
            vset.contains(v) && #[trigger] m.step(v, d) ==> #[trigger] vset.contains(d),
    ensures
        vset.contains(p.last()),
    decreases p.len(),
{
    if p.len() > 1 {
        let q = p.drop_last();
        assert(m.is_path(q)) by {
            assert forall|i: int| 0 <= i < q.len() - 1 implies #[trigger] m.step(q[i], q[i + 1]) by {
                lemma_path_step(m, p, i);
            }
        }
        lemma_path_stays_in_closed(m, vset, q);
        lemma_path_step(m, p, p.len() - 2);
        assert(m.step(q.last(), p.last()));
    }
}

/// If `a` reaches `b` in at least one step, `a` has an outgoing edge and
/// `b` an incoming one.
pub proof fn lemma_reach_endpoints(m: GraphModel, a: int, b: int)
    requires
        m.reaches_plus(a, b),
    ensures
        exists|e: int| #[trigger] m.edge_live(e) && m.edge(e).src as int == a,
        exists|e: int| #[trigger] m.edge_live(e) && m.edge(e).dst as int == b,
{
    let p = choose|p: Seq<int>|
        #[trigger] m.is_path(p) && p.len() >= 2 && p.first() == a && p.last() == b;
    lemma_path_step(m, p, 0);
    let e1 = choose|e: int|
        m.edge_live(e) && m.edge(e).src as int == p[0] && m.edge(e).dst as int == p[1];
    assert(m.edge_live(e1) && m.edge(e1).src as int == a);
    lemma_path_step(m, p, p.len() - 2);
    let e2 = choose|e: int|
        m.edge_live(e) && m.edge(e).src as int == p[p.len() - 2] && m.edge(e).dst as int == p[p.len()
            - 1];
    assert(m.edge_live(e2) && m.edge(e2).dst as int == b);
}

/// A node with no outgoing live edge reaches nothing but itself.
pub proof fn lemma_no_outgoing_unreaches(m: GraphModel, a: int, b: int)
    requires
        forall|e: int| #[trigger] m.edge_live(e) ==> m.edge(e).src as int != a,
        a != b,
    ensures
        !m.reaches(a, b),
{
    if m.reaches(a, b) {
        let p = choose|p: Seq<int>| #[trigger] m.is_path(p) && p.first() == a && p.last() == b;
        assert(p.len() >= 2);
        lemma_path_step(m, p, 0);
        let e = choose|e: int|
            m.edge_live(e) && m.edge(e).src as int == p[0] && m.edge(e).dst as int == p[1];
        assert(false);
    }
}

/// A node with no incoming live edge is reached by nothing but itself.
pub proof fn lemma_no_incoming_unreached(m: GraphModel, a: int, b: int)
    requires
        forall|e: int| #[trigger] m.edge_live(e) ==> m.edge(e).dst as int != b,
        a != b,
    ensures
        !m.reaches(a, b),
{
    if m.reaches(a, b) {
        let p = choose|p: Seq<int>| #[trigger] m.is_path(p) && p.first() == a && p.last() == b;
        assert(p.len() >= 2);
        lemma_path_step(m, p, p.len() - 2);
        let e = choose|e: int|
            m.edge_live(e) && m.edge(e).src as int == p[p.len() - 2] && m.edge(e).dst as int
                == p[p.len() - 1];
        assert(false);
    }
}

/// Zero-or-more-step reachability between distinct nodes is strict.
pub proof fn lemma_reaches_nontrivial(m: GraphModel, a: int, b: int)
    requires
        m.reaches(a, b),
        a != b,
    ensures
        m.reaches_plus(a, b),
{
    let p = choose|p: Seq<int>| #[trigger] m.is_path(p) && p.first() == a && p.last() == b;
    assert(p.len() >= 2);
}

/// Adding the edge `src -> dst` keeps the graph acyclic exactly when `dst`
/// does not already reach `src`.
pub proof fn lemma_add_step_acyclic(m1: GraphModel, m2: GraphModel, src: int, dst: int)
    requires
        m1.acyclic(),
        !m1.reaches(dst, src),
        forall|a: int, b: int| #[trigger]
            m2.step(a, b) ==> m1.step(a, b) || (a == src && b == dst),
    ensures
        m2.acyclic(),
{
    assert forall|a: int| !#[trigger] m2.reaches_plus(a, a) by {
        if m2.reaches_plus(a, a) {
            let p = choose|p: Seq<int>|
                #[trigger] m2.is_path(p) && p.len() >= 2 && p.first() == a && p.last() == a;
            lemma_new_step_path_decompose(m1, m2, src, dst, p);
            if m1.reaches_plus(a, a) {
                assert(false);
            } else {
                lemma_reaches_trans(m1, dst, a, src);
                assert(false);
            }
        }
    }
}

} // verus!
