//! The mutable control graph.
//!
//! Nodes and edges live in slot arenas that only ever grow: removal leaves a
//! hole, so handles issued to callers stay valid for the lifetime of what
//! they name. Slot zero always holds the sink placeholder (`aout`). Every
//! input port of every node has a slot in the shared input arena; the arena
//! records the port's current producer (zero while nothing is wired), and
//! holds the resolved input values during evaluation.
//!
//! Every public operation preserves `wf`, which ties the concrete state to
//! the model of `model.rs`: edges join live nodes at real ports, at most one
//! live edge feeds a port, the graph is acyclic, generations never run ahead
//! of the phase counter, and a valid evaluation-order log only describes
//! orders that replay correctly.

use vstd::prelude::*;

use crate::fp::NAN_BITS;
use crate::model::{Edge, GraphModel};
use crate::node::Node;
use crate::sample::Sample;

verus! {

/// Everything the graph stores per node: the operator, its slice of the
/// input arena, the generation guarding per-phase recomputation, and the
/// last computed value.
#[derive(Clone, Debug)]
pub struct NodeData {
    pub input_arena_ptr: usize,
    pub gen: u64,
    pub val: Sample,
    pub node: Node,
}

/// Which side of a node's edges to enumerate.
#[derive(Clone, Copy, PartialEq, Eq, Structural, Debug)]
pub enum Direction {
    Incoming,
    Outgoing,
}

/// One entry of a node's neighbor enumeration.
#[derive(Clone, Copy, PartialEq, Eq, Structural, Debug)]
pub struct Neighbor {
    pub node_index: usize,
    pub edge_index: usize,
    pub dest_port_id: usize,
}

/// Why a graph operation was rejected; the operation left the graph
/// unchanged.
#[derive(Clone, Copy, PartialEq, Eq, Structural, Debug)]
pub enum GraphError {
    /// The edge would have made a path back to its own source.
    WouldCycle,
    /// A node handle names no live node.
    NoSuchNode,
    /// An edge handle names no live edge.
    NoSuchEdge,
    /// A port index is out of the consumer's declared range.
    NoSuchPort,
    /// A live edge already feeds the addressed port.
    PortOccupied,
    /// Persisted data could not be decoded.
    Malformed,
}

/// The signal-processing graph: operator slots, edge slots, the shared
/// input arena, the container bookkeeping, and the evaluation cache.
pub struct ControlGraph {
    pub(crate) phase: u64,
    pub(crate) sample_rate: u32,
    pub(crate) nodes: Vec<Option<NodeData>>,
    pub(crate) edges: Vec<Option<Edge>>,
    pub(crate) node_input_arena: Vec<usize>,
    pub(crate) node_input_val_arena: Vec<Sample>,
    pub(crate) container_idents: Vec<Vec<char>>,
    pub(crate) container_stack: Vec<usize>,
    pub(crate) container_members: Vec<Vec<usize>>,
    pub(crate) container_children: Vec<Vec<usize>>,
    pub(crate) aout_node: usize,
    pub(crate) cache: Vec<(usize, usize)>,
    pub(crate) cache_invalid: bool,
}

/// The handles a run of consecutive insertions produced: `lo` inclusive to
/// `hi` exclusive.
pub open spec fn id_range(lo: int, hi: int) -> Seq<usize> {
    Seq::new((hi - lo) as nat, |q: int| (lo + q) as usize)
}

impl ControlGraph {
    /// The node slots, with their full per-node records.
    pub closed spec fn slots(&self) -> Seq<Option<NodeData>> {
        self.nodes@
    }

    /// The edge slots.
    pub closed spec fn edge_slots(&self) -> Seq<Option<Edge>> {
        self.edges@
    }

    /// The current phase counter.
    pub closed spec fn phase(&self) -> u64 {
        self.phase
    }

    /// The current sample rate.
    pub closed spec fn rate(&self) -> u32 {
        self.sample_rate
    }

    /// Whether the recorded evaluation order is valid for replay.
    pub closed spec fn cache_ok(&self) -> bool {
        !self.cache_invalid
    }

    /// The input arena's recorded producers.
    pub closed spec fn arena(&self) -> Seq<usize> {
        self.node_input_arena@
    }

    /// The input arena's resolved values.
    pub closed spec fn val_arena(&self) -> Seq<Sample> {
        self.node_input_val_arena@
    }

    /// The recorded evaluation order: node and arena offset pairs.
    pub closed spec fn cache_log(&self) -> Seq<(usize, usize)> {
        self.cache@
    }

    /// The persistent structure: what evaluation and persistence depend on.
    pub closed spec fn model(&self) -> GraphModel {
        GraphModel {
            slots: self.nodes@.map_values(
                |o: Option<NodeData>|
                    match o {
                        Some(nd) => Some(nd.node),
                        None => None,
                    },
            ),
            edges: self.edges@,
            rate: self.sample_rate,
        }
    }

    /// The container tree's names, one per container.
    pub closed spec fn containers_idents(&self) -> Seq<Seq<char>> {
        self.container_idents@.map_values(|v: Vec<char>| v@)
    }

    /// The container tree's member lists, one per container.
    pub closed spec fn containers_members(&self) -> Seq<Seq<usize>> {
        self.container_members@.map_values(|v: Vec<usize>| v@)
    }

    /// The container tree's child lists; entry zero is the implicit root.
    pub closed spec fn containers_children(&self) -> Seq<Seq<usize>> {
        self.container_children@.map_values(|v: Vec<usize>| v@)
    }

    /// The currently open construction scopes, outermost first.
    pub closed spec fn containers_stack(&self) -> Seq<usize> {
        self.container_stack@
    }

    /// The record of live node `n`.
    pub open spec fn record(&self, n: int) -> NodeData {
        self.slots()[n]->0
    }

    /// Live node `n`'s slice of the input arena starts here.
    pub open spec fn ptr_of(&self, n: int) -> int {
        self.record(n).input_arena_ptr as int
    }

    /// The declared arity of live node `n`.
    pub open spec fn arity_of(&self, n: int) -> nat {
        self.model().kind(n).arity_spec()
    }

    /// The producer the arena records for port `i` of live node `n`: the
    /// feeding edge's source, or zero while the port is unwired.
    pub open spec fn arena_entry_ok(&self, n: int, i: int) -> bool {
        self.arena()[self.ptr_of(n) + i] == if self.model().has_producer(n, i) {
            self.model().producer(n, i) as usize
        } else {
            0usize
        }
    }

    /// Arena bookkeeping: both arenas share one length, and every live
    /// node's slice lies inside them and records its ports' producers.
    pub open spec fn arena_ok(&self) -> bool {
        &&& self.arena().len() == self.val_arena().len()
        &&& forall|n: int| #[trigger]
            self.model().live(n) ==> self.ptr_of(n) + self.arity_of(n) <= self.arena().len()
        &&& forall|n: int, i: int|
            self.model().live(n) && 0 <= i < self.arity_of(n) ==> #[trigger] self.arena_entry_ok(
                n,
                i,
            )
        &&& forall|n1: int, n2: int|
            #![trigger self.ptr_of(n1), self.ptr_of(n2)]
            self.model().live(n1) && self.model().live(n2) && n1 != n2 ==> self.ptr_of(n1)
                + self.arity_of(n1) <= self.ptr_of(n2) || self.ptr_of(n2) + self.arity_of(n2)
                <= self.ptr_of(n1)
    }

    /// Generation bookkeeping: a generation of `u64::MAX` marks a constant
    /// whose value is already pinned; every other generation is at most the
    /// phase counter while the graph is at rest.
    pub open spec fn gens_ok(&self) -> bool {
        &&& forall|n: int| #[trigger]
            self.model().live(n) ==> (self.record(n).gen == u64::MAX ==> self.model().kind(
                n,
            ).is_const_spec() && self.record(n).val == self.model().kind(n)->Const_0.0)
        &&& forall|n: int| #[trigger]
            self.model().live(n) ==> (self.record(n).gen == u64::MAX || self.record(n).gen
                <= self.phase())
    }

    /// One entry of the evaluation-order log is sound at position `k`: it
    /// names a live node and its arena slice, and each of the node's
    /// producers is either a pinned constant or logged earlier.
    pub open spec fn cache_entry_ok(&self, k: int) -> bool {
        let n = self.cache_log()[k].0 as int;
        &&& self.model().live(n)
        &&& n != 0
        &&& self.cache_log()[k].1 as int == self.ptr_of(n)
        &&& forall|i: int|
            0 <= i < self.arity_of(n) && #[trigger] self.model().has_producer(n, i) ==> {
                let p = self.model().producer(n, i);
                (self.model().kind(p).is_const_spec() && self.record(p).gen == u64::MAX) || exists|
                    j: int,
                |
                    0 <= j < k && #[trigger] self.cache_log()[j].0 as int == p
            }
    }

    /// The recorded evaluation order replays correctly: it is empty exactly
    /// while nothing feeds the sink, ends at the sink's producer, every
    /// entry finds its producers resolved, and no node is logged twice —
    /// one evaluation per node per phase.
    pub open spec fn cache_valid(&self) -> bool {
        &&& (self.cache_log().len() == 0 <==> !self.model().has_producer(0, 0))
        &&& self.cache_log().len() > 0 ==> self.cache_log().last().0 as int == self.model().producer(
            0,
            0,
        )
        &&& forall|k: int| 0 <= k < self.cache_log().len() ==> #[trigger] self.cache_entry_ok(k)
        &&& forall|k1: int, k2: int|
            #![trigger self.cache_log()[k1], self.cache_log()[k2]]
            0 <= k1 < k2 < self.cache_log().len() ==> self.cache_log()[k1].0
                != self.cache_log()[k2].0
    }

    /// Container bookkeeping: names, member lists and child lists line up,
    /// and the open scopes name real containers, innermost last, each open
    /// scope nested inside the one before it.
    pub open spec fn containers_ok(&self) -> bool {
        &&& self.containers_members().len() == self.containers_idents().len()
        &&& self.containers_children().len() == self.containers_members().len() + 1
        &&& forall|j: int|
            0 <= j < self.containers_stack().len() ==> (#[trigger] self.containers_stack()[j]
                as int) < self.containers_members().len()
        &&& forall|j1: int, j2: int|
            #![trigger self.containers_stack()[j1], self.containers_stack()[j2]]
            0 <= j1 < j2 < self.containers_stack().len() ==> (self.containers_stack()[j1] as int)
                < (self.containers_stack()[j2] as int)
    }

    /// The graph's full invariant.
    pub closed spec fn wf(&self) -> bool {
        &&& self.aout_node == 0
        &&& self.model().wf()
        &&& self.record(0).input_arena_ptr == 0
        &&& self.record(0).val == (Sample { l: NAN_BITS, r: NAN_BITS })
        &&& self.phase < u64::MAX
        &&& self.arena_ok()
        &&& self.gens_ok()
        &&& (self.cache_ok() ==> self.cache_valid())
        &&& self.containers_ok()
    }

    /// The container tree's lists line up: one member list and one name
    /// per container, and one child list more (the root's).
    pub proof fn lemma_container_tree_shape(&self)
        requires
            self.wf(),
        ensures
            self.containers_members().len() == self.containers_idents().len(),
            self.containers_children().len() == self.containers_members().len() + 1,
    {
    }

    /// The model's slot sequence is the record slots with everything but
    /// the operator dropped; its edges and rate are the graph's own.
    pub proof fn lemma_model_of_slots(&self)
        ensures
            self.model().slots.len() == self.slots().len(),
            forall|q: int|
                0 <= q < self.slots().len() ==> #[trigger] self.model().slots[q] == (
                match self.slots()[q] {
                    Some(nd) => Some(nd.node),
                    None => None,
                }),
            self.model().edges == self.edge_slots(),
            self.model().rate == self.rate(),
    {
    }

    /// The sample rate the model carries is the graph's.
    pub proof fn lemma_rate_is_model(&self)
        ensures
            self.rate() == self.model().rate,
    {
    }

    /// Every open construction scope names a real container.
    pub proof fn lemma_stack_bounds(&self)
        requires
            self.wf(),
        ensures
            forall|q: int|
                0 <= q < self.containers_stack().len() ==> (#[trigger] self.containers_stack()[q]
                    as int) < self.containers_members().len(),
    {
    }

    /// A well-formed graph has a well-formed model.
    pub proof fn lemma_wf_model(&self)
        requires
            self.wf(),
        ensures
            self.model().wf(),
    {
    }

    /// Two states with the same persistent structure, arenas, containers
    /// and phase are equally well-formed; a state whose evaluation order is
    /// marked invalid need not account for it.
    pub(crate) proof fn lemma_wf_frame(g1: ControlGraph, g2: ControlGraph)
        requires
            g1.wf(),
            g2.slots() == g1.slots(),
            g2.edge_slots() == g1.edge_slots(),
            g2.rate() == g1.rate(),
            g2.phase() == g1.phase(),
            g2.arena() == g1.arena(),
            g2.val_arena().len() == g1.val_arena().len(),
            g2.containers_idents() == g1.containers_idents(),
            g2.containers_members() == g1.containers_members(),
            g2.containers_children() == g1.containers_children(),
            g2.containers_stack() == g1.containers_stack(),
            g2.aout_node == g1.aout_node,
            g2.cache_ok() ==> g1.cache_ok() && g2.cache_log() == g1.cache_log(),
        ensures
            g2.wf(),
    {
        assert(g2.model() =~= g1.model());
        assert(forall|n: int| #[trigger] g2.record(n) == g1.record(n));
        assert forall|q: int, i: int|
            g2.model().live(q) && 0 <= i < g2.arity_of(q) implies #[trigger] g2.arena_entry_ok(
            q,
            i,
        ) by {
            assert(g1.arena_entry_ok(q, i));
        }
        assert(g2.arena_ok());
        assert(g2.gens_ok());
        if g2.cache_ok() {
            assert forall|k: int| 0 <= k < g2.cache_log().len() implies #[trigger] g2
                .cache_entry_ok(k) by {
                assert(g1.cache_entry_ok(k));
            }
            assert(g2.cache_valid());
        }
        assert(g2.containers_ok());
    }

    /// Like `lemma_wf_frame`, but per-node cached values may have changed,
    /// as a warm replay changes them: pinned constants must still carry
    /// their constant, and the sink its NaN marker.
    pub(crate) proof fn lemma_wf_replay_frame(g1: ControlGraph, g2: ControlGraph)
        requires
            g1.wf(),
            g2.edge_slots() == g1.edge_slots(),
            g2.rate() == g1.rate(),
            g2.phase() == g1.phase(),
            g2.arena() == g1.arena(),
            g2.val_arena().len() == g1.val_arena().len(),
            g2.containers_idents() == g1.containers_idents(),
            g2.containers_members() == g1.containers_members(),
            g2.containers_children() == g1.containers_children(),
            g2.containers_stack() == g1.containers_stack(),
            g2.aout_node == g1.aout_node,
            g2.cache_ok() ==> g1.cache_ok() && g2.cache_log() == g1.cache_log(),
            g2.slots().len() == g1.slots().len(),
            forall|q: int|
                0 <= q < g1.slots().len() ==> ((#[trigger] g2.slots()[q]) is Some <==> g1.slots(
                )[q] is Some),
            forall|q: int|
                g1.model().live(q) ==> (#[trigger] g2.record(q)).input_arena_ptr == g1.record(
                    q,
                ).input_arena_ptr && g2.record(q).gen == g1.record(q).gen && g2.record(q).node
                    == g1.record(q).node,
            forall|q: int|
                g1.model().live(q) && #[trigger] g2.record(q).gen == u64::MAX ==> g2.record(q).val
                    == g2.model().kind(q)->Const_0.0,
            g2.record(0).val == (Sample { l: NAN_BITS, r: NAN_BITS }),
        ensures
            g2.wf(),
    {
        assert forall|q: int| 0 <= q < g2.model().slots.len() implies g2.model().slots[q]
            == g1.model().slots[q] by {
            if g1.model().live(q) {
                assert(g2.record(q).node == g1.record(q).node);
            }
        }
        assert(g2.model() =~= g1.model());
        assert forall|q: int, i: int|
            g2.model().live(q) && 0 <= i < g2.arity_of(q) implies #[trigger] g2.arena_entry_ok(
            q,
            i,
        ) by {
            assert(g1.arena_entry_ok(q, i));
            assert(g2.ptr_of(q) == g1.ptr_of(q));
        }
        assert forall|q: int| #[trigger]
            g2.model().live(q) implies g2.ptr_of(q) + g2.arity_of(q) <= g2.arena().len() by {
            assert(g1.ptr_of(q) + g1.arity_of(q) <= g1.arena().len());
        }
        assert forall|n1: int, n2: int|
            #![trigger g2.ptr_of(n1), g2.ptr_of(n2)]
            g2.model().live(n1) && g2.model().live(n2) && n1 != n2 implies g2.ptr_of(n1)
            + g2.arity_of(n1) <= g2.ptr_of(n2) || g2.ptr_of(n2) + g2.arity_of(n2) <= g2.ptr_of(
            n1,
        ) by {
            assert(g1.ptr_of(n1) + g1.arity_of(n1) <= g1.ptr_of(n2) || g1.ptr_of(n2)
                + g1.arity_of(n2) <= g1.ptr_of(n1));
        }
        assert(g2.arena_ok());
        assert(g2.gens_ok());
        if g2.cache_ok() {
            assert forall|k: int| 0 <= k < g2.cache_log().len() implies #[trigger] g2
                .cache_entry_ok(k) by {
                assert(g1.cache_entry_ok(k));
            }
            assert(g2.cache_valid());
        }
        assert(g2.containers_ok());
        assert(g2.wf());
    }

    /// Advancing the phase counter by one preserves the invariant: resting
    /// generations stay behind it. The evaluation order may have been
    /// discarded outright where nothing feeds the sink.
    pub(crate) proof fn lemma_wf_phase_bump(g1: ControlGraph, g2: ControlGraph)
        requires
            g1.wf(),
            (g1.phase() as int) + 1 < (u64::MAX as int),
            g2.phase() == g1.phase() + 1,
            g2.slots() == g1.slots(),
            g2.edge_slots() == g1.edge_slots(),
            g2.rate() == g1.rate(),
            g2.arena() == g1.arena(),
            g2.val_arena().len() == g1.val_arena().len(),
            g2.containers_idents() == g1.containers_idents(),
            g2.containers_members() == g1.containers_members(),
            g2.containers_children() == g1.containers_children(),
            g2.containers_stack() == g1.containers_stack(),
            g2.aout_node == g1.aout_node,
            g2.cache_ok() ==> (g1.cache_ok() && g2.cache_log() == g1.cache_log()) || (
            g2.cache_log().len() == 0 && !g2.model().has_producer(0, 0)),
        ensures
            g2.wf(),
    {
        assert(g2.model() =~= g1.model());
        assert forall|q: int, i: int|
            g2.model().live(q) && 0 <= i < g2.arity_of(q) implies #[trigger] g2.arena_entry_ok(
            q,
            i,
        ) by {
            assert(g1.arena_entry_ok(q, i));
        }
        assert(g2.arena_ok());
        assert forall|n: int| #[trigger]
            g2.model().live(n) implies (g2.record(n).gen == u64::MAX || g2.record(n).gen
            <= g2.phase()) by {
            assert(g1.record(n).gen == u64::MAX || g1.record(n).gen <= g1.phase());
        }
        assert(g2.gens_ok());
        if g2.cache_ok() {
            if g1.cache_ok() && g2.cache_log() == g1.cache_log() {
                assert forall|k: int| 0 <= k < g2.cache_log().len() implies #[trigger] g2
                    .cache_entry_ok(k) by {
                    assert(g1.cache_entry_ok(k));
                }
            }
            assert(g2.cache_valid());
        }
        assert(g2.containers_ok());
        assert(g2.wf());
    }

    /// A finished cold walk, with its order marked valid and the phase
    /// advanced past the walked phase, satisfies the resting invariant.
    pub(crate) proof fn lemma_wf_after_walk(w: ControlGraph, g2: ControlGraph)
        requires
            w.walk_base(),
            g2.phase() == w.phase() + 1,
            g2.slots() == w.slots(),
            g2.edge_slots() == w.edge_slots(),
            g2.rate() == w.rate(),
            g2.arena() == w.arena(),
            g2.val_arena().len() == w.val_arena().len(),
            g2.containers_idents() == w.containers_idents(),
            g2.containers_members() == w.containers_members(),
            g2.containers_children() == w.containers_children(),
            g2.containers_stack() == w.containers_stack(),
            g2.aout_node == w.aout_node,
            g2.cache_log() == w.cache_log(),
            g2.cache_log().len() > 0,
            w.model().has_producer(0, 0),
            g2.cache_log().last().0 as int == w.model().producer(0, 0),
        ensures
            g2.wf(),
    {
        assert(g2.model() =~= w.model());
        assert forall|q: int, i: int|
            g2.model().live(q) && 0 <= i < g2.arity_of(q) implies #[trigger] g2.arena_entry_ok(
            q,
            i,
        ) by {
            assert(w.arena_entry_ok(q, i));
        }
        assert(g2.arena_ok());
        assert forall|n: int| #[trigger]
            g2.model().live(n) implies (g2.record(n).gen == u64::MAX || g2.record(n).gen
            <= g2.phase()) by {
            assert(w.record(n).gen == u64::MAX || w.record(n).gen <= w.phase() + 1);
        }
        assert(g2.gens_ok());
        if g2.cache_ok() {
            assert forall|k: int| 0 <= k < g2.cache_log().len() implies #[trigger] g2
                .cache_entry_ok(k) by {
                assert(w.cache_entry_ok(k));
            }
            assert(g2.cache_valid());
        }
        assert(g2.containers_ok());
        assert(g2.wf());
    }

    /// A state that differs from a mid-walk state only in the contents of
    /// the resolved-value arena is equally fit to continue the walk.
    pub(crate) proof fn lemma_walk_frame(g1: ControlGraph, g2: ControlGraph)
        requires
            g1.walk_base(),
            g2.slots() == g1.slots(),
            g2.edge_slots() == g1.edge_slots(),
            g2.rate() == g1.rate(),
            g2.phase() == g1.phase(),
            g2.arena() == g1.arena(),
            g2.val_arena().len() == g1.val_arena().len(),
            g2.cache_log() == g1.cache_log(),
            g2.containers_idents() == g1.containers_idents(),
            g2.containers_members() == g1.containers_members(),
            g2.containers_children() == g1.containers_children(),
            g2.containers_stack() == g1.containers_stack(),
            g2.aout_node == g1.aout_node,
            !g2.cache_ok(),
        ensures
            g2.walk_base(),
    {
        assert(g2.model() =~= g1.model());
        assert forall|q: int, i: int|
            g2.model().live(q) && 0 <= i < g2.arity_of(q) implies #[trigger] g2.arena_entry_ok(
            q,
            i,
        ) by {
            assert(g1.arena_entry_ok(q, i));
        }
        assert(g2.arena_ok());
        assert forall|k: int| 0 <= k < g2.cache_log().len() implies #[trigger] g2.cache_entry_ok(
            k,
        ) by {
            assert(g1.cache_entry_ok(k));
        }
        assert forall|k: int| 0 <= k < g2.cache_log().len() implies (#[trigger] g2.record(
            g2.cache_log()[k].0 as int,
        )).gen == g2.phase() + 1 || g2.record(g2.cache_log()[k].0 as int).gen == u64::MAX by {
            assert(g1.record(g1.cache_log()[k].0 as int).gen == g1.phase() + 1 || g1.record(
                g1.cache_log()[k].0 as int,
            ).gen == u64::MAX);
        }
        assert(g2.containers_ok());
        assert(g2.walk_base());
    }

    /// A resting well-formed graph whose evaluation order has been
    /// discarded is ready to start a cold walk at its current phase.
    pub(crate) proof fn lemma_walk_start(g1: ControlGraph, g2: ControlGraph)
        requires
            g1.wf(),
            (g1.phase() as int) + 1 < (u64::MAX as int),
            g2.slots() == g1.slots(),
            g2.edge_slots() == g1.edge_slots(),
            g2.rate() == g1.rate(),
            g2.phase() == g1.phase(),
            g2.arena() == g1.arena(),
            g2.val_arena().len() == g1.val_arena().len(),
            g2.containers_idents() == g1.containers_idents(),
            g2.containers_members() == g1.containers_members(),
            g2.containers_children() == g1.containers_children(),
            g2.containers_stack() == g1.containers_stack(),
            g2.aout_node == g1.aout_node,
            !g2.cache_ok(),
            g2.cache_log().len() == 0,
        ensures
            g2.walk_base(),
    {
        assert(g2.model() =~= g1.model());
        let m = g2.model();
        let p = g2.phase();
        assert forall|q: int, i: int|
            m.live(q) && 0 <= i < g2.arity_of(q) implies #[trigger] g2.arena_entry_ok(q, i) by {
            assert(g1.arena_entry_ok(q, i));
        }
        assert(g2.arena_ok());
        assert forall|n: int| #[trigger]
            m.live(n) implies (g2.record(n).gen == u64::MAX || g2.record(n).gen <= p + 1) by {
            assert(g1.record(n).gen == u64::MAX || g1.record(n).gen <= g1.phase());
        }
        assert forall|n: int| #[trigger]
            m.live(n) && (g2.record(n).gen == p + 1 || g2.record(n).gen == u64::MAX) implies g2
            .record(n).val == m.node_value(p, n) by {
            assert(g1.record(n).gen == u64::MAX || g1.record(n).gen <= g1.phase());
            assert(g2.record(n).gen == u64::MAX);
            assert(m.kind(n).is_const_spec());
            assert(m.node_value(p, n) == m.kind(n)->Const_0.0);
        }
        assert(g2.containers_ok());
        assert(g2.walk_base());
    }

    /// Returns a new control graph with its `sample_rate` set: empty but
    /// for the implicit sink placeholder in slot zero.
    pub fn new(sample_rate: u32) -> (g: ControlGraph)
        ensures
            g.wf(),
            g.phase() == 0,
            g.rate() == sample_rate,
            g.model().slots =~= seq![Some(Node::Empty(crate::node::Empty))],
            g.slots() =~= seq![
                Some(
                    NodeData {
                        input_arena_ptr: 0,
                        gen: 0,
                        val: Sample { l: NAN_BITS, r: NAN_BITS },
                        node: Node::Empty(crate::node::Empty),
                    },
                ),
            ],
            g.model().edges =~= Seq::<Option<Edge>>::empty(),
            g.containers_idents() =~= Seq::<Seq<char>>::empty(),
            g.containers_members() =~= Seq::<Seq<usize>>::empty(),
            g.containers_stack() =~= Seq::<usize>::empty(),
            g.containers_children() =~= seq![Seq::<usize>::empty()],
            g.cache_ok(),
    {
        let mut nodes: Vec<Option<NodeData>> = Vec::new();
        nodes.push(
            Some(
                NodeData {
                    input_arena_ptr: 0,
                    gen: 0,
                    val: Sample::default(),
                    node: Node::Empty(crate::node::Empty),
                },
            ),
        );
        let mut node_input_arena: Vec<usize> = Vec::new();
        node_input_arena.push(0);
        let mut node_input_val_arena: Vec<Sample> = Vec::new();
        node_input_val_arena.push(Sample::default());
        let mut container_children: Vec<Vec<usize>> = Vec::new();
        container_children.push(Vec::new());
        let g = ControlGraph {
            phase: 0,
            sample_rate,
            nodes,
            edges: Vec::new(),
            node_input_arena,
            node_input_val_arena,
            container_idents: Vec::new(),
            container_stack: Vec::new(),
            container_members: Vec::new(),
            container_children,
            aout_node: 0,
            cache: Vec::new(),
            cache_invalid: true,
        };
        let g = ControlGraph { cache_invalid: false, ..g };
        proof {
            let m = g.model();
            assert(m.slots =~= seq![Some(Node::Empty(crate::node::Empty))]);
            assert forall|a: int| !#[trigger] m.reaches_plus(a, a) by {
                if m.reaches_plus(a, a) {
                    let p = choose|p: Seq<int>|
                        #[trigger] m.is_path(p) && p.len() >= 2 && p.first() == a && p.last() == a;
                    crate::model::lemma_path_step(m, p, 0);
                }
            }
            assert(g.wf());
        }
        g
    }
    /// Inserts a node into the control graph: allocates arena slots for its
    /// inputs (unwired, reading as NaN), registers it in every open
    /// container scope, and invalidates the recorded evaluation order.
    ///
    /// Returns the index of the node.
    pub fn insert(&mut self, n: Node) -> (id: usize)
        requires
            old(self).wf(),
        ensures
            final(self).wf(),
            id == old(self).slots().len(),
            id as int == old(self).model().slots.len(),
            final(self).slots().len() == old(self).slots().len() + 1,
            final(self).model() == (GraphModel {
                slots: old(self).model().slots.push(Some(n)),
                ..old(self).model()
            }),
            final(self).phase() == old(self).phase(),
            final(self).rate() == old(self).rate(),
            !final(self).cache_ok(),
            final(self).containers_idents() == old(self).containers_idents(),
            final(self).containers_children() == old(self).containers_children(),
            final(self).containers_stack() == old(self).containers_stack(),
            final(self).containers_members().len() == old(self).containers_members().len(),
            forall|j: int|
                0 <= j < old(self).containers_members().len()
                    ==> #[trigger] final(self).containers_members()[j] == if (exists|q: int|
                    0 <= q < old(self).containers_stack().len() && (#[trigger] old(
                        self,
                    ).containers_stack()[q] as int) == j) {
                    old(self).containers_members()[j].push(id)
                } else {
                    old(self).containers_members()[j]
                },
            forall|k: int|
                0 <= k < old(self).slots().len() ==> #[trigger] final(self).slots()[k] == old(
                    self,
                ).slots()[k],
            final(self).record(id as int) == (NodeData {
                input_arena_ptr: old(self).arena().len() as usize,
                gen: old(self).phase(),
                val: (Sample { l: NAN_BITS, r: NAN_BITS }),
                node: n,
            }),
    {
        let ghost pre = *self;
        let id = self.nodes.len();
        let input_len = n.arity();
        let ptr = self.node_input_arena.len();
        self.nodes.push(
            Some(NodeData { input_arena_ptr: ptr, gen: self.phase, val: Sample::default(), node: n }),
        );
        let ghost postpush_nodes = self.nodes@;
        let mut k: usize = 0;
        while k < input_len
            invariant
                self.node_input_arena@ == pre.node_input_arena@ + Seq::new(k as nat, |q: int| 0usize),
                self.node_input_val_arena@ == pre.node_input_val_arena@ + Seq::new(
                    k as nat,
                    |q: int| (Sample { l: NAN_BITS, r: NAN_BITS }),
                ),
                k <= input_len,
                self.nodes@ == postpush_nodes,
                self.edges == pre.edges,
                self.phase == pre.phase,
                self.sample_rate == pre.sample_rate,
                self.container_idents == pre.container_idents,
                self.container_stack == pre.container_stack,
                self.container_members == pre.container_members,
                self.container_children == pre.container_children,
                self.aout_node == pre.aout_node,
                self.cache == pre.cache,
            decreases input_len - k,
        {
            self.node_input_arena.push(0);
            self.node_input_val_arena.push(Sample::default());
            k += 1;
            proof {
                assert(self.node_input_arena@ =~= pre.node_input_arena@ + Seq::new(
                    k as nat,
                    |q: int| 0usize,
                ));
                assert(self.node_input_val_arena@ =~= pre.node_input_val_arena@ + Seq::new(
                    k as nat,
                    |q: int| (Sample { l: NAN_BITS, r: NAN_BITS }),
                ));
            }
        }
        let ghost mid = *self;
        let mut j: usize = 0;
        while j < self.container_stack.len()
            invariant
                j <= self.container_stack@.len(),
                self.container_stack == pre.container_stack,
                self.container_members@.len() == pre.container_members@.len(),
                forall|i: int|
                    0 <= i < pre.container_members@.len() ==> #[trigger] self.container_members@[i]@
                        == if exists|q: int|
                        0 <= q < j && pre.container_stack@[q] as int == i {
                        pre.container_members@[i]@.push(id)
                    } else {
                        pre.container_members@[i]@
                    },
                pre.containers_ok(),
                self.nodes == mid.nodes,
                self.edges == mid.edges,
                self.phase == mid.phase,
                self.sample_rate == mid.sample_rate,
                self.node_input_arena == mid.node_input_arena,
                self.node_input_val_arena == mid.node_input_val_arena,
                self.container_idents == mid.container_idents,
                self.container_children == mid.container_children,
                self.aout_node == mid.aout_node,
                self.cache == mid.cache,
            decreases self.container_stack@.len() - j,
        {
            let ci = self.container_stack[j];
            proof {
                assert(pre.containers_stack()[j as int] == ci);
                assert((ci as int) < pre.containers_members().len());
                assert(forall|q: int|
                    0 <= q < j ==> (#[trigger] pre.container_stack@[q] as int) < ci as int);
            }
            self.container_members[ci].push(id);
            j += 1;
            proof {
                assert forall|i: int| 0 <= i < pre.container_members@.len() implies #[trigger] self
                    .container_members@[i]@ == if exists|q: int|
                    0 <= q < j && pre.container_stack@[q] as int == i {
                    pre.container_members@[i]@.push(id)
                } else {
                    pre.container_members@[i]@
                } by {
                    if i == ci as int {
                        assert(pre.container_stack@[j - 1] as int == i);
                    } else {
                        if exists|q: int| 0 <= q < j && pre.container_stack@[q] as int == i {
                            let q = choose|q: int|
                                0 <= q < j && pre.container_stack@[q] as int == i;
                            assert(0 <= q < j - 1);
                        }
                    }
                }
            }
        }
        proof {
            assert forall|jj: int| 0 <= jj < pre.containers_members().len() implies #[trigger] self
                .containers_members()[jj] == if (exists|q: int|
                0 <= q < pre.containers_stack().len() && (#[trigger] pre.containers_stack()[q]
                    as int) == jj) {
                pre.containers_members()[jj].push(id)
            } else {
                pre.containers_members()[jj]
            } by {
                assert(self.containers_members()[jj] == self.container_members@[jj]@);
                assert(pre.containers_members()[jj] == pre.container_members@[jj]@);
            }
        }
        self.cache_invalid = true;
        proof {
            let m1 = pre.model();
            let m2 = self.model();
            assert(m2.slots =~= m1.slots.push(Some(n)));
            assert(m2.edges == m1.edges);
            assert(m2 =~= (GraphModel { slots: m1.slots.push(Some(n)), ..m1 }));
            assert forall|a: int, b: int| #[trigger] m2.step(a, b) implies m1.step(a, b) by {
                let e = choose|e: int|
                    m2.edge_live(e) && m2.edge(e).src as int == a && m2.edge(e).dst as int == b;
                assert(m1.edge_live(e) && m1.edge(e).src as int == a && m1.edge(e).dst as int == b);
            }
            crate::model::lemma_steps_subset_acyclic(m2, m1);
            crate::model::lemma_same_edges_wiring(m1, m2);
            assert forall|e: int| #[trigger] m2.edge_live(e) implies {
                &&& m2.live(m2.edge(e).src as int)
                &&& m2.edge(e).src != 0
                &&& m2.live(m2.edge(e).dst as int)
                &&& (m2.edge(e).dst as int == 0 ==> m2.edge(e).port as int == 0)
                &&& (m2.edge(e).dst as int != 0 ==> (m2.edge(e).port as int) < m2.kind(
                    m2.edge(e).dst as int,
                ).arity_spec())
            } by {
                assert(m1.edge_live(e));
            }
            assert(m2.edges_ok());
            assert(m2.wf());
            assert(forall|q: int| 0 <= q < id ==> #[trigger] self.slots()[q] == pre.slots()[q]);
            assert forall|q: int, i: int|
                m2.live(q) && 0 <= i < self.arity_of(q) implies #[trigger] self.arena_entry_ok(
                q,
                i,
            ) by {
                if q < id {
                    assert(m1.live(q));
                    assert(pre.arena_entry_ok(q, i));
                    assert(m1.has_producer(q, i) == m2.has_producer(q, i));
                    if m1.has_producer(q, i) {
                        assert(m1.producer(q, i) == m2.producer(q, i));
                    }
                    assert(pre.ptr_of(q) + pre.arity_of(q) <= pre.arena().len());
                } else {
                    assert(q == id);
                    assert(!m2.has_producer(q, i)) by {
                        if m1.has_producer(q, i) {
                            crate::model::lemma_producer_edge_props(m1, q, i);
                            assert(m1.live(q));
                        }
                    }
                    assert(self.arena()[self.ptr_of(q) + i] == 0usize);
                }
            }
            assert forall|q: int| #[trigger]
                m2.live(q) implies self.ptr_of(q) + self.arity_of(q) <= self.arena().len() by {
                if q < id {
                    assert(m1.live(q));
                    assert(pre.ptr_of(q) + pre.arity_of(q) <= pre.arena().len());
                }
            }
            assert forall|n1: int, n2: int|
                #![trigger self.ptr_of(n1), self.ptr_of(n2)]
                m2.live(n1) && m2.live(n2) && n1 != n2 implies self.ptr_of(n1) + self.arity_of(n1)
                <= self.ptr_of(n2) || self.ptr_of(n2) + self.arity_of(n2) <= self.ptr_of(n1) by {
                if n1 < id && n2 < id {
                    assert(m1.live(n1) && m1.live(n2));
                    assert(pre.ptr_of(n1) + pre.arity_of(n1) <= pre.ptr_of(n2) || pre.ptr_of(n2)
                        + pre.arity_of(n2) <= pre.ptr_of(n1));
                } else if n1 == id {
                    assert(m1.live(n2));
                    assert(pre.ptr_of(n2) + pre.arity_of(n2) <= pre.arena().len());
                } else {
                    assert(m1.live(n1));
                    assert(pre.ptr_of(n1) + pre.arity_of(n1) <= pre.arena().len());
                }
            }
            assert forall|q: int| #[trigger] m2.live(q) implies (self.record(q).gen == u64::MAX
                ==> m2.kind(q).is_const_spec() && self.record(q).val == m2.kind(q)->Const_0.0) && (
            self.record(q).gen == u64::MAX || self.record(q).gen <= self.phase()) by {
                if q < id {
                    assert(m1.live(q));
                    assert(self.record(q) == pre.record(q));
                    assert(m2.kind(q) == m1.kind(q));
                } else {
                    assert(self.record(q).gen == pre.phase());
                }
            }
            assert(self.wf());
            assert(self.containers_members() =~= final(self).containers_members());
        }
        id
    }

    /// Removes one live edge and rewires its consumer port to the unwired
    /// state. Internal: callers have already invalidated the evaluation
    /// order.
    fn sever_edge(&mut self, e: usize) -> (port: usize)
        requires
            old(self).wf(),
            !old(self).cache_ok(),
            old(self).model().edge_live(e as int),
        ensures
            final(self).wf(),
            !final(self).cache_ok(),
            port == old(self).model().edge(e as int).port,
            final(self).model() == (GraphModel {
                edges: old(self).model().edges.update(e as int, None),
                ..old(self).model()
            }),
            final(self).slots() == old(self).slots(),
            final(self).phase() == old(self).phase(),
            final(self).rate() == old(self).rate(),
            final(self).val_arena() == old(self).val_arena(),
            final(self).containers_idents() == old(self).containers_idents(),
            final(self).containers_members() == old(self).containers_members(),
            final(self).containers_children() == old(self).containers_children(),
            final(self).containers_stack() == old(self).containers_stack(),
    {
        let ghost pre = *self;
        let ghost m1 = pre.model();
        let ed = match self.edges[e] {
            Some(ed) => ed,
            None => vstd::pervasive::unreached(),
        };
        self.edges[e] = None;
        if ed.dst != 0 {
            proof {
                assert(m1.live(ed.dst as int));
                assert((ed.port as int) < pre.arity_of(ed.dst as int));
            }
            let dptr = match &self.nodes[ed.dst] {
                Some(nd) => nd.input_arena_ptr,
                None => vstd::pervasive::unreached(),
            };
            let alen = self.node_input_arena.len();
            proof {
                assert((dptr as int) + (ed.port as int) < alen as int);
            }
            self.node_input_arena[dptr + ed.port] = 0;
        }
        proof {
            let m2 = self.model();
            assert(m2 =~= (GraphModel { edges: m1.edges.update(e as int, None), ..m1 }));
            crate::model::lemma_removed_edge_wiring(m1, m2, e as int);
            crate::model::lemma_steps_subset_acyclic(m2, m1);
            assert forall|e2: int| #[trigger] m2.edge_live(e2) implies {
                &&& m2.live(m2.edge(e2).src as int)
                &&& m2.edge(e2).src != 0
                &&& m2.live(m2.edge(e2).dst as int)
                &&& (m2.edge(e2).dst as int == 0 ==> m2.edge(e2).port as int == 0)
                &&& (m2.edge(e2).dst as int != 0 ==> (m2.edge(e2).port as int) < m2.kind(
                    m2.edge(e2).dst as int,
                ).arity_spec())
            } by {
                assert(m1.edge_live(e2));
            }
            assert(m2.edges_ok());
            assert(m2.slots == m1.slots);
            assert(m2.wf());
            assert(forall|q: int| #[trigger] self.slots()[q] == pre.slots()[q]);
            assert forall|q: int| #[trigger]
                m2.live(q) implies self.ptr_of(q) + self.arity_of(q) <= self.arena().len() by {
                assert(m1.live(q));
                assert(pre.ptr_of(q) + pre.arity_of(q) <= pre.arena().len());
            }
            assert forall|n1: int, n2: int|
                #![trigger self.ptr_of(n1), self.ptr_of(n2)]
                m2.live(n1) && m2.live(n2) && n1 != n2 implies self.ptr_of(n1) + self.arity_of(n1)
                <= self.ptr_of(n2) || self.ptr_of(n2) + self.arity_of(n2) <= self.ptr_of(n1) by {
                assert(m1.live(n1) && m1.live(n2));
                assert(pre.ptr_of(n1) + pre.arity_of(n1) <= pre.ptr_of(n2) || pre.ptr_of(n2)
                    + pre.arity_of(n2) <= pre.ptr_of(n1));
            }
            assert forall|q: int| #[trigger] m2.live(q) implies (self.record(q).gen == u64::MAX
                ==> m2.kind(q).is_const_spec() && self.record(q).val == m2.kind(q)->Const_0.0) && (
            self.record(q).gen == u64::MAX || self.record(q).gen <= self.phase()) by {
                assert(m1.live(q));
                assert(self.record(q) == pre.record(q));
                assert(m2.kind(q) == m1.kind(q));
            }
            crate::model::lemma_producer_unique(m1, e as int);
            assert forall|q: int, i: int|
                m2.live(q) && 0 <= i < self.arity_of(q) implies #[trigger] self.arena_entry_ok(
                q,
                i,
            ) by {
                assert(m1.live(q));
                assert(pre.arena_entry_ok(q, i));
                if q == ed.dst as int && i == ed.port as int {
                    assert(!m2.has_producer(q, i));
                    if q != 0 {
                        assert(self.arena()[self.ptr_of(q) + i] == 0usize);
                    }
                } else {
                    if m1.has_producer(q, i) {
                        crate::model::lemma_producer_edge_props(m1, q, i);
                        let pe = m1.producer_edge(q, i);
                        crate::model::lemma_producer_unique(m1, pe);
                        assert(pe != e as int);
                        assert(m2.has_producer(q, i));
                        assert(m2.producer(q, i) == m1.producer(q, i));
                    } else {
                        assert(!m2.has_producer(q, i));
                    }
                    if ed.dst != 0 && q != ed.dst as int {
                        assert(pre.ptr_of(q) + pre.arity_of(q) <= pre.ptr_of(ed.dst as int)
                            || pre.ptr_of(ed.dst as int) + pre.arity_of(ed.dst as int)
                            <= pre.ptr_of(q));
                    }
                    assert(self.arena()[self.ptr_of(q) + i] == pre.arena()[pre.ptr_of(q) + i]);
                }
            }
            assert(self.containers_stack() == pre.containers_stack());
            assert(self.containers_members() =~= pre.containers_members());
            assert(self.containers_children() =~= pre.containers_children());
            assert(self.containers_idents() =~= pre.containers_idents());
            assert(self.containers_ok());
            assert(self.wf());
        }
        ed.port
    }

    /// Disconnects an edge from the control graph and invalidates the
    /// recorded evaluation order.
    ///
    /// Returns `Some(port)` with the severed edge's destination port if the
    /// removal was successful. Returns `None`, leaving the graph untouched,
    /// if the edge doesn't exist.
    pub fn disconnect(&mut self, edge: usize) -> (r: Option<usize>)
        requires
            old(self).wf(),
        ensures
            final(self).wf(),
            match r {
                Some(port) => {
                    &&& old(self).model().edge_live(edge as int)
                    &&& port == old(self).model().edge(edge as int).port
                    &&& final(self).model() == (GraphModel {
                        edges: old(self).model().edges.update(edge as int, None),
                        ..old(self).model()
                    })
                    &&& final(self).slots() == old(self).slots()
                    &&& final(self).phase() == old(self).phase()
                    &&& !final(self).cache_ok()
                    &&& final(self).containers_idents() == old(self).containers_idents()
                    &&& final(self).containers_members() == old(self).containers_members()
                    &&& final(self).containers_children() == old(self).containers_children()
                    &&& final(self).containers_stack() == old(self).containers_stack()
                },
                None => {
                    &&& !old(self).model().edge_live(edge as int)
                    &&& *final(self) == *old(self)
                },
            },
    {
        if edge >= self.edges.len() {
            return None;
        }
        let live = match self.edges[edge] {
            Some(_) => true,
            None => false,
        };
        if !live {
            return None;
        }
        let ghost pre = *self;
        self.cache_invalid = true;
        proof {
            Self::lemma_wf_frame(pre, *self);
        }
        let port = self.sever_edge(edge);
        Some(port)
    }

    /// Removes a node from the control graph, severing all of its edges and
    /// invalidating the recorded evaluation order. The sink placeholder
    /// cannot be removed.
    ///
    /// Returns `Some(NodeData)` if the removal was successful.
    /// Returns `None`, leaving the graph untouched, if the node doesn't
    /// exist.
    pub fn remove(&mut self, node: usize) -> (r: Option<NodeData>)
        requires
            old(self).wf(),
        ensures
            final(self).wf(),
            match r {
                Some(nd) => {
                    &&& node != 0
                    &&& old(self).model().live(node as int)
                    &&& nd == old(self).record(node as int)
                    &&& final(self).slots().len() == old(self).slots().len()
                    &&& (forall|q: int|
                        0 <= q < old(self).slots().len() && q != node
                            ==> #[trigger] final(self).slots()[q] == old(self).slots()[q])
                    &&& final(self).model().slots == old(self).model().slots.update(
                        node as int,
                        None,
                    )
                    &&& final(self).model().rate == old(self).model().rate
                    &&& final(self).model().edges.len() == old(self).model().edges.len()
                    &&& forall|e: int|
                        0 <= e < old(self).model().edges.len()
                            ==> #[trigger] final(self).model().edges[e] == if old(
                            self,
                        ).model().edge_live(e) && (old(self).model().edge(e).src == node || old(
                            self,
                        ).model().edge(e).dst == node) {
                            None
                        } else {
                            old(self).model().edges[e]
                        }
                    &&& final(self).phase() == old(self).phase()
                    &&& !final(self).cache_ok()
                    &&& final(self).containers_idents() == old(self).containers_idents()
                    &&& final(self).containers_members() == old(self).containers_members()
                    &&& final(self).containers_children() == old(self).containers_children()
                    &&& final(self).containers_stack() == old(self).containers_stack()
                },
                None => {
                    &&& (node == 0 || !old(self).model().live(node as int))
                    &&& *final(self) == *old(self)
                },
            },
    {
        if node == 0 || node >= self.nodes.len() {
            return None;
        }
        let live = match &self.nodes[node] {
            Some(_) => true,
            None => false,
        };
        if !live {
            return None;
        }
        let ghost pre = *self;
        self.cache_invalid = true;
        proof {
            Self::lemma_wf_frame(pre, *self);
        }
        let mut e: usize = 0;
        while e < self.edges.len()
            invariant
                pre.wf(),
                self.wf(),
                !self.cache_ok(),
                e <= self.edges@.len(),
                self.edges@.len() == pre.edges@.len(),
                self.slots() == pre.slots(),
                self.phase() == pre.phase(),
                self.rate() == pre.rate(),
                self.val_arena().len() == pre.val_arena().len(),
                self.containers_idents() == pre.containers_idents(),
                self.containers_members() == pre.containers_members(),
                self.containers_children() == pre.containers_children(),
                self.containers_stack() == pre.containers_stack(),
                node != 0,
                pre.model().live(node as int),
                forall|e2: int|
                    e <= e2 < pre.edge_slots().len() ==> #[trigger] self.edge_slots()[e2]
                        == pre.edge_slots()[e2],
                forall|e2: int|
                    0 <= e2 < e ==> #[trigger] self.edge_slots()[e2] == if pre.model().edge_live(
                        e2,
                    ) && (pre.model().edge(e2).src == node || pre.model().edge(e2).dst == node) {
                        None
                    } else {
                        pre.edge_slots()[e2]
                    },
            decreases self.edges@.len() - e,
        {
            let sever = match self.edges[e] {
                Some(ed) => ed.src == node || ed.dst == node,
                None => false,
            };
            if sever {
                proof {
                    assert(self.model().edge_live(e as int));
                }
                let ghost before = *self;
                self.sever_edge(e);
                proof {
                    assert(self.model().edges == before.model().edges.update(e as int, None));
                    assert(self.edge_slots() == before.edge_slots().update(e as int, None));
                    assert forall|e2: int|
                        0 <= e2 < e + 1 implies #[trigger] self.edge_slots()[e2] == if pre.model()
                        .edge_live(e2) && (pre.model().edge(e2).src == node || pre.model().edge(
                        e2,
                    ).dst == node) {
                        None
                    } else {
                        pre.edge_slots()[e2]
                    } by {
                        if e2 < e {
                            assert(before.edge_slots()[e2] == self.edge_slots()[e2]);
                        } else {
                            assert(e2 == e);
                            assert(self.edge_slots()[e2] is None);
                            assert(before.edge_slots()[e2] == pre.edge_slots()[e2]);
                            assert(pre.model().edge_live(e2));
                            assert(pre.model().edge(e2).src == node || pre.model().edge(e2).dst
                                == node);
                        }
                    }
                }
            }
            e += 1;
        }
        let ghost loopend = *self;
        let mut taken: Option<NodeData> = None;
        let node_ref = &mut self.nodes[node];
        core::mem::swap(&mut taken, node_ref);
        proof {
            let lm = loopend.model();
            let m1 = self.model();
            let prem = pre.model();
            assert(m1.slots =~= lm.slots.update(node as int, None));
            assert(m1.edges == lm.edges);
            crate::model::lemma_same_edges_wiring(lm, m1);
            assert forall|a: int, b: int| #[trigger] m1.step(a, b) implies lm.step(a, b) by {}
            crate::model::lemma_steps_subset_acyclic(m1, lm);
            assert forall|e2: int| #[trigger] m1.edge_live(e2) implies {
                &&& m1.live(m1.edge(e2).src as int)
                &&& m1.edge(e2).src != 0
                &&& m1.live(m1.edge(e2).dst as int)
                &&& (m1.edge(e2).dst as int == 0 ==> m1.edge(e2).port as int == 0)
                &&& (m1.edge(e2).dst as int != 0 ==> (m1.edge(e2).port as int) < m1.kind(
                    m1.edge(e2).dst as int,
                ).arity_spec())
            } by {
                assert(lm.edge_live(e2));
                assert(loopend.edge_slots()[e2] == if prem.edge_live(e2) && (prem.edge(e2).src
                    == node || prem.edge(e2).dst == node) {
                    None
                } else {
                    pre.edge_slots()[e2]
                });
                assert(prem.edge_live(e2));
                assert(prem.edge(e2).src != node && prem.edge(e2).dst != node);
                assert(lm.live(lm.edge(e2).src as int) && lm.live(lm.edge(e2).dst as int));
                assert(m1.edge(e2) == lm.edge(e2));
            }
            assert(m1.edges_ok());
            assert(m1.wf());
            assert(forall|q: int|
                0 <= q < self.slots().len() && q != node ==> #[trigger] self.slots()[q]
                    == loopend.slots()[q]);
            assert forall|q: int, i: int|
                m1.live(q) && 0 <= i < self.arity_of(q) implies #[trigger] self.arena_entry_ok(
                q,
                i,
            ) by {
                assert(q != node);
                assert(lm.live(q));
                assert(loopend.arena_entry_ok(q, i));
                assert(self.ptr_of(q) == loopend.ptr_of(q));
                assert(m1.has_producer(q, i) == lm.has_producer(q, i));
                if lm.has_producer(q, i) {
                    assert(lm.producer(q, i) == m1.producer(q, i));
                }
            }
            assert forall|q: int| #[trigger]
                m1.live(q) implies self.ptr_of(q) + self.arity_of(q) <= self.arena().len() by {
                assert(lm.live(q));
                assert(loopend.ptr_of(q) + loopend.arity_of(q) <= loopend.arena().len());
            }
            assert forall|n1: int, n2: int|
                #![trigger self.ptr_of(n1), self.ptr_of(n2)]
                m1.live(n1) && m1.live(n2) && n1 != n2 implies self.ptr_of(n1) + self.arity_of(n1)
                <= self.ptr_of(n2) || self.ptr_of(n2) + self.arity_of(n2) <= self.ptr_of(n1) by {
                assert(lm.live(n1) && lm.live(n2));
                assert(loopend.ptr_of(n1) + loopend.arity_of(n1) <= loopend.ptr_of(n2)
                    || loopend.ptr_of(n2) + loopend.arity_of(n2) <= loopend.ptr_of(n1));
            }
            assert forall|q: int| #[trigger] m1.live(q) implies (self.record(q).gen == u64::MAX
                ==> m1.kind(q).is_const_spec() && self.record(q).val == m1.kind(q)->Const_0.0) && (
            self.record(q).gen == u64::MAX || self.record(q).gen <= self.phase()) by {
                assert(lm.live(q));
                assert(self.record(q) == loopend.record(q));
                assert(m1.kind(q) == lm.kind(q));
            }
            assert(self.containers_stack() == loopend.containers_stack());
            assert(self.containers_members() =~= loopend.containers_members());
            assert(self.containers_children() =~= loopend.containers_children());
            assert(self.containers_idents() =~= loopend.containers_idents());
            assert(self.containers_ok());
            assert(self.wf());
            assert(self.model().slots =~= prem.slots.update(node as int, None));
            assert forall|e2: int| 0 <= e2 < prem.edges.len() implies #[trigger] self.model()
                .edges[e2] == if prem.edge_live(e2) && (prem.edge(e2).src == node || prem.edge(
                e2,
            ).dst == node) {
                None
            } else {
                prem.edges[e2]
            } by {
                assert(loopend.edge_slots()[e2] == if prem.edge_live(e2) && (prem.edge(e2).src
                    == node || prem.edge(e2).dst == node) {
                    None
                } else {
                    pre.edge_slots()[e2]
                });
                assert(self.model().edges[e2] == loopend.edge_slots()[e2]);
            }
        }
        taken
    }

    /// The unwired slots of a visit map.
    pub(crate) open spec fn unvisited_set(s: Seq<bool>) -> Set<int> {
        Set::new(|i: int| 0 <= i < s.len() && !s[i])
    }

    /// Marking one unvisited slot shrinks the unvisited set.
    proof fn lemma_unvisited_mark(s1: Seq<bool>, s2: Seq<bool>, d: int)
        requires
            0 <= d < s1.len(),
            !s1[d],
            s2 == s1.update(d, true),
        ensures
            Self::unvisited_set(s1).finite(),
            Self::unvisited_set(s2).finite(),
            Self::unvisited_set(s2).len() < Self::unvisited_set(s1).len(),
    {
        let range = vstd::set_lib::set_int_range(0, s1.len() as int);
        vstd::set_lib::lemma_int_range(0, s1.len() as int);
        vstd::set_lib::lemma_len_subset(Self::unvisited_set(s1), range);
        vstd::set_lib::lemma_len_subset(Self::unvisited_set(s2), range);
        assert(Self::unvisited_set(s2) =~= Self::unvisited_set(s1).remove(d));
        assert(Self::unvisited_set(s1).contains(d));
    }

    /// Whether a visit map never shrinks.
    spec fn visit_monotone(s1: Seq<bool>, s2: Seq<bool>) -> bool {
        s1.len() == s2.len() && forall|v: int| 0 <= v < s1.len() && s1[v] ==> s2[v]
    }

    /// Finds the live edge feeding port `i` of node `n`, if one exists.
    pub(crate) fn find_port_edge(&self, n: usize, i: usize) -> (r: Option<usize>)
        ensures
            match r {
                Some(e) => self.model().edge_live(e as int) && self.model().edge(e as int).dst == n
                    && self.model().edge(e as int).port == i,
                None => !self.model().has_producer(n as int, i as int),
            },
    {
        let mut e: usize = 0;
        while e < self.edges.len()
            invariant
                e <= self.edge_slots().len(),
                forall|e2: int|
                    0 <= e2 < e ==> !(#[trigger] self.model().edge_live(e2) && self.model().edge(
                        e2,
                    ).dst == n && self.model().edge(e2).port == i),
            decreases self.edge_slots().len() - e,
        {
            let hit = match self.edges[e] {
                Some(ed) => ed.dst == n && ed.port == i,
                None => false,
            };
            if hit {
                return Some(e);
            }
            e += 1;
        }
        proof {
            if self.model().has_producer(n as int, i as int) {
                let e2 = choose|e2: int|
                    #[trigger] self.model().edge_live(e2) && self.model().edge(e2).dst as int == (
                    n as int) && self.model().edge(e2).port as int == (i as int);
                assert(!(self.model().edge_live(e2) && self.model().edge(e2).dst == n
                    && self.model().edge(e2).port == i));
            }
        }
        None
    }

    /// Whether any live edge arrives at node `n`.
    fn has_incoming_edge(&self, n: usize) -> (r: bool)
        ensures
            r == exists|e: int| #[trigger] self.model().edge_live(e) && self.model().edge(e).dst
                == n,
    {
        let mut e: usize = 0;
        while e < self.edges.len()
            invariant
                e <= self.edge_slots().len(),
                forall|e2: int|
                    0 <= e2 < e ==> !(#[trigger] self.model().edge_live(e2) && self.model().edge(
                        e2,
                    ).dst == n),
            decreases self.edge_slots().len() - e,
        {
            let hit = match self.edges[e] {
                Some(ed) => ed.dst == n,
                None => false,
            };
            if hit {
                proof {
                    assert(self.model().edge_live(e as int) && self.model().edge(e as int).dst
                        == n);
                }
                return true;
            }
            e += 1;
        }
        proof {
            if exists|e2: int| #[trigger] self.model().edge_live(e2) && self.model().edge(e2).dst
                == n {
                let e2 = choose|e2: int|
                    #[trigger] self.model().edge_live(e2) && self.model().edge(e2).dst == n;
                assert(!(self.model().edge_live(e2) && self.model().edge(e2).dst == n));
            }
        }
        false
    }

    /// Whether any live edge leaves node `n`.
    fn has_outgoing_edge(&self, n: usize) -> (r: bool)
        ensures
            r == exists|e: int| #[trigger] self.model().edge_live(e) && self.model().edge(e).src
                == n,
    {
        let mut e: usize = 0;
        while e < self.edges.len()
            invariant
                e <= self.edge_slots().len(),
                forall|e2: int|
                    0 <= e2 < e ==> !(#[trigger] self.model().edge_live(e2) && self.model().edge(
                        e2,
                    ).src == n),
            decreases self.edge_slots().len() - e,
        {
            let hit = match self.edges[e] {
                Some(ed) => ed.src == n,
                None => false,
            };
            if hit {
                proof {
                    assert(self.model().edge_live(e as int) && self.model().edge(e as int).src
                        == n);
                }
                return true;
            }
            e += 1;
        }
        proof {
            if exists|e2: int| #[trigger] self.model().edge_live(e2) && self.model().edge(e2).src
                == n {
                let e2 = choose|e2: int|
                    #[trigger] self.model().edge_live(e2) && self.model().edge(e2).src == n;
                assert(!(self.model().edge_live(e2) && self.model().edge(e2).src == n));
            }
        }
        false
    }

    /// Whether a live edge runs from `a` straight to `b`.
    fn has_edge_between(&self, a: usize, b: usize) -> (r: bool)
        ensures
            r == self.model().step(a as int, b as int),
    {
        let mut e: usize = 0;
        while e < self.edges.len()
            invariant
                e <= self.edge_slots().len(),
                forall|e2: int|
                    0 <= e2 < e ==> !(#[trigger] self.model().edge_live(e2) && self.model().edge(
                        e2,
                    ).src == a && self.model().edge(e2).dst == b),
            decreases self.edge_slots().len() - e,
        {
            let hit = match self.edges[e] {
                Some(ed) => ed.src == a && ed.dst == b,
                None => false,
            };
            if hit {
                proof {
                    assert(self.model().edge_live(e as int) && self.model().edge(e as int).src
                        as int == a as int && self.model().edge(e as int).dst as int == b as int);
                }
                return true;
            }
            e += 1;
        }
        proof {
            if self.model().step(a as int, b as int) {
                let e2 = choose|e2: int|
                    self.model().edge_live(e2) && self.model().edge(e2).src as int == (a as int)
                        && self.model().edge(e2).dst as int == (b as int);
                assert(!(self.model().edge_live(e2) && self.model().edge(e2).src == a
                    && self.model().edge(e2).dst == b));
            }
        }
        false
    }

    /// The reachability probe behind cycle rejection: a depth-first search
    /// from `from`, reporting whether any directed walk reaches `to`.
    fn reaches_probe(&self, from: usize, to: usize) -> (b: bool)
        requires
            self.wf(),
            self.model().live(from as int),
        ensures
            b == self.model().reaches(from as int, to as int),
    {
        let ghost m = self.model();
        if from == to {
            proof {
                crate::model::lemma_reaches_refl(m, from as int);
            }
            return true;
        }
        broadcast use vstd::seq_lib::group_seq_properties;

        let n = self.nodes.len();
        let mut visited: Vec<bool> = vec![false; n];
        let mut stack: Vec<usize> = Vec::new();
        visited[from] = true;
        stack.push(from);
        proof {
            crate::model::lemma_reaches_refl(m, from as int);
            assert(forall|v: int| 0 <= v < n && v != from as int ==> !visited@[v]);
            assert(visited@[from as int]);
        }
        loop
            invariant
                self.wf(),
                m == self.model(),
                from != to,
                n == self.slots().len(),
                visited@.len() == n,
                from < n,
                visited@[from as int],
                !(to < n && visited@[to as int]),
                forall|v: int| 0 <= v < n && #[trigger] visited@[v] ==> m.reaches(from as int, v),
                forall|k: int|
                    0 <= k < stack@.len() ==> (#[trigger] stack@[k] as int) < n && visited@[stack@[k] as int],
                forall|v: int, d: int|
                    0 <= v < n && visited@[v] && !stack@.contains(v as usize) && #[trigger] m.step(
                        v,
                        d,
                    ) ==> 0 <= d < n && visited@[d],
            ensures
                !m.reaches(from as int, to as int),
            decreases Self::unvisited_set(visited@).len(), stack@.len(),
        {
            let ghost prestack = stack@;
            let x = match stack.pop() {
                Some(x) => x,
                None => {
                    proof {
                        let vset = Set::new(|i: int| 0 <= i < n && visited@[i]);
                        assert forall|v: int, d: int|
                            vset.contains(v) && #[trigger] m.step(v, d) implies #[trigger] vset
                            .contains(d) by {
                            assert(!stack@.contains(v as usize));
                        }
                        crate::model::lemma_closed_unreached(m, vset, from as int, to as int);
                    }
                    break ;
                },
            };
            proof {
                assert(prestack.len() > 0 && x == prestack.last() && stack@ == prestack.drop_last());
                assert forall|v: usize| prestack.contains(v) && v != x implies stack@.contains(
                    v,
                ) by {
                    let k = choose|k: int| 0 <= k < prestack.len() && prestack[k] == v;
                    if k == prestack.len() - 1 {
                        assert(v == x);
                    } else {
                        assert(stack@[k] == v);
                    }
                }
            }
            let ghost visited0 = visited@;
            let ghost stack0 = stack@;
            let mut e: usize = 0;
            let mut pushed_any = false;
            while e < self.edges.len()
                invariant
                    self.wf(),
                    m == self.model(),
                    from != to,
                    n == self.slots().len(),
                    visited@.len() == n,
                    from < n,
                    x < n,
                    visited@[from as int],
                    visited@[x as int],
                    m.reaches(from as int, x as int),
                    !(to < n && visited@[to as int]),
                    e <= self.edge_slots().len(),
                    Self::visit_monotone(visited0, visited@),
                    pushed_any ==> Self::unvisited_set(visited@).len() < Self::unvisited_set(
                        visited0,
                    ).len(),
                    !pushed_any ==> visited@ == visited0,
                    !pushed_any ==> stack@ == stack0,
                    forall|v: int| 0 <= v < n && #[trigger] visited@[v] ==> m.reaches(
                        from as int,
                        v,
                    ),
                    forall|k: int|
                        0 <= k < stack@.len() ==> (#[trigger] stack@[k] as int) < n
                            && visited@[stack@[k] as int],
                    forall|v: int, d: int|
                        0 <= v < n && visited@[v] && v != x as int && !stack@.contains(v as usize)
                            && #[trigger] m.step(v, d) ==> 0 <= d < n && visited@[d],
                    forall|e2: int|
                        0 <= e2 < e && #[trigger] m.edge_live(e2) && m.edge(e2).src == x ==> 0
                            <= m.edge(e2).dst < n && visited@[m.edge(e2).dst as int],
                decreases self.edge_slots().len() - e,
            {
                let step_dst = match self.edges[e] {
                    Some(ed) => if ed.src == x {
                        Some(ed.dst)
                    } else {
                        None
                    },
                    None => None,
                };
                match step_dst {
                    Some(d) => {
                        proof {
                            assert(m.edge_live(e as int));
                            assert(m.live(d as int));
                            assert(m.step(x as int, d as int));
                            crate::model::lemma_step_reaches_plus(m, x as int, d as int);
                            crate::model::lemma_reaches_trans(m, from as int, x as int, d as int);
                        }
                        if d == to {
                            return true;
                        }
                        if !visited[d] {
                            let ghost vis_before = visited@;
                            let ghost stk_before = stack@;
                            proof {
                                Self::lemma_unvisited_mark(
                                    visited@,
                                    visited@.update(d as int, true),
                                    d as int,
                                );
                            }
                            visited[d] = true;
                            stack.push(d);
                            pushed_any = true;
                            proof {
                                assert(visited@ == vis_before.update(d as int, true));
                                assert(stack@ == stk_before.push(d));
                                assert(stack@[stk_before.len() as int] == d);
                                assert(stack@.contains(d));
                                assert forall|v: int, dd: int|
                                    0 <= v < n && visited@[v] && v != x as int && !stack@.contains(
                                        v as usize,
                                    ) && #[trigger] m.step(v, dd) implies 0 <= dd < n
                                    && visited@[dd] by {
                                    assert(v != d as int);
                                    assert(vis_before[v]);
                                    assert(!stk_before.contains(v as usize)) by {
                                        if stk_before.contains(v as usize) {
                                            let k = choose|k: int|
                                                0 <= k < stk_before.len() && stk_before[k] == (
                                                v as usize);
                                            assert(stack@[k] == (v as usize));
                                            assert(stack@.contains(v as usize));
                                        }
                                    }
                                    assert(0 <= dd < n && vis_before[dd]);
                                }
                            }
                        }
                    },
                    None => {},
                }
                e += 1;
            }
            proof {
                assert forall|v: int, d: int|
                    0 <= v < n && visited@[v] && !stack@.contains(v as usize) && #[trigger] m.step(
                        v,
                        d,
                    ) implies 0 <= d < n && visited@[d] by {
                    if v == x as int {
                        let e2 = choose|e2: int|
                            m.edge_live(e2) && m.edge(e2).src as int == v && m.edge(e2).dst as int
                                == d;
                        assert(0 <= m.edge(e2).dst < n && visited@[m.edge(e2).dst as int]);
                    }
                }
            }
        }
        false
    }

    /// What a successful `connect` call did: one edge appended, everything
    /// else untouched, the evaluation order invalidated.
    pub open spec fn connected_post(
        &self,
        pre: &ControlGraph,
        e: usize,
        src: usize,
        dest: usize,
        dest_port: usize,
    ) -> bool {
        &&& e as int == pre.model().edges.len()
        &&& self.model() == (GraphModel {
            edges: pre.model().edges.push(Some(Edge { src, dst: dest, port: dest_port })),
            ..pre.model()
        })
        &&& self.slots() == pre.slots()
        &&& self.phase() == pre.phase()
        &&& !self.cache_ok()
        &&& self.containers_idents() == pre.containers_idents()
        &&& self.containers_members() == pre.containers_members()
        &&& self.containers_children() == pre.containers_children()
        &&& self.containers_stack() == pre.containers_stack()
    }

    /// The addressed port exists: any port on a live consumer in its
    /// declared range, or the sink's single port.
    pub open spec fn port_in_range(&self, dest: int, dest_port: int) -> bool {
        if dest == 0 {
            dest_port == 0
        } else {
            dest_port < self.model().kind(dest).arity_spec()
        }
    }

    /// Connects an existing node (`src`) into another existing node
    /// (`dest`). `dest_port` determines the port number of `dest` that
    /// `src` will connect to.
    ///
    /// Returns the new edge's index, or the exact reason the edge was
    /// rejected: unknown endpoints, a port out of range, a port already
    /// fed, or an edge that would have closed a directed cycle. A rejected
    /// call leaves the graph untouched.
    pub fn connect_ex_ex_port(&mut self, src: usize, dest: usize, dest_port: usize) -> (r: Result<
        usize,
        GraphError,
    >)
        requires
            old(self).wf(),
        ensures
            final(self).wf(),
            match r {
                Ok(e) => {
                    &&& src != 0
                    &&& old(self).model().live(src as int)
                    &&& old(self).model().live(dest as int)
                    &&& old(self).port_in_range(dest as int, dest_port as int)
                    &&& !old(self).model().has_producer(dest as int, dest_port as int)
                    &&& !old(self).model().reaches(dest as int, src as int)
                    &&& final(self).connected_post(old(self), e, src, dest, dest_port)
                },
                Err(GraphError::NoSuchNode) => {
                    &&& (src == 0 || !old(self).model().live(src as int) || !old(
                        self,
                    ).model().live(dest as int))
                    &&& *final(self) == *old(self)
                },
                Err(GraphError::NoSuchPort) => {
                    &&& src != 0
                    &&& old(self).model().live(src as int)
                    &&& old(self).model().live(dest as int)
                    &&& !old(self).port_in_range(dest as int, dest_port as int)
                    &&& *final(self) == *old(self)
                },
                Err(GraphError::PortOccupied) => {
                    &&& src != 0
                    &&& old(self).model().live(src as int)
                    &&& old(self).model().live(dest as int)
                    &&& old(self).port_in_range(dest as int, dest_port as int)
                    &&& old(self).model().has_producer(dest as int, dest_port as int)
                    &&& *final(self) == *old(self)
                },
                Err(GraphError::WouldCycle) => {
                    &&& src != 0
                    &&& old(self).model().live(src as int)
                    &&& old(self).model().live(dest as int)
                    &&& old(self).port_in_range(dest as int, dest_port as int)
                    &&& !old(self).model().has_producer(dest as int, dest_port as int)
                    &&& old(self).model().reaches(dest as int, src as int)
                    &&& *final(self) == *old(self)
                },
                Err(_) => false,
            },
    {
        let ghost pre = *self;
        let ghost m1 = pre.model();
        let src_live = if src != 0 && src < self.nodes.len() {
            match &self.nodes[src] {
                Some(_) => true,
                None => false,
            }
        } else {
            false
        };
        let dest_live = if dest < self.nodes.len() {
            match &self.nodes[dest] {
                Some(_) => true,
                None => false,
            }
        } else {
            false
        };
        if !src_live || !dest_live {
            return Err(GraphError::NoSuchNode);
        }
        let port_ok = if dest == 0 {
            dest_port == 0
        } else {
            let arity = match &self.nodes[dest] {
                Some(nd) => nd.node.arity(),
                None => vstd::pervasive::unreached(),
            };
            dest_port < arity
        };
        if !port_ok {
            return Err(GraphError::NoSuchPort);
        }
        match self.find_port_edge(dest, dest_port) {
            Some(_) => {
                return Err(GraphError::PortOccupied);
            },
            None => {},
        }
        let would_cycle = if src == dest {
            proof {
                crate::model::lemma_reaches_refl(m1, dest as int);
            }
            true
        } else if self.has_incoming_edge(src) && self.has_outgoing_edge(dest)
            && !self.has_edge_between(src, dest) {
            self.reaches_probe(dest, src)
        } else {
            proof {
                if m1.reaches(dest as int, src as int) {
                    crate::model::lemma_reaches_nontrivial(m1, dest as int, src as int);
                    crate::model::lemma_reach_endpoints(m1, dest as int, src as int);
                    if m1.step(src as int, dest as int) {
                        crate::model::lemma_step_reaches_plus(m1, src as int, dest as int);
                        crate::model::lemma_reaches_trans(m1, dest as int, src as int, dest as int);
                        assert(m1.reaches_plus(dest as int, dest as int));
                        assert(false);
                    } else {
                        assert(false);
                    }
                }
            }
            false
        };
        if would_cycle {
            return Err(GraphError::WouldCycle);
        }
        let e = self.edges.len();
        let ed = Edge { src, dst: dest, port: dest_port };
        self.edges.push(Some(ed));
        if dest != 0 {
            let dptr = match &self.nodes[dest] {
                Some(nd) => nd.input_arena_ptr,
                None => vstd::pervasive::unreached(),
            };
            let alen = self.node_input_arena.len();
            proof {
                assert(m1.live(dest as int));
                assert(dptr as int == pre.ptr_of(dest as int));
                assert((dest_port as int) < pre.arity_of(dest as int));
                assert(pre.ptr_of(dest as int) + pre.arity_of(dest as int) <= pre.arena().len());
                assert((dptr as int) + (dest_port as int) < alen as int);
            }
            self.node_input_arena[dptr + dest_port] = src;
        }
        self.cache_invalid = true;
        proof {
            let m2 = self.model();
            assert(m2 =~= (GraphModel { edges: m1.edges.push(Some(ed)), ..m1 }));
            crate::model::lemma_added_edge_wiring(m1, m2, ed);
            crate::model::lemma_add_step_acyclic(m1, m2, src as int, dest as int);
            assert forall|e2: int| #[trigger] m2.edge_live(e2) implies {
                &&& m2.live(m2.edge(e2).src as int)
                &&& m2.edge(e2).src != 0
                &&& m2.live(m2.edge(e2).dst as int)
                &&& (m2.edge(e2).dst as int == 0 ==> m2.edge(e2).port as int == 0)
                &&& (m2.edge(e2).dst as int != 0 ==> (m2.edge(e2).port as int) < m2.kind(
                    m2.edge(e2).dst as int,
                ).arity_spec())
            } by {
                if e2 < m1.edges.len() {
                    assert(m1.edge_live(e2));
                } else {
                    assert(m2.edge(e2) == ed);
                }
            }
            assert(m2.edges_ok());
            assert(m2.wf());
            assert(forall|q: int| #[trigger] self.slots()[q] == pre.slots()[q]);
            assert forall|q: int, i: int|
                m2.live(q) && 0 <= i < self.arity_of(q) implies #[trigger] self.arena_entry_ok(
                q,
                i,
            ) by {
                assert(m1.live(q));
                assert(pre.arena_entry_ok(q, i));
                if q == dest as int && i == dest_port as int {
                    assert(m2.has_producer(q, i) && m2.producer(q, i) == src as int);
                    if q != 0 {
                        assert(self.arena()[self.ptr_of(q) + i] == src);
                    }
                } else {
                    assert(m1.has_producer(q, i) == m2.has_producer(q, i));
                    if m1.has_producer(q, i) {
                        assert(m1.producer(q, i) == m2.producer(q, i));
                    }
                    if dest != 0 && q != dest as int {
                        assert(pre.ptr_of(q) + pre.arity_of(q) <= pre.ptr_of(dest as int)
                            || pre.ptr_of(dest as int) + pre.arity_of(dest as int) <= pre.ptr_of(
                            q,
                        ));
                    }
                    assert(self.arena()[self.ptr_of(q) + i] == pre.arena()[pre.ptr_of(q) + i]);
                }
            }
            assert forall|q: int| #[trigger]
                m2.live(q) implies self.ptr_of(q) + self.arity_of(q) <= self.arena().len() by {
                assert(m1.live(q));
                assert(pre.ptr_of(q) + pre.arity_of(q) <= pre.arena().len());
            }
            assert forall|n1: int, n2: int|
                #![trigger self.ptr_of(n1), self.ptr_of(n2)]
                m2.live(n1) && m2.live(n2) && n1 != n2 implies self.ptr_of(n1) + self.arity_of(n1)
                <= self.ptr_of(n2) || self.ptr_of(n2) + self.arity_of(n2) <= self.ptr_of(n1) by {
                assert(m1.live(n1) && m1.live(n2));
                assert(pre.ptr_of(n1) + pre.arity_of(n1) <= pre.ptr_of(n2) || pre.ptr_of(n2)
                    + pre.arity_of(n2) <= pre.ptr_of(n1));
            }
            assert forall|q: int| #[trigger] m2.live(q) implies (self.record(q).gen == u64::MAX
                ==> m2.kind(q).is_const_spec() && self.record(q).val == m2.kind(q)->Const_0.0) && (
            self.record(q).gen == u64::MAX || self.record(q).gen <= self.phase()) by {
                assert(m1.live(q));
                assert(self.record(q) == pre.record(q));
                assert(m2.kind(q) == m1.kind(q));
            }
            assert(self.containers_stack() == pre.containers_stack());
            assert(self.containers_members() =~= pre.containers_members());
            assert(self.containers_children() =~= pre.containers_children());
            assert(self.containers_idents() =~= pre.containers_idents());
            assert(self.containers_ok());
            assert(self.wf());
        }
        Ok(e)
    }

    /// Every open scope's member list grew by exactly the handles
    /// `lo..hi`, in order; every other member list is untouched.
    pub open spec fn scopes_extended(&self, pre: &ControlGraph, lo: int, hi: int) -> bool {
        &&& self.containers_members().len() == pre.containers_members().len()
        &&& forall|j: int|
            0 <= j < pre.containers_members().len() ==> #[trigger] self.containers_members()[j]
                == if (exists|q: int|
                0 <= q < pre.containers_stack().len() && (#[trigger] pre.containers_stack()[q]
                    as int) == j) {
                pre.containers_members()[j] + id_range(lo, hi)
            } else {
                pre.containers_members()[j]
            }
    }

    /// What `insert` did to the container bookkeeping: the new node joined
    /// every open scope's member list.
    pub open spec fn containers_insert_post(&self, pre: &ControlGraph, id: usize) -> bool {
        &&& self.containers_idents() == pre.containers_idents()
        &&& self.containers_children() == pre.containers_children()
        &&& self.containers_stack() == pre.containers_stack()
        &&& self.containers_members().len() == pre.containers_members().len()
        &&& forall|j: int|
            0 <= j < pre.containers_members().len() ==> #[trigger] self.containers_members()[j]
                == if (exists|q: int|
                0 <= q < pre.containers_stack().len() && (#[trigger] pre.containers_stack()[q]
                    as int) == j) {
                pre.containers_members()[j].push(id)
            } else {
                pre.containers_members()[j]
            }
    }

    /// What a successful insert-then-wire-into-the-new-node call did.
    pub open spec fn insert_connect_in_post(
        &self,
        pre: &ControlGraph,
        id: usize,
        n: Node,
        src: usize,
        port: usize,
    ) -> bool {
        &&& id as int == pre.model().slots.len()
        &&& self.model() == (GraphModel {
            slots: pre.model().slots.push(Some(n)),
            edges: pre.model().edges.push(Some(Edge { src, dst: id, port })),
            rate: pre.model().rate,
        })
        &&& self.phase() == pre.phase()
        &&& !self.cache_ok()
        &&& self.containers_insert_post(pre, id)
    }

    /// What a successful insert-then-wire-out-of-the-new-node call did.
    pub open spec fn insert_connect_out_post(
        &self,
        pre: &ControlGraph,
        id: usize,
        n: Node,
        dest: usize,
        port: usize,
    ) -> bool {
        &&& id as int == pre.model().slots.len()
        &&& self.model() == (GraphModel {
            slots: pre.model().slots.push(Some(n)),
            edges: pre.model().edges.push(Some(Edge { src: id, dst: dest, port })),
            rate: pre.model().rate,
        })
        &&& self.phase() == pre.phase()
        &&& !self.cache_ok()
        &&& self.containers_insert_post(pre, id)
    }

    /// Connects an existing node (`src`) into another existing node
    /// (`dest`). `src` will always connect to port 0 of `dest`.
    pub fn connect_ex_ex(&mut self, src: usize, dest: usize) -> (r: Result<usize, GraphError>)
        requires
            old(self).wf(),
        ensures
            final(self).wf(),
            match r {
                Ok(e) => {
                    &&& src != 0
                    &&& old(self).model().live(src as int)
                    &&& old(self).model().live(dest as int)
                    &&& old(self).port_in_range(dest as int, 0)
                    &&& !old(self).model().has_producer(dest as int, 0)
                    &&& !old(self).model().reaches(dest as int, src as int)
                    &&& final(self).connected_post(old(self), e, src, dest, 0)
                },
                Err(GraphError::NoSuchNode) => {
                    &&& (src == 0 || !old(self).model().live(src as int) || !old(
                        self,
                    ).model().live(dest as int))
                    &&& *final(self) == *old(self)
                },
                Err(GraphError::NoSuchPort) => {
                    &&& !old(self).port_in_range(dest as int, 0)
                    &&& *final(self) == *old(self)
                },
                Err(GraphError::PortOccupied) => {
                    &&& old(self).model().has_producer(dest as int, 0)
                    &&& *final(self) == *old(self)
                },
                Err(GraphError::WouldCycle) => {
                    &&& old(self).model().reaches(dest as int, src as int)
                    &&& *final(self) == *old(self)
                },
                Err(_) => false,
            },
    {
        self.connect_ex_ex_port(src, dest, 0)
    }

    /// Connects an existing node (`src`) into another existing node
    /// (`dest`). `dest_port` determines the port number of `dest` that
    /// `src` will connect to. Alias to [`ControlGraph::connect_ex_ex_port`].
    pub fn connect(&mut self, src: usize, dest: usize, dest_port: usize) -> (r: Result<
        usize,
        GraphError,
    >)
        requires
            old(self).wf(),
        ensures
            final(self).wf(),
            match r {
                Ok(e) => {
                    &&& src != 0
                    &&& old(self).model().live(src as int)
                    &&& old(self).model().live(dest as int)
                    &&& old(self).port_in_range(dest as int, dest_port as int)
                    &&& !old(self).model().has_producer(dest as int, dest_port as int)
                    &&& !old(self).model().reaches(dest as int, src as int)
                    &&& final(self).connected_post(old(self), e, src, dest, dest_port)
                },
                Err(GraphError::NoSuchNode) => {
                    &&& (src == 0 || !old(self).model().live(src as int) || !old(
                        self,
                    ).model().live(dest as int))
                    &&& *final(self) == *old(self)
                },
                Err(GraphError::NoSuchPort) => {
                    &&& !old(self).port_in_range(dest as int, dest_port as int)
                    &&& *final(self) == *old(self)
                },
                Err(GraphError::PortOccupied) => {
                    &&& old(self).model().has_producer(dest as int, dest_port as int)
                    &&& *final(self) == *old(self)
                },
                Err(GraphError::WouldCycle) => {
                    &&& old(self).model().reaches(dest as int, src as int)
                    &&& *final(self) == *old(self)
                },
                Err(_) => false,
            },
    {
        self.connect_ex_ex_port(src, dest, dest_port)
    }

    /// Connects a node to `aout`, the distinguished sink: the node's value
    /// becomes the graph's output.
    pub fn connect_existing_aout(&mut self, a: usize) -> (r: Result<usize, GraphError>)
        requires
            old(self).wf(),
        ensures
            final(self).wf(),
            match r {
                Ok(e) => {
                    &&& a != 0
                    &&& old(self).model().live(a as int)
                    &&& !old(self).model().has_producer(0, 0)
                    &&& final(self).connected_post(old(self), e, a, 0, 0)
                },
                Err(GraphError::NoSuchNode) => {
                    &&& (a == 0 || !old(self).model().live(a as int))
                    &&& *final(self) == *old(self)
                },
                Err(GraphError::PortOccupied) => {
                    &&& old(self).model().has_producer(0, 0)
                    &&& *final(self) == *old(self)
                },
                Err(GraphError::WouldCycle) => {
                    &&& old(self).model().reaches(0, a as int)
                    &&& *final(self) == *old(self)
                },
                Err(_) => false,
            },
    {
        self.connect_ex_ex_port(a, 0, 0)
    }

    /// Connects an existing node (`src`) into a new node (`dest`).
    /// `dest_port` determines the port of `dest` that `src` connects to.
    ///
    /// Returns the index of `dest`.
    pub fn connect_ex_new_port(&mut self, src: usize, dest: Node, dest_port: usize) -> (r: Result<
        usize,
        GraphError,
    >)
        requires
            old(self).wf(),
        ensures
            final(self).wf(),
            match r {
                Ok(id) => {
                    &&& src != 0
                    &&& old(self).model().live(src as int)
                    &&& (dest_port as int) < dest.arity_spec()
                    &&& final(self).insert_connect_in_post(old(self), id, dest, src, dest_port)
                },
                Err(GraphError::NoSuchNode) => {
                    &&& (src == 0 || !old(self).model().live(src as int))
                    &&& *final(self) == *old(self)
                },
                Err(GraphError::NoSuchPort) => {
                    &&& src != 0
                    &&& old(self).model().live(src as int)
                    &&& (dest_port as int) >= dest.arity_spec()
                    &&& *final(self) == *old(self)
                },
                Err(_) => false,
            },
    {
        let ghost pre = *self;
        let src_ok = if src != 0 && src < self.nodes.len() {
            match &self.nodes[src] {
                Some(_) => true,
                None => false,
            }
        } else {
            false
        };
        if !src_ok {
            return Err(GraphError::NoSuchNode);
        }
        if dest_port >= dest.arity() {
            return Err(GraphError::NoSuchPort);
        }
        let ghost n = dest;
        let id = self.insert(dest);
        let ghost mid = *self;
        proof {
            let mm = mid.model();
            assert(mm.live(src as int) && mm.live(id as int));
            assert(id != 0);
            assert(!mm.has_producer(id as int, dest_port as int)) by {
                if mm.has_producer(id as int, dest_port as int) {
                    crate::model::lemma_producer_edge_props(mm, id as int, dest_port as int);
                    let pe = mm.producer_edge(id as int, dest_port as int);
                    assert(pre.model().edge_live(pe));
                    assert(pre.model().live(pre.model().edge(pe).dst as int));
                }
            }
            assert(!mm.reaches(id as int, src as int)) by {
                assert forall|e: int| #[trigger] mm.edge_live(e) implies mm.edge(e).src as int != (
                id as int) by {
                    assert(pre.model().edge_live(e));
                    assert(pre.model().live(pre.model().edge(e).src as int));
                }
                crate::model::lemma_no_outgoing_unreaches(mm, id as int, src as int);
            }
        }
        let r = self.connect_ex_ex_port(src, id, dest_port);
        match r {
            Ok(_) => {
                proof {
                    assert(self.model() =~= (GraphModel {
                        slots: pre.model().slots.push(Some(n)),
                        edges: pre.model().edges.push(
                            Some(Edge { src, dst: id, port: dest_port }),
                        ),
                        rate: pre.model().rate,
                    }));
                    assert(self.containers_insert_post(&pre, id));
                }
                Ok(id)
            },
            Err(_) => vstd::pervasive::unreached(),
        }
    }

    /// Connects an existing node (`src`) into a new node (`dest`).
    /// `src` will always connect to port 0 of `dest`.
    ///
    /// Returns the index of `dest`.
    pub fn connect_ex_new(&mut self, src: usize, dest: Node) -> (r: Result<usize, GraphError>)
        requires
            old(self).wf(),
        ensures
            final(self).wf(),
            match r {
                Ok(id) => {
                    &&& src != 0
                    &&& old(self).model().live(src as int)
                    &&& dest.arity_spec() >= 1
                    &&& final(self).insert_connect_in_post(old(self), id, dest, src, 0)
                },
                Err(GraphError::NoSuchNode) => {
                    &&& (src == 0 || !old(self).model().live(src as int))
                    &&& *final(self) == *old(self)
                },
                Err(GraphError::NoSuchPort) => {
                    &&& dest.arity_spec() == 0
                    &&& *final(self) == *old(self)
                },
                Err(_) => false,
            },
    {
        self.connect_ex_new_port(src, dest, 0)
    }

    /// Connects a new node (`src`) into an existing node (`dest`).
    /// `dest_port` determines the port of `dest` that `src` connects to.
    ///
    /// Returns the index of `src`.
    pub fn connect_new_ex_port(&mut self, src: Node, dest: usize, dest_port: usize) -> (r: Result<
        usize,
        GraphError,
    >)
        requires
            old(self).wf(),
        ensures
            final(self).wf(),
            match r {
                Ok(id) => {
                    &&& old(self).model().live(dest as int)
                    &&& old(self).port_in_range(dest as int, dest_port as int)
                    &&& !old(self).model().has_producer(dest as int, dest_port as int)
                    &&& final(self).insert_connect_out_post(old(self), id, src, dest, dest_port)
                },
                Err(GraphError::NoSuchNode) => {
                    &&& !old(self).model().live(dest as int)
                    &&& *final(self) == *old(self)
                },
                Err(GraphError::NoSuchPort) => {
                    &&& old(self).model().live(dest as int)
                    &&& !old(self).port_in_range(dest as int, dest_port as int)
                    &&& *final(self) == *old(self)
                },
                Err(GraphError::PortOccupied) => {
                    &&& old(self).model().live(dest as int)
                    &&& old(self).port_in_range(dest as int, dest_port as int)
                    &&& old(self).model().has_producer(dest as int, dest_port as int)
                    &&& *final(self) == *old(self)
                },
                Err(_) => false,
            },
    {
        let ghost pre = *self;
        let dest_ok = if dest < self.nodes.len() {
            match &self.nodes[dest] {
                Some(_) => true,
                None => false,
            }
        } else {
            false
        };
        if !dest_ok {
            return Err(GraphError::NoSuchNode);
        }
        let port_ok = if dest == 0 {
            dest_port == 0
        } else {
            let arity = match &self.nodes[dest] {
                Some(nd) => nd.node.arity(),
                None => vstd::pervasive::unreached(),
            };
            dest_port < arity
        };
        if !port_ok {
            return Err(GraphError::NoSuchPort);
        }
        match self.find_port_edge(dest, dest_port) {
            Some(_) => {
                return Err(GraphError::PortOccupied);
            },
            None => {},
        }
        let ghost n = src;
        let id = self.insert(src);
        let ghost mid = *self;
        proof {
            let mm = mid.model();
            assert(mm.live(dest as int) && mm.live(id as int));
            assert(id != 0 && dest != id);
            assert(!mm.has_producer(dest as int, dest_port as int)) by {
                if mm.has_producer(dest as int, dest_port as int) {
                    crate::model::lemma_producer_edge_props(mm, dest as int, dest_port as int);
                    let pe = mm.producer_edge(dest as int, dest_port as int);
                    assert(pre.model().edge_live(pe));
                    assert(pre.model().has_producer(dest as int, dest_port as int));
                }
            }
            assert(!mm.reaches(dest as int, id as int)) by {
                assert forall|e: int| #[trigger] mm.edge_live(e) implies mm.edge(e).dst as int != (
                id as int) by {
                    assert(pre.model().edge_live(e));
                    assert(pre.model().live(pre.model().edge(e).dst as int));
                }
                crate::model::lemma_no_incoming_unreached(mm, dest as int, id as int);
            }
        }
        let r = self.connect_ex_ex_port(id, dest, dest_port);
        match r {
            Ok(_) => {
                proof {
                    assert(self.model() =~= (GraphModel {
                        slots: pre.model().slots.push(Some(n)),
                        edges: pre.model().edges.push(
                            Some(Edge { src: id, dst: dest, port: dest_port }),
                        ),
                        rate: pre.model().rate,
                    }));
                    assert(self.containers_insert_post(&pre, id));
                }
                Ok(id)
            },
            Err(_) => vstd::pervasive::unreached(),
        }
    }

    /// Connects a new node (`src`) into an existing node (`dest`).
    /// `src` will always connect to port 0 of `dest`.
    ///
    /// Returns the index of `src`.
    pub fn connect_new_ex(&mut self, src: Node, dest: usize) -> (r: Result<usize, GraphError>)
        requires
            old(self).wf(),
        ensures
            final(self).wf(),
            match r {
                Ok(id) => {
                    &&& old(self).model().live(dest as int)
                    &&& old(self).port_in_range(dest as int, 0)
                    &&& !old(self).model().has_producer(dest as int, 0)
                    &&& final(self).insert_connect_out_post(old(self), id, src, dest, 0)
                },
                Err(GraphError::NoSuchNode) => {
                    &&& !old(self).model().live(dest as int)
                    &&& *final(self) == *old(self)
                },
                Err(GraphError::NoSuchPort) => {
                    &&& !old(self).port_in_range(dest as int, 0)
                    &&& *final(self) == *old(self)
                },
                Err(GraphError::PortOccupied) => {
                    &&& old(self).model().has_producer(dest as int, 0)
                    &&& *final(self) == *old(self)
                },
                Err(_) => false,
            },
    {
        self.connect_new_ex_port(src, dest, 0)
    }

    /// What a successful insert-two-then-wire call did: `a` holds the new
    /// source, `b` the new destination, and one edge joins them.
    pub open spec fn insert_two_connect_post(
        &self,
        pre: &ControlGraph,
        a: usize,
        b: usize,
        nsrc: Node,
        ndest: Node,
        port: usize,
    ) -> bool {
        &&& a as int == pre.model().slots.len()
        &&& b as int == a as int + 1
        &&& self.model() == (GraphModel {
            slots: pre.model().slots.push(Some(nsrc)).push(Some(ndest)),
            edges: pre.model().edges.push(Some(Edge { src: a, dst: b, port })),
            rate: pre.model().rate,
        })
        &&& self.phase() == pre.phase()
        &&& !self.cache_ok()
        &&& self.containers_idents() == pre.containers_idents()
        &&& self.containers_children() == pre.containers_children()
        &&& self.containers_stack() == pre.containers_stack()
        &&& self.containers_members().len() == pre.containers_members().len()
        &&& forall|j: int|
            0 <= j < pre.containers_members().len() ==> #[trigger] self.containers_members()[j]
                == if (exists|q: int|
                0 <= q < pre.containers_stack().len() && (#[trigger] pre.containers_stack()[q]
                    as int) == j) {
                pre.containers_members()[j].push(a).push(b)
            } else {
                pre.containers_members()[j]
            }
    }

    /// Connects a new node (`src`) into a new node (`dest`). `dest_port`
    /// determines the port of `dest` that `src` will connect to.
    ///
    /// Returns the indexes of (`src`, `dest`).
    pub fn connect_new_new_port(&mut self, src: Node, dest: Node, dest_port: usize) -> (r: Result<
        (usize, usize),
        GraphError,
    >)
        requires
            old(self).wf(),
        ensures
            final(self).wf(),
            match r {
                Ok(ab) => {
                    &&& (dest_port as int) < dest.arity_spec()
                    &&& final(self).insert_two_connect_post(
                        old(self),
                        ab.0,
                        ab.1,
                        src,
                        dest,
                        dest_port,
                    )
                },
                Err(GraphError::NoSuchPort) => {
                    &&& (dest_port as int) >= dest.arity_spec()
                    &&& *final(self) == *old(self)
                },
                Err(_) => false,
            },
    {
        let ghost pre = *self;
        if dest_port >= dest.arity() {
            return Err(GraphError::NoSuchPort);
        }
        let ghost nsrc = src;
        let ghost ndest = dest;
        let a = self.insert(src);
        let ghost mid1 = *self;
        let b = self.insert(dest);
        let ghost mid2 = *self;
        proof {
            let mm = mid2.model();
            assert(mm.live(a as int) && mm.live(b as int));
            assert(a != 0 && b != 0 && a != b);
            assert(!mm.has_producer(b as int, dest_port as int)) by {
                if mm.has_producer(b as int, dest_port as int) {
                    crate::model::lemma_producer_edge_props(mm, b as int, dest_port as int);
                    let pe = mm.producer_edge(b as int, dest_port as int);
                    assert(pre.model().edge_live(pe));
                    assert(pre.model().live(pre.model().edge(pe).dst as int));
                }
            }
            assert(!mm.reaches(b as int, a as int)) by {
                assert forall|e: int| #[trigger] mm.edge_live(e) implies mm.edge(e).src as int != (
                b as int) by {
                    assert(pre.model().edge_live(e));
                    assert(pre.model().live(pre.model().edge(e).src as int));
                }
                crate::model::lemma_no_outgoing_unreaches(mm, b as int, a as int);
            }
        }
        let r = self.connect_ex_ex_port(a, b, dest_port);
        match r {
            Ok(_) => {
                proof {
                    assert(self.model() =~= (GraphModel {
                        slots: pre.model().slots.push(Some(nsrc)).push(Some(ndest)),
                        edges: pre.model().edges.push(
                            Some(Edge { src: a, dst: b, port: dest_port }),
                        ),
                        rate: pre.model().rate,
                    }));
                    assert forall|j: int|
                        0 <= j < pre.containers_members().len() implies #[trigger] self
                        .containers_members()[j] == if (exists|q: int|
                        0 <= q < pre.containers_stack().len() && (
                        #[trigger] pre.containers_stack()[q] as int) == j) {
                        pre.containers_members()[j].push(a).push(b)
                    } else {
                        pre.containers_members()[j]
                    } by {
                        assert(mid1.containers_members()[j] == if (exists|q: int|
                            0 <= q < pre.containers_stack().len() && (
                            #[trigger] pre.containers_stack()[q] as int) == j) {
                            pre.containers_members()[j].push(a)
                        } else {
                            pre.containers_members()[j]
                        });
                    }
                }
                Ok((a, b))
            },
            Err(_) => vstd::pervasive::unreached(),
        }
    }

    /// Connects a new node (`src`) into a new node (`dest`). `src` will
    /// always connect to port 0 of `dest`.
    ///
    /// Returns the indexes of (`src`, `dest`).
    pub fn connect_new_new(&mut self, src: Node, dest: Node) -> (r: Result<
        (usize, usize),
        GraphError,
    >)
        requires
            old(self).wf(),
        ensures
            final(self).wf(),
            match r {
                Ok(ab) => {
                    &&& dest.arity_spec() >= 1
                    &&& final(self).insert_two_connect_post(old(self), ab.0, ab.1, src, dest, 0)
                },
                Err(GraphError::NoSuchPort) => {
                    &&& dest.arity_spec() == 0
                    &&& *final(self) == *old(self)
                },
                Err(_) => false,
            },
    {
        self.connect_new_new_port(src, dest, 0)
    }

    /// Connects a new node containing a constant scalar (`src`, broadcast
    /// to both channels) into a new node (`dest`), at port `dest_port`.
    ///
    /// Returns the index of `dest`.
    pub fn connect_const_new_port(&mut self, src: u64, dest: Node, dest_port: usize) -> (r: Result<
        usize,
        GraphError,
    >)
        requires
            old(self).wf(),
        ensures
            final(self).wf(),
            match r {
                Ok(id) => {
                    &&& (dest_port as int) < dest.arity_spec()
                    &&& final(self).insert_two_connect_post(
                        old(self),
                        (id - 1) as usize,
                        id,
                        Node::Const(crate::node::Const(Sample { l: src, r: src })),
                        dest,
                        dest_port,
                    )
                },
                Err(GraphError::NoSuchPort) => {
                    &&& (dest_port as int) >= dest.arity_spec()
                    &&& *final(self) == *old(self)
                },
                Err(_) => false,
            },
    {
        let cn = Node::Const(crate::node::c(src));
        match self.connect_new_new_port(cn, dest, dest_port) {
            Ok((_, b)) => Ok(b),
            Err(e) => Err(e),
        }
    }

    /// Connects a new node containing a constant scalar (`src`) into a new
    /// node (`dest`), at port 0.
    ///
    /// Returns the index of `dest`.
    pub fn connect_const_new(&mut self, src: u64, dest: Node) -> (r: Result<usize, GraphError>)
        requires
            old(self).wf(),
        ensures
            final(self).wf(),
            match r {
                Ok(id) => {
                    &&& dest.arity_spec() >= 1
                    &&& final(self).insert_two_connect_post(
                        old(self),
                        (id - 1) as usize,
                        id,
                        Node::Const(crate::node::Const(Sample { l: src, r: src })),
                        dest,
                        0,
                    )
                },
                Err(GraphError::NoSuchPort) => {
                    &&& dest.arity_spec() == 0
                    &&& *final(self) == *old(self)
                },
                Err(_) => false,
            },
    {
        self.connect_const_new_port(src, dest, 0)
    }

    /// Connects a new node containing a constant scalar (`src`) into an
    /// existing node (`dest`), at port `dest_port`.
    ///
    /// Returns the index of the new constant node.
    pub fn connect_const_ex_port(&mut self, src: u64, dest: usize, dest_port: usize) -> (r: Result<
        usize,
        GraphError,
    >)
        requires
            old(self).wf(),
        ensures
            final(self).wf(),
            match r {
                Ok(id) => {
                    &&& old(self).model().live(dest as int)
                    &&& old(self).port_in_range(dest as int, dest_port as int)
                    &&& !old(self).model().has_producer(dest as int, dest_port as int)
                    &&& final(self).insert_connect_out_post(
                        old(self),
                        id,
                        Node::Const(crate::node::Const(Sample { l: src, r: src })),
                        dest,
                        dest_port,
                    )
                },
                Err(GraphError::NoSuchNode) => {
                    &&& !old(self).model().live(dest as int)
                    &&& *final(self) == *old(self)
                },
                Err(GraphError::NoSuchPort) => {
                    &&& !old(self).port_in_range(dest as int, dest_port as int)
                    &&& *final(self) == *old(self)
                },
                Err(GraphError::PortOccupied) => {
                    &&& old(self).model().has_producer(dest as int, dest_port as int)
                    &&& *final(self) == *old(self)
                },
                Err(_) => false,
            },
    {
        let cn = Node::Const(crate::node::c(src));
        self.connect_new_ex_port(cn, dest, dest_port)
    }

    /// Connects a new node containing a constant scalar (`src`) into an
    /// existing node (`dest`), at port 0.
    ///
    /// Returns the index of the new constant node.
    pub fn connect_const_ex(&mut self, src: u64, dest: usize) -> (r: Result<usize, GraphError>)
        requires
            old(self).wf(),
        ensures
            final(self).wf(),
            match r {
                Ok(id) => {
                    &&& old(self).model().live(dest as int)
                    &&& old(self).port_in_range(dest as int, 0)
                    &&& !old(self).model().has_producer(dest as int, 0)
                    &&& final(self).insert_connect_out_post(
                        old(self),
                        id,
                        Node::Const(crate::node::Const(Sample { l: src, r: src })),
                        dest,
                        0,
                    )
                },
                Err(GraphError::NoSuchNode) => {
                    &&& !old(self).model().live(dest as int)
                    &&& *final(self) == *old(self)
                },
                Err(GraphError::NoSuchPort) => {
                    &&& !old(self).port_in_range(dest as int, 0)
                    &&& *final(self) == *old(self)
                },
                Err(GraphError::PortOccupied) => {
                    &&& old(self).model().has_producer(dest as int, 0)
                    &&& *final(self) == *old(self)
                },
                Err(_) => false,
            },
    {
        self.connect_const_ex_port(src, dest, 0)
    }

    /// Connects many existing nodes (`srcs`) into a new node (`dest`):
    /// `srcs[0]` to port 0 of `dest`, `srcs[1]` to port 1, and so on.
    ///
    /// Returns the index of `dest`.
    pub fn connect_many_new(&mut self, srcs: &[usize], dest: Node) -> (r: Result<
        usize,
        GraphError,
    >)
        requires
            old(self).wf(),
        ensures
            final(self).wf(),
            match r {
                Ok(id) => {
                    &&& forall|i: int|
                        0 <= i < srcs@.len() ==> (#[trigger] srcs@[i]) != 0 && old(
                            self,
                        ).model().live(srcs@[i] as int)
                    &&& srcs@.len() <= dest.arity_spec()
                    &&& id as int == old(self).model().slots.len()
                    &&& final(self).model() == (GraphModel {
                        slots: old(self).model().slots.push(Some(dest)),
                        edges: old(self).model().edges + Seq::new(
                            srcs@.len(),
                            |i: int| Some(Edge { src: srcs@[i], dst: id, port: i as usize }),
                        ),
                        rate: old(self).model().rate,
                    })
                    &&& final(self).phase() == old(self).phase()
                    &&& !final(self).cache_ok()
                    &&& final(self).containers_insert_post(old(self), id)
                },
                Err(GraphError::NoSuchNode) => {
                    &&& exists|i: int|
                        0 <= i < srcs@.len() && ((#[trigger] srcs@[i]) == 0 || !old(
                            self,
                        ).model().live(srcs@[i] as int))
                    &&& *final(self) == *old(self)
                },
                Err(GraphError::NoSuchPort) => {
                    &&& forall|i: int|
                        0 <= i < srcs@.len() ==> (#[trigger] srcs@[i]) != 0 && old(
                            self,
                        ).model().live(srcs@[i] as int)
                    &&& srcs@.len() > dest.arity_spec()
                    &&& *final(self) == *old(self)
                },
                Err(_) => false,
            },
    {
        let ghost pre = *self;
        let mut v: usize = 0;
        while v < srcs.len()
            invariant
                *self == pre,
                pre.wf(),
                v <= srcs@.len(),
                forall|i: int|
                    0 <= i < v ==> (#[trigger] srcs@[i]) != 0 && pre.model().live(srcs@[i] as int),
            decreases srcs@.len() - v,
        {
            let sv = srcs[v];
            let ok = if sv != 0 && sv < self.nodes.len() {
                match &self.nodes[sv] {
                    Some(_) => true,
                    None => false,
                }
            } else {
                false
            };
            if !ok {
                return Err(GraphError::NoSuchNode);
            }
            v += 1;
        }
        if srcs.len() > dest.arity() {
            return Err(GraphError::NoSuchPort);
        }
        let ghost n = dest;
        let id = self.insert(dest);
        let ghost mid = *self;
        let mut i: usize = 0;
        while i < srcs.len()
            invariant
                self.wf(),
                pre.wf(),
                mid.wf(),
                i <= srcs@.len(),
                srcs@.len() <= n.arity_spec(),
                id != 0,
                id as int == pre.model().slots.len(),
                mid.model() == (GraphModel {
                    slots: pre.model().slots.push(Some(n)),
                    edges: pre.model().edges,
                    rate: pre.model().rate,
                }),
                forall|q: int|
                    0 <= q < srcs@.len() ==> (#[trigger] srcs@[q]) != 0 && pre.model().live(
                        srcs@[q] as int,
                    ),
                self.model() == (GraphModel {
                    slots: pre.model().slots.push(Some(n)),
                    edges: pre.model().edges + Seq::new(
                        i as nat,
                        |q: int| Some(Edge { src: srcs@[q], dst: id, port: q as usize }),
                    ),
                    rate: pre.model().rate,
                }),
                self.phase() == mid.phase(),
                self.slots() == mid.slots(),
                self.containers_idents() == mid.containers_idents(),
                self.containers_members() == mid.containers_members(),
                self.containers_children() == mid.containers_children(),
                self.containers_stack() == mid.containers_stack(),
                !self.cache_ok(),
                self.model().kind(id as int) == n,
            decreases srcs@.len() - i,
        {
            let sv = srcs[i];
            let ghost cur = *self;
            let ghost cm = cur.model();
            proof {
                assert(cm.live(sv as int)) by {
                    assert(pre.model().live(sv as int));
                }
                assert(cm.live(id as int));
                assert((i as int) < cm.kind(id as int).arity_spec());
                assert(!cm.has_producer(id as int, i as int)) by {
                    if cm.has_producer(id as int, i as int) {
                        crate::model::lemma_producer_edge_props(cm, id as int, i as int);
                        let pe = cm.producer_edge(id as int, i as int);
                        if pe < pre.model().edges.len() {
                            assert(pre.model().edge_live(pe));
                            assert(pre.model().live(pre.model().edge(pe).dst as int));
                        } else {
                            assert(cm.edge(pe).port as int == pe - pre.model().edges.len());
                        }
                    }
                }
                assert(!cm.reaches(id as int, sv as int)) by {
                    assert forall|e: int| #[trigger] cm.edge_live(e) implies cm.edge(e).src as int
                        != (id as int) by {
                        if e < pre.model().edges.len() {
                            assert(pre.model().edge_live(e));
                            assert(pre.model().live(pre.model().edge(e).src as int));
                        } else {
                            assert(cm.edge(e).src as int == srcs@[e - pre.model().edges.len()]
                                as int);
                            assert(pre.model().live(srcs@[e - pre.model().edges.len()] as int));
                        }
                    }
                    crate::model::lemma_no_outgoing_unreaches(cm, id as int, sv as int);
                }
            }
            let r = self.connect_ex_ex_port(sv, id, i);
            match r {
                Ok(_) => {
                    proof {
                        assert(self.model().edges =~= pre.model().edges + Seq::new(
                            (i + 1) as nat,
                            |q: int| Some(Edge { src: srcs@[q], dst: id, port: q as usize }),
                        ));
                        assert(self.model() =~= (GraphModel {
                            slots: pre.model().slots.push(Some(n)),
                            edges: pre.model().edges + Seq::new(
                                (i + 1) as nat,
                                |q: int| Some(Edge { src: srcs@[q], dst: id, port: q as usize }),
                            ),
                            rate: pre.model().rate,
                        }));
                    }
                },
                Err(_) => {
                    proof {
                        assert(false);
                    }
                },
            }
            i += 1;
        }
        proof {
            assert(self.model().edges =~= pre.model().edges + Seq::new(
                srcs@.len(),
                |q: int| Some(Edge { src: srcs@[q], dst: id, port: q as usize }),
            ));
            assert(self.containers_insert_post(&pre, id));
        }
        Ok(id)
    }

    /// A stopped many-edge wiring call: the first `k` edges stand, and the
    /// `k`-th requested edge was rejected for reason `e` against the state
    /// they produced.
    pub open spec fn many_ex_stopped(
        &self,
        pre: &ControlGraph,
        srcs: Seq<usize>,
        dest: usize,
        e: GraphError,
        k: int,
    ) -> bool {
        &&& 0 <= k < srcs.len()
        &&& self.model() == (GraphModel {
            edges: pre.model().edges + Seq::new(
                k as nat,
                |i: int| Some(Edge { src: srcs[i], dst: dest, port: i as usize }),
            ),
            ..pre.model()
        })
        &&& self.slots() == pre.slots()
        &&& self.phase() == pre.phase()
        &&& match e {
            GraphError::NoSuchNode => srcs[k] == 0 || !self.model().live(srcs[k] as int)
                || !self.model().live(dest as int),
            GraphError::NoSuchPort => !self.port_in_range(dest as int, k),
            GraphError::PortOccupied => self.model().has_producer(dest as int, k),
            GraphError::WouldCycle => self.model().reaches(dest as int, srcs[k] as int),
            _ => false,
        }
    }

    /// Connects many existing nodes (`srcs`) into another existing node
    /// (`dest`): `srcs[0]` to port 0 of `dest`, `srcs[1]` to port 1, and so
    /// on. Stops at the first rejected edge, leaving the edges wired so
    /// far in place.
    pub fn connect_many_ex(&mut self, srcs: &[usize], dest: usize) -> (r: Result<(), GraphError>)
        requires
            old(self).wf(),
        ensures
            final(self).wf(),
            match r {
                Ok(_) => {
                    &&& final(self).model() == (GraphModel {
                        edges: old(self).model().edges + Seq::new(
                            srcs@.len(),
                            |i: int| Some(Edge { src: srcs@[i], dst: dest, port: i as usize }),
                        ),
                        ..old(self).model()
                    })
                    &&& final(self).slots() == old(self).slots()
                    &&& final(self).phase() == old(self).phase()
                    &&& (srcs@.len() > 0 ==> !final(self).cache_ok())
                    &&& final(self).containers_idents() == old(self).containers_idents()
                    &&& final(self).containers_members() == old(self).containers_members()
                    &&& final(self).containers_children() == old(self).containers_children()
                    &&& final(self).containers_stack() == old(self).containers_stack()
                },
                Err(e) => exists|k: int|
                    #![trigger srcs@[k]]
                    final(self).many_ex_stopped(&*old(self), srcs@, dest, e, k),
            },
    {
        let ghost pre = *self;
        let mut i: usize = 0;
        while i < srcs.len()
            invariant
                self.wf(),
                pre.wf(),
                pre == *old(self),
                i <= srcs@.len(),
                self.model() == (GraphModel {
                    edges: pre.model().edges + Seq::new(
                        i as nat,
                        |q: int| Some(Edge { src: srcs@[q], dst: dest, port: q as usize }),
                    ),
                    ..pre.model()
                }),
                self.slots() == pre.slots(),
                self.phase() == pre.phase(),
                i > 0 ==> !self.cache_ok(),
                i == 0 ==> *self == pre,
                self.containers_idents() == pre.containers_idents(),
                self.containers_members() == pre.containers_members(),
                self.containers_children() == pre.containers_children(),
                self.containers_stack() == pre.containers_stack(),
            decreases srcs@.len() - i,
        {
            let sv = srcs[i];
            let ghost cur = *self;
            let r = self.connect_ex_ex_port(sv, dest, i);
            match r {
                Ok(_) => {
                    proof {
                        assert(self.model().edges =~= pre.model().edges + Seq::new(
                            (i + 1) as nat,
                            |q: int| Some(Edge { src: srcs@[q], dst: dest, port: q as usize }),
                        ));
                        assert(self.model() =~= (GraphModel {
                            edges: pre.model().edges + Seq::new(
                                (i + 1) as nat,
                                |q: int| Some(Edge { src: srcs@[q], dst: dest, port: q as usize }),
                            ),
                            ..pre.model()
                        }));
                    }
                },
                Err(e) => {
                    proof {
                        assert(srcs@[i as int] == sv);
                        assert(*self == cur);
                        assert((i as int) < srcs@.len());
                        assert(self.model() == (GraphModel {
                            edges: pre.model().edges + Seq::new(
                                i as nat,
                                |q: int| Some(Edge { src: srcs@[q], dst: dest, port: q as usize }),
                            ),
                            ..pre.model()
                        }));
                        assert(self.slots() == pre.slots());
                        assert(self.phase() == pre.phase());
                        match e {
                            GraphError::NoSuchNode => {
                                assert(sv == 0 || !self.model().live(sv as int)
                                    || !self.model().live(dest as int));
                            },
                            GraphError::NoSuchPort => {
                                assert(!self.port_in_range(dest as int, i as int));
                            },
                            GraphError::PortOccupied => {
                                assert(self.model().has_producer(dest as int, i as int));
                            },
                            GraphError::WouldCycle => {
                                assert(self.model().reaches(dest as int, sv as int));
                            },
                            _ => {
                                assert(false);
                            },
                        }
                        assert(self.many_ex_stopped(&pre, srcs@, dest, e, i as int));
                        assert(exists|k: int|
                            #![trigger srcs@[k]]
                            self.many_ex_stopped(&pre, srcs@, dest, e, k));
                    }
                    return Err(e);
                },
            }
            i += 1;
        }
        Ok(())
    }

    /// Returns the number of node slots ever allocated, holes included:
    /// the least handle no node has been given yet.
    pub fn node_slot_count(&self) -> (n: usize)
        ensures
            n as int == self.model().slots.len(),
    {
        self.nodes.len()
    }

    /// Returns all live node indexes in the control graph, in ascending
    /// order.
    pub fn get_node_indexes(&self) -> (r: Vec<usize>)
        ensures
            forall|k: int|
                0 <= k < r@.len() ==> self.model().live(#[trigger] r@[k] as int),
            forall|k1: int, k2: int|
                #![trigger r@[k1], r@[k2]]
                0 <= k1 < k2 < r@.len() ==> r@[k1] < r@[k2],
            forall|q: int|
                0 <= q < self.slots().len() && #[trigger] self.model().live(q) ==> r@.contains(
                    q as usize,
                ),
    {
        let mut r: Vec<usize> = Vec::new();
        let mut q: usize = 0;
        while q < self.nodes.len()
            invariant
                q <= self.slots().len(),
                forall|k: int|
                    0 <= k < r@.len() ==> self.model().live(#[trigger] r@[k] as int) && (r@[k]
                        as int) < q,
                forall|k1: int, k2: int|
                    #![trigger r@[k1], r@[k2]]
                    0 <= k1 < k2 < r@.len() ==> r@[k1] < r@[k2],
                forall|j: int|
                    0 <= j < q && #[trigger] self.model().live(j) ==> r@.contains(j as usize),
            decreases self.slots().len() - q,
        {
            let live = match &self.nodes[q] {
                Some(_) => true,
                None => false,
            };
            if live {
                let ghost r0 = r@;
                r.push(q);
                proof {
                    assert(r@[r@.len() - 1] == q);
                    assert forall|j: int|
                        0 <= j < q + 1 && #[trigger] self.model().live(j) implies r@.contains(
                        j as usize,
                    ) by {
                        if j < q {
                            let k = choose|k: int| 0 <= k < r0.len() && r0[k] == (j as usize);
                            assert(r@[k] == (j as usize));
                        } else {
                            assert(r@[r@.len() - 1] == (j as usize));
                        }
                    }
                }
            }
            q += 1;
        }
        r
    }

    /// Returns the operator in a live node's slot.
    pub fn get_node(&self, id: usize) -> (r: Option<&Node>)
        ensures
            match r {
                Some(n) => self.model().live(id as int) && *n == self.model().kind(id as int),
                None => !self.model().live(id as int),
            },
    {
        if id >= self.nodes.len() {
            return None;
        }
        match &self.nodes[id] {
            Some(nd) => Some(&nd.node),
            None => None,
        }
    }

    /// Returns the record of a live node: its operator, arena offset,
    /// generation and last computed value.
    pub fn get_node_record(&self, id: usize) -> (r: Option<&NodeData>)
        ensures
            match r {
                Some(nd) => self.model().live(id as int) && *nd == self.record(id as int),
                None => !self.model().live(id as int),
            },
    {
        if id >= self.nodes.len() {
            return None;
        }
        match &self.nodes[id] {
            Some(nd) => Some(nd),
            None => None,
        }
    }

    /// Returns the neighbors of the specified node on the given side, in
    /// ascending edge order: for `Incoming` the producers feeding it, for
    /// `Outgoing` the consumers it feeds; `node_index` names the other
    /// endpoint and `dest_port_id` the consumer port of the edge.
    pub fn get_node_neighbors(&self, node: usize, direction: Direction) -> (r: Vec<Neighbor>)
        ensures
            forall|k: int|
                0 <= k < r@.len() ==> {
                    let nb = #[trigger] r@[k];
                    &&& self.model().edge_live(nb.edge_index as int)
                    &&& nb.dest_port_id == self.model().edge(nb.edge_index as int).port
                    &&& if direction is Incoming {
                        self.model().edge(nb.edge_index as int).dst == node && nb.node_index
                            == self.model().edge(nb.edge_index as int).src
                    } else {
                        self.model().edge(nb.edge_index as int).src == node && nb.node_index
                            == self.model().edge(nb.edge_index as int).dst
                    }
                },
            forall|k1: int, k2: int|
                #![trigger r@[k1], r@[k2]]
                0 <= k1 < k2 < r@.len() ==> r@[k1].edge_index < r@[k2].edge_index,
            forall|e: int|
                #[trigger] self.model().edge_live(e) && (if direction is Incoming {
                    self.model().edge(e).dst == node
                } else {
                    self.model().edge(e).src == node
                }) ==> exists|k: int| 0 <= k < r@.len() && (#[trigger] r@[k]).edge_index as int == e,
    {
        let mut r: Vec<Neighbor> = Vec::new();
        let mut e: usize = 0;
        while e < self.edges.len()
            invariant
                e <= self.edge_slots().len(),
                forall|k: int|
                    0 <= k < r@.len() ==> {
                        let nb = #[trigger] r@[k];
                        &&& self.model().edge_live(nb.edge_index as int)
                        &&& (nb.edge_index as int) < e
                        &&& nb.dest_port_id == self.model().edge(nb.edge_index as int).port
                        &&& if direction is Incoming {
                            self.model().edge(nb.edge_index as int).dst == node && nb.node_index
                                == self.model().edge(nb.edge_index as int).src
                        } else {
                            self.model().edge(nb.edge_index as int).src == node && nb.node_index
                                == self.model().edge(nb.edge_index as int).dst
                        }
                    },
                forall|k1: int, k2: int|
                    #![trigger r@[k1], r@[k2]]
                    0 <= k1 < k2 < r@.len() ==> r@[k1].edge_index < r@[k2].edge_index,
                forall|e2: int|
                    0 <= e2 < e && #[trigger] self.model().edge_live(e2) && (if direction
                        is Incoming {
                        self.model().edge(e2).dst == node
                    } else {
                        self.model().edge(e2).src == node
                    }) ==> exists|k: int|
                        0 <= k < r@.len() && (#[trigger] r@[k]).edge_index as int == e2,
            decreases self.edge_slots().len() - e,
        {
            let hit = match self.edges[e] {
                Some(ed) => {
                    let matches_dir = match direction {
                        Direction::Incoming => ed.dst == node,
                        Direction::Outgoing => ed.src == node,
                    };
                    if matches_dir {
                        Some(
                            Neighbor {
                                node_index: if ed.dst == node {
                                    ed.src
                                } else {
                                    ed.dst
                                },
                                edge_index: e,
                                dest_port_id: ed.port,
                            },
                        )
                    } else {
                        None
                    }
                },
                None => None,
            };
            match hit {
                Some(nb) => {
                    let ghost r0 = r@;
                    r.push(nb);
                    proof {
                        assert(r@[r@.len() - 1] == nb);
                        assert forall|e2: int|
                            0 <= e2 < e + 1 && #[trigger] self.model().edge_live(e2) && (
                            if direction is Incoming {
                                self.model().edge(e2).dst == node
                            } else {
                                self.model().edge(e2).src == node
                            }) implies exists|k: int|
                            0 <= k < r@.len() && (#[trigger] r@[k]).edge_index as int == e2 by {
                            if e2 < e {
                                let k = choose|k: int|
                                    0 <= k < r0.len() && (#[trigger] r0[k]).edge_index as int
                                        == e2;
                                assert(r@[k].edge_index as int == e2);
                            } else {
                                assert(r@[r@.len() - 1].edge_index as int == e2);
                            }
                        }
                    }
                },
                None => {},
            }
            e += 1;
        }
        r
    }

    /// Returns the container tree's child lists; entry zero belongs to the
    /// implicit root.
    pub fn get_container_children(&self) -> (r: &Vec<Vec<usize>>)
        ensures
            r@.len() == self.containers_children().len(),
            forall|j: int|
                0 <= j < r@.len() ==> (#[trigger] r@[j])@ == self.containers_children()[j],
    {
        &self.container_children
    }

    /// Returns a container's member node handles, in insertion order.
    pub fn get_container_member_indexes(&self, i: usize) -> (r: &Vec<usize>)
        requires
            (i as int) < self.containers_members().len(),
        ensures
            r@ == self.containers_members()[i as int],
    {
        &self.container_members[i]
    }

    /// Returns a container's declared name.
    pub fn get_container_ident(&self, i: usize) -> (r: &Vec<char>)
        requires
            (i as int) < self.containers_idents().len(),
        ensures
            r@ == self.containers_idents()[i as int],
    {
        &self.container_idents[i]
    }

    /// Inserts a container: registers it in the container tree as a child
    /// of the innermost open scope (the root if none), opens a scope,
    /// inserts one boundary pass-through node per declared input and
    /// output port, lets the container wire its interior between them,
    /// and closes the scope.
    ///
    /// Returns the boundary input and output handles, which the caller
    /// wires into the surrounding graph exactly as if they were primitive
    /// nodes.
    #[verifier::rlimit(100)]
    pub fn insert_container<C: crate::container::Container>(&mut self, container: C) -> (r: (
        Vec<usize>,
        Vec<usize>,
    ))
        requires
            old(self).wf(),
        ensures
            final(self).wf(),
            ({
                let l = old(self).model().slots.len() as int;
                let nin = container.input_labels_spec().len() as int;
                let nout = container.output_labels_spec().len() as int;
                let l2 = l + nin + nout;
                let f = final(self).model().slots.len() as int;
                let new_idx = old(self).containers_members().len() as int;
                let parent = if old(self).containers_stack().len() > 0 {
                    old(self).containers_stack().last() + 1
                } else {
                    0
                };
                &&& r.0@ == id_range(l, l + nin)
                &&& r.1@ == id_range(l + nin, l2)
                &&& f >= l2
                &&& (exists|mid: GraphModel|
                    {
                        &&& #[trigger] mid.slots.len() == l2
                        &&& (forall|q: int|
                            0 <= q < l ==> #[trigger] mid.slots[q] == old(self).model().slots[q])
                        &&& (forall|k: int|
                            0 <= k < nin ==> (#[trigger] mid.slots[l + k]) is Some
                                && mid.kind(l + k) is ContainerInput && mid.kind(
                                l + k,
                            )->ContainerInput_0.label@ == container.input_labels_spec()[k])
                        &&& (forall|k: int|
                            0 <= k < nout ==> (#[trigger] mid.slots[l + nin + k]) is Some
                                && mid.kind(l + nin + k) is ContainerOutput && mid.kind(
                                l + nin + k,
                            )->ContainerOutput_0.label@ == container.output_labels_spec()[k])
                        &&& mid.edges == old(self).model().edges
                        &&& mid.rate == old(self).model().rate
                        &&& final(self).model() == container.construct_spec(mid, r.0@, r.1@)
                    })
                &&& final(self).containers_idents() == old(self).containers_idents().push(
                    container.ident_spec(),
                )
                &&& final(self).containers_stack() == old(self).containers_stack()
                &&& final(self).containers_children() == old(self).containers_children().update(
                    parent as int,
                    old(self).containers_children()[parent as int].push(new_idx as usize),
                ).push(Seq::<usize>::empty())
                &&& final(self).containers_members().len() == new_idx + 1
                &&& (forall|j: int|
                    0 <= j < new_idx ==> #[trigger] final(self).containers_members()[j] == if (
                    exists|q: int|
                        0 <= q < old(self).containers_stack().len() && (#[trigger] old(
                            self,
                        ).containers_stack()[q] as int) == j) {
                        old(self).containers_members()[j] + id_range(l, f)
                    } else {
                        old(self).containers_members()[j]
                    })
                &&& final(self).containers_members()[new_idx] == id_range(l, f)
                &&& final(self).phase() == old(self).phase()
            }),
    {
        let ghost pre = *self;
        let ghost l = pre.model().slots.len() as int;
        proof {
            pre.lemma_wf_model();
        }
        let ml = self.container_members.len();
        let parent: usize = if self.container_stack.len() > 0 {
            let last = self.container_stack[self.container_stack.len() - 1];
            proof {
                assert((last as int) < ml as int);
            }
            last + 1
        } else {
            0
        };
        let new_idx = ml;
        proof {
            assert((parent as int) < self.container_children@.len());
        }
        self.container_children[parent].push(new_idx);
        self.container_idents.push(container.get_ident());
        self.container_members.push(Vec::new());
        self.container_children.push(Vec::new());
        self.container_stack.push(new_idx);
        let ghost opened = *self;
        proof {
            assert(opened.model() =~= pre.model());
            assert forall|q: int, i: int|
                opened.model().live(q) && 0 <= i < opened.arity_of(q) implies #[trigger] opened
                .arena_entry_ok(q, i) by {
                assert(pre.arena_entry_ok(q, i));
            }
            assert forall|j1: int, j2: int|
                #![trigger opened.containers_stack()[j1], opened.containers_stack()[j2]]
                0 <= j1 < j2 < opened.containers_stack().len() implies (opened.containers_stack()[
                j1] as int) < (opened.containers_stack()[j2] as int) by {
                if j2 < pre.containers_stack().len() {
                } else {
                    assert(opened.containers_stack()[j2] == new_idx);
                    assert((opened.containers_stack()[j1] as int) < pre.containers_members().len());
                }
            }
            assert(opened.containers_ok());
            if opened.cache_ok() {
                assert forall|k: int| 0 <= k < opened.cache_log().len() implies #[trigger] opened
                    .cache_entry_ok(k) by {
                    assert(pre.cache_entry_ok(k));
                }
            }
            assert(opened.wf());
            assert(opened.containers_members()[new_idx as int] =~= Seq::<usize>::empty());
        }
        let mut in_labels = container.get_input_labels();
        let n_in = in_labels.len();
        let ghost nin = n_in as int;
        let mut input_ids: Vec<usize> = Vec::new();
        let mut k: usize = 0;
        while in_labels.len() > 0
            invariant
                self.wf(),
                opened.wf(),
                l == opened.model().slots.len(),
                nin == n_in as int,
                (k as int) + in_labels@.len() == nin,
                forall|q: int|
                    0 <= q < in_labels@.len() ==> (#[trigger] in_labels@[q])@
                        == container.input_labels_spec()[k + q],
                input_ids@ == id_range(l, l + k),
                self.model().slots.len() == l + k,
                self.model().edges == opened.model().edges,
                self.model().rate == opened.model().rate,
                forall|q: int|
                    0 <= q < l ==> #[trigger] self.model().slots[q] == opened.model().slots[q],
                forall|q: int|
                    0 <= q < k ==> (#[trigger] self.model().slots[l + q]) is Some
                        && self.model().kind(l + q) is ContainerInput && self.model().kind(
                        l + q,
                    )->ContainerInput_0.label@ == container.input_labels_spec()[q],
                self.phase() == opened.phase(),
                self.containers_idents() == opened.containers_idents(),
                self.containers_children() == opened.containers_children(),
                self.containers_stack() == opened.containers_stack(),
                self.containers_members().len() == opened.containers_members().len(),
                forall|j: int|
                    0 <= j < opened.containers_members().len() ==> #[trigger] self
                        .containers_members()[j] == if (exists|q: int|
                        0 <= q < opened.containers_stack().len() && (
                        #[trigger] opened.containers_stack()[q] as int) == j) {
                        opened.containers_members()[j] + id_range(l, l + k)
                    } else {
                        opened.containers_members()[j]
                    },
            decreases in_labels@.len(),
        {
            let ghost it0 = *self;
            let lab = in_labels.remove(0);
            let ghost labv = lab@;
            proof {
                assert(labv == container.input_labels_spec()[k as int]);
                assert(nin <= usize::MAX as int);
                assert((k as int) < nin);
            }
            let id = self.insert(Node::ContainerInput(crate::node::ContainerInput { label: lab }));
            input_ids.push(id);
            k += 1;
            proof {
                assert(id as int == l + k - 1);
                assert(input_ids@ =~= id_range(l, l + k));
                assert(self.model().slots[l + k - 1] is Some && self.model().kind(l + k - 1)
                    is ContainerInput && self.model().kind(l + k - 1)->ContainerInput_0.label@
                    == labv);
                assert forall|q: int|
                    0 <= q < k implies (#[trigger] self.model().slots[l + q]) is Some
                    && self.model().kind(l + q) is ContainerInput && self.model().kind(
                    l + q,
                )->ContainerInput_0.label@ == container.input_labels_spec()[q] by {
                    if q < k - 1 {
                        assert(it0.model().slots[l + q] is Some && it0.model().kind(l + q)
                            is ContainerInput && it0.model().kind(l + q)->ContainerInput_0.label@
                            == container.input_labels_spec()[q]);
                        assert(self.slots().len() == it0.slots().len() + 1);
                        assert(0 <= l + q < it0.slots().len());
                        assert(self.slots()[l + q] == it0.slots()[l + q]);
                        assert(self.model().slots[l + q] == it0.model().slots[l + q]);
                    }
                }
                assert forall|j: int|
                    0 <= j < opened.containers_members().len() implies #[trigger] self
                    .containers_members()[j] == if (exists|q: int|
                    0 <= q < opened.containers_stack().len() && (
                    #[trigger] opened.containers_stack()[q] as int) == j) {
                    opened.containers_members()[j] + id_range(l, l + k)
                } else {
                    opened.containers_members()[j]
                } by {
                    if exists|q: int|
                        0 <= q < opened.containers_stack().len() && (
                        #[trigger] opened.containers_stack()[q] as int) == j {
                        assert(self.containers_members()[j] == it0.containers_members()[j].push(
                            id,
                        ));
                        assert(self.containers_members()[j] =~= opened.containers_members()[j]
                            + id_range(l, l + k));
                    } else {
                        assert(self.containers_members()[j] == it0.containers_members()[j]);
                    }
                }
            }
        }
        let ghost after_in = *self;
        proof {
            assert(k as int == nin);
        }
        let mut out_labels = container.get_output_labels();
        let n_out = out_labels.len();
        let ghost nout = n_out as int;
        let mut output_ids: Vec<usize> = Vec::new();
        let mut k2: usize = 0;
        while out_labels.len() > 0
            invariant
                self.wf(),
                opened.wf(),
                after_in.wf(),
                l == opened.model().slots.len(),
                nout == n_out as int,
                nin >= 0,
                k as int == nin,
                (k2 as int) + out_labels@.len() == nout,
                forall|q: int|
                    0 <= q < out_labels@.len() ==> (#[trigger] out_labels@[q])@
                        == container.output_labels_spec()[k2 + q],
                output_ids@ == id_range(l + nin, l + nin + k2),
                after_in.model().slots.len() == l + nin,
                self.model().slots.len() == l + nin + k2,
                self.model().edges == opened.model().edges,
                self.model().rate == opened.model().rate,
                forall|q: int|
                    0 <= q < l + nin ==> #[trigger] self.model().slots[q]
                        == after_in.model().slots[q],
                forall|q: int|
                    0 <= q < k2 ==> (#[trigger] self.model().slots[l + nin + q]) is Some
                        && self.model().kind(l + nin + q) is ContainerOutput && self.model().kind(
                        l + nin + q,
                    )->ContainerOutput_0.label@ == container.output_labels_spec()[q],
                self.phase() == opened.phase(),
                self.containers_idents() == opened.containers_idents(),
                self.containers_children() == opened.containers_children(),
                self.containers_stack() == opened.containers_stack(),
                self.containers_members().len() == opened.containers_members().len(),
                forall|j: int|
                    0 <= j < opened.containers_members().len() ==> #[trigger] self
                        .containers_members()[j] == if (exists|q: int|
                        0 <= q < opened.containers_stack().len() && (
                        #[trigger] opened.containers_stack()[q] as int) == j) {
                        opened.containers_members()[j] + id_range(l, l + nin + k2)
                    } else {
                        opened.containers_members()[j]
                    },
            decreases out_labels@.len(),
        {
            let ghost it0 = *self;
            let lab = out_labels.remove(0);
            let ghost labv = lab@;
            proof {
                assert(labv == container.output_labels_spec()[k2 as int]);
                assert(nout <= usize::MAX as int);
                assert((k2 as int) < nout);
            }
            let id = self.insert(
                Node::ContainerOutput(crate::node::ContainerOutput { label: lab }),
            );
            output_ids.push(id);
            k2 += 1;
            proof {
                assert(id as int == l + nin + k2 - 1);
                assert(output_ids@ =~= id_range(l + nin, l + nin + k2));
                assert(self.model().slots[l + nin + k2 - 1] is Some && self.model().kind(
                    l + nin + k2 - 1,
                ) is ContainerOutput && self.model().kind(
                    l + nin + k2 - 1,
                )->ContainerOutput_0.label@ == labv);
                assert forall|q: int|
                    0 <= q < k2 implies (#[trigger] self.model().slots[l + nin + q]) is Some
                    && self.model().kind(l + nin + q) is ContainerOutput && self.model().kind(
                    l + nin + q,
                )->ContainerOutput_0.label@ == container.output_labels_spec()[q] by {
                    if q < k2 - 1 {
                        assert(it0.model().slots[l + nin + q] is Some && it0.model().kind(
                            l + nin + q,
                        ) is ContainerOutput && it0.model().kind(
                            l + nin + q,
                        )->ContainerOutput_0.label@ == container.output_labels_spec()[q]);
                        assert(self.slots()[l + nin + q] == it0.slots()[l + nin + q]);
                        assert(self.model().slots[l + nin + q] == it0.model().slots[l + nin + q]);
                    }
                }
                assert forall|j: int|
                    0 <= j < opened.containers_members().len() implies #[trigger] self
                    .containers_members()[j] == if (exists|q: int|
                    0 <= q < opened.containers_stack().len() && (
                    #[trigger] opened.containers_stack()[q] as int) == j) {
                    opened.containers_members()[j] + id_range(l, l + nin + k2)
                } else {
                    opened.containers_members()[j]
                } by {
                    if exists|q: int|
                        0 <= q < opened.containers_stack().len() && (
                        #[trigger] opened.containers_stack()[q] as int) == j {
                        assert(self.containers_members()[j] == it0.containers_members()[j].push(
                            id,
                        ));
                        assert(self.containers_members()[j] =~= opened.containers_members()[j]
                            + id_range(l, l + nin + k2));
                    } else {
                        assert(self.containers_members()[j] == it0.containers_members()[j]);
                    }
                }
            }
        }
        let total_len = self.nodes.len();
        let ghost ready = *self;
        let ghost mid = ready.model();
        proof {
            assert(k2 as int == nout);
            assert(total_len as int == mid.slots.len());
            assert(mid.slots.len() == l + nin + nout);
            assert(l + nin + nout <= usize::MAX as int);
            ready.lemma_wf_model();
            assert(l >= 1);
            assert forall|e: int| #[trigger] mid.edge_live(e) implies (mid.edge(e).src as int) < l
                && (mid.edge(e).dst as int) < l && mid.edge(e).src != 0 by {
                assert(pre.model().edge_live(e));
                assert(pre.model().live(pre.model().edge(e).src as int));
                assert(pre.model().live(pre.model().edge(e).dst as int));
                assert(mid.edge(e) == pre.model().edge(e));
            }
            assert forall|nn: usize| l <= nn as int implies crate::container::untouched(
                mid,
                nn,
            ) by {
                assert forall|e: int| #[trigger] mid.edge_live(e) implies mid.edge(e).src != nn
                    && mid.edge(e).dst != nn by {
                    assert((mid.edge(e).src as int) < l && (mid.edge(e).dst as int) < l);
                }
            }
            assert forall|kk: int| 0 <= kk < nin implies (#[trigger] input_ids@[kk]) != 0
                && mid.live(input_ids@[kk] as int) && mid.kind(input_ids@[kk] as int)
                is ContainerInput && crate::container::untouched(mid, input_ids@[kk]) by {
                assert(input_ids@[kk] == ((l + kk) as usize));
                assert(l + kk <= usize::MAX as int);
                assert(input_ids@[kk] as int == l + kk);
                assert(mid.slots[l + kk] == after_in.model().slots[l + kk]);
                assert(after_in.model().slots[l + kk] is Some && after_in.model().kind(l + kk)
                    is ContainerInput);
                assert(mid.slots[l + kk] is Some);
                assert(mid.kind(l + kk) is ContainerInput);
            }
            assert forall|kk: int| 0 <= kk < nout implies (#[trigger] output_ids@[kk]) != 0
                && mid.live(output_ids@[kk] as int) && mid.kind(output_ids@[kk] as int)
                is ContainerOutput && crate::container::untouched(mid, output_ids@[kk]) by {
                assert(output_ids@[kk] == ((l + nin + kk) as usize));
                assert(l + nin + kk <= usize::MAX as int);
                assert(output_ids@[kk] as int == l + nin + kk);
                assert(mid.slots[l + nin + kk] is Some);
                assert(mid.kind(l + nin + kk) is ContainerOutput);
            }
            assert(crate::container::boundaries_ok(mid, input_ids@, output_ids@));
        }
        container.construct(&input_ids, &output_ids, self);
        let ghost built = *self;
        self.container_stack.pop();
        proof {
            let f = built.model().slots.len() as int;
            assert(self.model() =~= built.model());
            assert forall|q: int, i: int|
                self.model().live(q) && 0 <= i < self.arity_of(q) implies #[trigger] self
                .arena_entry_ok(q, i) by {
                assert(built.arena_entry_ok(q, i));
            }
            assert(self.containers_stack() =~= pre.containers_stack());
            assert(self.containers_ok());
            if self.cache_ok() {
                assert forall|k3: int| 0 <= k3 < self.cache_log().len() implies #[trigger] self
                    .cache_entry_ok(k3) by {
                    assert(built.cache_entry_ok(k3));
                }
            }
            assert(self.wf());
            assert(f >= l + nin + nout);
            assert forall|j: int|
                0 <= j < pre.containers_members().len() implies #[trigger] self
                .containers_members()[j] == if (exists|q: int|
                0 <= q < pre.containers_stack().len() && (#[trigger] pre.containers_stack()[q]
                    as int) == j) {
                pre.containers_members()[j] + id_range(l, f)
            } else {
                pre.containers_members()[j]
            } by {
                assert(j != new_idx as int);
                if exists|q: int|
                    0 <= q < pre.containers_stack().len() && (#[trigger] pre.containers_stack()[q]
                        as int) == j {
                    let q = choose|q: int|
                        0 <= q < pre.containers_stack().len() && (
                        #[trigger] pre.containers_stack()[q] as int) == j;
                    assert(opened.containers_stack()[q] as int == j);
                    assert(ready.containers_members()[j] == opened.containers_members()[j]
                        + id_range(l, l + nin + nout));
                    assert(built.containers_members()[j] == ready.containers_members()[j]
                        + id_range(l + nin + nout, f));
                    assert(self.containers_members()[j] =~= pre.containers_members()[j]
                        + id_range(l, f));
                } else {
                    assert(!(exists|q: int|
                        0 <= q < opened.containers_stack().len() && (
                        #[trigger] opened.containers_stack()[q] as int) == j)) by {
                        if exists|q: int|
                            0 <= q < opened.containers_stack().len() && (
                            #[trigger] opened.containers_stack()[q] as int) == j {
                            let q = choose|q: int|
                                0 <= q < opened.containers_stack().len() && (
                                #[trigger] opened.containers_stack()[q] as int) == j;
                            assert(q < pre.containers_stack().len());
                            assert(pre.containers_stack()[q] as int == j);
                        }
                    }
                    assert(self.containers_members()[j] == pre.containers_members()[j]);
                }
            }
            assert(self.containers_members()[new_idx as int] =~= id_range(l, f)) by {
                assert(opened.containers_stack()[opened.containers_stack().len() - 1]
                    == new_idx);
                assert(ready.containers_members()[new_idx as int]
                    == opened.containers_members()[new_idx as int] + id_range(
                    l,
                    l + nin + nout,
                ));
                assert(built.containers_members()[new_idx as int] == ready.containers_members()[
                    new_idx as int] + id_range(l + nin + nout, f));
            }
            assert(self.containers_idents() =~= pre.containers_idents().push(
                container.ident_spec(),
            ));
            assert(self.containers_children() =~= pre.containers_children().update(
                parent as int,
                pre.containers_children()[parent as int].push(new_idx),
            ).push(Seq::<usize>::empty()));
            assert(mid.slots.len() == l + nin + nout);
        }
        (input_ids, output_ids)
    }

    /// Re-establishes the arena and generation invariants after a change
    /// that left every live node's record and wiring as it was: liveness
    /// only shrinks, producers and operator kinds agree on live nodes, and
    /// the input arena is untouched.
    pub(crate) proof fn lemma_arena_gens_carry(g1: ControlGraph, g2: ControlGraph)
        requires
            g1.wf(),
            g2.phase() == g1.phase(),
            g2.arena() == g1.arena(),
            forall|q: int| #[trigger] g2.model().live(q) ==> g1.model().live(q),
            forall|q: int| g2.model().live(q) ==> #[trigger] g2.record(q) == g1.record(q),
            forall|q: int, i: int|
                g2.model().live(q) ==> ((#[trigger] g2.model().has_producer(q, i))
                    == g1.model().has_producer(q, i) && (g1.model().has_producer(q, i)
                    ==> g2.model().producer(q, i) == g1.model().producer(q, i))),
            forall|q: int|
                g2.model().live(q) ==> #[trigger] g2.model().kind(q) == g1.model().kind(q),
        ensures
            forall|q: int, i: int|
                g2.model().live(q) && 0 <= i < g2.arity_of(q) ==> #[trigger] g2.arena_entry_ok(
                    q,
                    i,
                ),
            forall|q: int| #[trigger]
                g2.model().live(q) ==> g2.ptr_of(q) + g2.arity_of(q) <= g2.arena().len(),
            forall|n1: int, n2: int|
                #![trigger g2.ptr_of(n1), g2.ptr_of(n2)]
                g2.model().live(n1) && g2.model().live(n2) && n1 != n2 ==> g2.ptr_of(n1)
                    + g2.arity_of(n1) <= g2.ptr_of(n2) || g2.ptr_of(n2) + g2.arity_of(n2)
                    <= g2.ptr_of(n1),
            forall|q: int| #[trigger]
                g2.model().live(q) ==> (g2.record(q).gen == u64::MAX ==> g2.model().kind(
                    q,
                ).is_const_spec() && g2.record(q).val == g2.model().kind(q)->Const_0.0) && (
                g2.record(q).gen == u64::MAX || g2.record(q).gen <= g2.phase()),
    {
        assert forall|q: int, i: int|
            g2.model().live(q) && 0 <= i < g2.arity_of(q) implies #[trigger] g2.arena_entry_ok(
            q,
            i,
        ) by {
            assert(g1.model().live(q));
            assert(g2.record(q) == g1.record(q));
            assert(g1.arena_entry_ok(q, i));
            assert(g2.model().has_producer(q, i) == g1.model().has_producer(q, i));
            if g1.model().has_producer(q, i) {
                assert(g2.model().producer(q, i) == g1.model().producer(q, i));
            }
        }
        assert forall|q: int| #[trigger]
            g2.model().live(q) implies g2.ptr_of(q) + g2.arity_of(q) <= g2.arena().len() by {
            assert(g1.model().live(q));
            assert(g1.ptr_of(q) + g1.arity_of(q) <= g1.arena().len());
        }
        assert forall|n1: int, n2: int|
            #![trigger g2.ptr_of(n1), g2.ptr_of(n2)]
            g2.model().live(n1) && g2.model().live(n2) && n1 != n2 implies g2.ptr_of(n1)
            + g2.arity_of(n1) <= g2.ptr_of(n2) || g2.ptr_of(n2) + g2.arity_of(n2) <= g2.ptr_of(
            n1,
        ) by {
            assert(g1.model().live(n1) && g1.model().live(n2));
            assert(g1.ptr_of(n1) + g1.arity_of(n1) <= g1.ptr_of(n2) || g1.ptr_of(n2)
                + g1.arity_of(n2) <= g1.ptr_of(n1));
        }
        assert forall|q: int| #[trigger]
            g2.model().live(q) implies (g2.record(q).gen == u64::MAX ==> g2.model().kind(
            q,
        ).is_const_spec() && g2.record(q).val == g2.model().kind(q)->Const_0.0) && (g2.record(
            q,
        ).gen == u64::MAX || g2.record(q).gen <= g2.phase()) by {
            assert(g1.model().live(q));
            assert(g2.record(q) == g1.record(q));
            assert(g2.model().kind(q) == g1.model().kind(q));
        }
    }

    /// Reserves a dead node slot, as re-importing a graph that had removed
    /// nodes must: handle numbering survives a round trip.
    pub(crate) fn insert_hole(&mut self)
        requires
            old(self).wf(),
        ensures
            final(self).wf(),
            final(self).slots() == old(self).slots().push(None),
            final(self).model() == (GraphModel {
                slots: old(self).model().slots.push(None),
                ..old(self).model()
            }),
            final(self).phase() == old(self).phase(),
            !final(self).cache_ok(),
            final(self).containers_idents() == old(self).containers_idents(),
            final(self).containers_members() == old(self).containers_members(),
            final(self).containers_children() == old(self).containers_children(),
            final(self).containers_stack() == old(self).containers_stack(),
    {
        let ghost pre = *self;
        self.nodes.push(None);
        self.cache_invalid = true;
        proof {
            let m1 = pre.model();
            let m2 = self.model();
            assert(m2 =~= (GraphModel { slots: m1.slots.push(None), ..m1 }));
            crate::model::lemma_same_edges_wiring(m1, m2);
            assert forall|a: int, b: int| #[trigger] m2.step(a, b) implies m1.step(a, b) by {}
            crate::model::lemma_steps_subset_acyclic(m2, m1);
            assert forall|e: int| #[trigger] m2.edge_live(e) implies {
                &&& m2.live(m2.edge(e).src as int)
                &&& m2.edge(e).src != 0
                &&& m2.live(m2.edge(e).dst as int)
                &&& (m2.edge(e).dst as int == 0 ==> m2.edge(e).port as int == 0)
                &&& (m2.edge(e).dst as int != 0 ==> (m2.edge(e).port as int) < m2.kind(
                    m2.edge(e).dst as int,
                ).arity_spec())
            } by {
                assert(m1.edge_live(e));
            }
            assert(m2.edges_ok());
            assert(m2.wf());
            assert(forall|q: int|
                0 <= q < pre.slots().len() ==> #[trigger] self.slots()[q] == pre.slots()[q]);
            assert(forall|q: int| #[trigger] m2.live(q) ==> m1.live(q));
            assert forall|q: int| m2.live(q) implies #[trigger] self.record(q) == pre.record(
                q,
            ) by {
                assert(m1.live(q));
            }
            assert(forall|q: int, i: int|
                m2.live(q) ==> ((#[trigger] m2.has_producer(q, i)) == m1.has_producer(q, i) && (
                m1.has_producer(q, i) ==> m2.producer(q, i) == m1.producer(q, i))));
            assert forall|q: int| m2.live(q) implies #[trigger] m2.kind(q) == m1.kind(q) by {
                assert(m1.live(q));
            }
            Self::lemma_arena_gens_carry(pre, *self);
            assert(self.containers_stack() == pre.containers_stack());
            assert(self.containers_members() =~= pre.containers_members());
            assert(self.containers_children() =~= pre.containers_children());
            assert(self.containers_idents() =~= pre.containers_idents());
            assert(self.containers_ok());
            assert(self.wf());
        }
    }

    /// Reserves a dead edge slot, keeping edge numbering across a round
    /// trip.
    pub(crate) fn push_edge_hole(&mut self)
        requires
            old(self).wf(),
        ensures
            final(self).wf(),
            final(self).model() == (GraphModel {
                edges: old(self).model().edges.push(None),
                ..old(self).model()
            }),
            final(self).slots() == old(self).slots(),
            final(self).phase() == old(self).phase(),
            !final(self).cache_ok(),
            final(self).containers_idents() == old(self).containers_idents(),
            final(self).containers_members() == old(self).containers_members(),
            final(self).containers_children() == old(self).containers_children(),
            final(self).containers_stack() == old(self).containers_stack(),
    {
        let ghost pre = *self;
        self.edges.push(None);
        self.cache_invalid = true;
        proof {
            let m1 = pre.model();
            let m2 = self.model();
            assert(m2 =~= (GraphModel { edges: m1.edges.push(None), ..m1 }));
            assert(forall|e: int| #[trigger] m2.edge_live(e) == m1.edge_live(e));
            assert(forall|e: int|
                m1.edge_live(e) ==> #[trigger] m2.edge(e) == m1.edge(e));
            assert forall|a: int, b: int| #[trigger] m2.step(a, b) implies m1.step(a, b) by {
                let e = choose|e: int|
                    m2.edge_live(e) && m2.edge(e).src as int == a && m2.edge(e).dst as int == b;
                assert(m1.edge_live(e) && m1.edge(e).src as int == a && m1.edge(e).dst as int == b);
            }
            crate::model::lemma_steps_subset_acyclic(m2, m1);
            assert forall|e: int| #[trigger] m2.edge_live(e) implies {
                &&& m2.live(m2.edge(e).src as int)
                &&& m2.edge(e).src != 0
                &&& m2.live(m2.edge(e).dst as int)
                &&& (m2.edge(e).dst as int == 0 ==> m2.edge(e).port as int == 0)
                &&& (m2.edge(e).dst as int != 0 ==> (m2.edge(e).port as int) < m2.kind(
                    m2.edge(e).dst as int,
                ).arity_spec())
            } by {
                assert(m1.edge_live(e));
            }
            assert forall|e1: int, e2: int|
                #![trigger m2.edge_live(e1), m2.edge_live(e2)]
                m2.edge_live(e1) && m2.edge_live(e2) && m2.edge(e1).dst == m2.edge(e2).dst
                    && m2.edge(e1).port == m2.edge(e2).port implies e1 == e2 by {
                assert(m1.edge_live(e1) && m1.edge_live(e2));
            }
            assert(m2.edges_ok());
            assert(m2.wf());
            assert(forall|q: int| #[trigger] m2.live(q) ==> m1.live(q));
            assert forall|q: int| m2.live(q) implies #[trigger] self.record(q) == pre.record(
                q,
            ) by {
                assert(m1.live(q));
            }
            assert forall|q: int, i: int|
                m2.live(q) implies ((#[trigger] m2.has_producer(q, i)) == m1.has_producer(q, i)
                    && (m1.has_producer(q, i) ==> m2.producer(q, i) == m1.producer(q, i))) by {
                assert(m1.live(q));
                if m1.has_producer(q, i) {
                    crate::model::lemma_producer_edge_props(m1, q, i);
                    let pe = m1.producer_edge(q, i);
                    assert(m2.edge_live(pe) && m2.edge(pe).dst as int == q && m2.edge(
                        pe,
                    ).port as int == i);
                    crate::model::lemma_producer_unique(m1, pe);
                    crate::model::lemma_producer_unique(m2, pe);
                }
                if m2.has_producer(q, i) {
                    let e = choose|e: int|
                        #[trigger] m2.edge_live(e) && m2.edge(e).dst as int == q && m2.edge(
                            e,
                        ).port as int == i;
                    assert(m1.edge_live(e));
                }
            }
            assert forall|q: int| m2.live(q) implies #[trigger] m2.kind(q) == m1.kind(q) by {
                assert(m1.live(q));
            }
            Self::lemma_arena_gens_carry(pre, *self);
            assert(self.containers_stack() == pre.containers_stack());
            assert(self.containers_members() =~= pre.containers_members());
            assert(self.containers_children() =~= pre.containers_children());
            assert(self.containers_idents() =~= pre.containers_idents());
            assert(self.containers_ok());
            assert(self.wf());
        }
    }

    /// Replaces the container tree wholesale with no open scopes, as a
    /// re-import does; rejected (leaving the graph untouched) unless the
    /// names, member lists and child lists line up.
    pub(crate) fn set_containers(
        &mut self,
        idents: Vec<Vec<char>>,
        members: Vec<Vec<usize>>,
        children: Vec<Vec<usize>>,
    ) -> (ok: bool)
        requires
            old(self).wf(),
        ensures
            final(self).wf(),
            final(self).slots() == old(self).slots(),
            final(self).model() == old(self).model(),
            final(self).phase() == old(self).phase(),
            final(self).cache_ok() == old(self).cache_ok(),
            (idents@.len() == members@.len() && children@.len() == members@.len() + 1) ==> ok,
            ok ==> final(self).containers_stack() == Seq::<usize>::empty(),
            ok ==> final(self).containers_idents() == idents@.map_values(|v: Vec<char>| v@),
            ok ==> final(self).containers_members() == members@.map_values(|v: Vec<usize>| v@),
            ok ==> final(self).containers_children() == children@.map_values(|v: Vec<usize>| v@),
            !ok ==> *final(self) == *old(self),
    {
        if members.len() != idents.len() {
            return false;
        }
        if members.len() >= children.len() || children.len() - members.len() != 1 {
            return false;
        }
        let ghost pre = *self;
        self.container_idents = idents;
        self.container_members = members;
        self.container_children = children;
        self.container_stack = Vec::new();
        proof {
            assert(self.model() =~= pre.model());
            assert forall|q: int, i: int|
                self.model().live(q) && 0 <= i < self.arity_of(q) implies #[trigger] self
                .arena_entry_ok(q, i) by {
                assert(pre.arena_entry_ok(q, i));
            }
            if self.cache_ok() {
                assert forall|k: int| 0 <= k < self.cache_log().len() implies #[trigger] self
                    .cache_entry_ok(k) by {
                    assert(pre.cache_entry_ok(k));
                }
            }
            assert(self.containers_ok());
            assert(self.wf());
        }
        true
    }

    /// Saves the control graph's persistent structure into a compact
    /// binary form: node slots (holes included), edge slots, and the
    /// container tree. The phase counter, cached values, recorded
    /// evaluation order and sample rate are deliberately left out; `load`
    /// resets or re-supplies them.
    pub fn save(&self) -> (r: Vec<u8>)
        ensures
            r@ == crate::codec::persist_bytes(self),
    {
        let ghost f_slot = |o: Option<NodeData>| crate::codec::slot_tokens(o);
        let ghost f_edge = |o: Option<Edge>| crate::codec::edge_tokens(o);
        let ghost f_chars = |v: Seq<char>| crate::codec::chars_tokens(v);
        let ghost f_ids = |v: Seq<usize>| crate::codec::ids_tokens(v);
        let mut t: Vec<u64> = Vec::new();
        t.push(self.nodes.len() as u64);
        let ghost base0 = t@;
        let mut i: usize = 0;
        while i < self.nodes.len()
            invariant
                i <= self.slots().len(),
                f_slot == (|o: Option<NodeData>| crate::codec::slot_tokens(o)),
                base0 == seq![self.slots().len() as u64],
                t@ == base0 + crate::codec::entries_tokens(self.slots(), f_slot, i as int),
            decreases self.nodes@.len() - i,
        {
            let ghost t0 = t@;
            match &self.nodes[i] {
                None => {
                    t.push(0);
                },
                Some(nd) => {
                    match &nd.node {
                        Node::Empty(_) => {
                            t.push(1);
                        },
                        Node::ContainerInput(n) => {
                            t.push(2);
                            crate::codec::push_chars(&mut t, &n.label);
                        },
                        Node::ContainerOutput(n) => {
                            t.push(3);
                            crate::codec::push_chars(&mut t, &n.label);
                        },
                        Node::Sine(_) => {
                            t.push(4);
                        },
                        Node::Add(_) => {
                            t.push(5);
                        },
                        Node::Mul(_) => {
                            t.push(6);
                        },
                        Node::Inv(_) => {
                            t.push(7);
                        },
                        Node::Const(n) => {
                            t.push(8);
                            t.push(n.0.l);
                            t.push(n.0.r);
                        },
                    }
                },
            }
            i += 1;
            proof {
                assert(t@ =~= t0 + crate::codec::slot_tokens(self.slots()[i - 1]));
                assert(crate::codec::entries_tokens(self.slots(), f_slot, i as int)
                    == crate::codec::entries_tokens(self.slots(), f_slot, i - 1) + f_slot(
                    self.slots()[i - 1],
                ));
                assert(t@ =~= base0 + crate::codec::entries_tokens(self.slots(), f_slot, i as int));
            }
        }
        t.push(self.edges.len() as u64);
        let ghost base1 = t@;
        let mut e: usize = 0;
        while e < self.edges.len()
            invariant
                e <= self.edge_slots().len(),
                f_edge == (|o: Option<Edge>| crate::codec::edge_tokens(o)),
                t@ == base1 + crate::codec::entries_tokens(self.edge_slots(), f_edge, e as int),
            decreases self.edges@.len() - e,
        {
            let ghost t0 = t@;
            match self.edges[e] {
                None => {
                    t.push(0);
                },
                Some(ed) => {
                    t.push(1);
                    t.push(ed.src as u64);
                    t.push(ed.dst as u64);
                    t.push(ed.port as u64);
                },
            }
            e += 1;
            proof {
                assert(t@ =~= t0 + crate::codec::edge_tokens(self.edge_slots()[e - 1]));
                assert(crate::codec::entries_tokens(self.edge_slots(), f_edge, e as int)
                    == crate::codec::entries_tokens(self.edge_slots(), f_edge, e - 1) + f_edge(
                    self.edge_slots()[e - 1],
                ));
                assert(t@ =~= base1 + crate::codec::entries_tokens(
                    self.edge_slots(),
                    f_edge,
                    e as int,
                ));
            }
        }
        t.push(self.container_idents.len() as u64);
        let ghost base2 = t@;
        let mut c: usize = 0;
        while c < self.container_idents.len()
            invariant
                c <= self.containers_idents().len(),
                f_chars == (|v: Seq<char>| crate::codec::chars_tokens(v)),
                t@ == base2 + crate::codec::entries_tokens(
                    self.containers_idents(),
                    f_chars,
                    c as int,
                ),
            decreases self.container_idents@.len() - c,
        {
            let ghost t0 = t@;
            crate::codec::push_chars(&mut t, &self.container_idents[c]);
            c += 1;
            proof {
                assert(t@ =~= t0 + crate::codec::chars_tokens(self.containers_idents()[c - 1]));
                assert(crate::codec::entries_tokens(self.containers_idents(), f_chars, c as int)
                    == crate::codec::entries_tokens(self.containers_idents(), f_chars, c - 1)
                    + f_chars(self.containers_idents()[c - 1]));
                assert(t@ =~= base2 + crate::codec::entries_tokens(
                    self.containers_idents(),
                    f_chars,
                    c as int,
                ));
            }
        }
        let ghost base3 = t@;
        let mut c2: usize = 0;
        while c2 < self.container_members.len()
            invariant
                c2 <= self.containers_members().len(),
                f_ids == (|v: Seq<usize>| crate::codec::ids_tokens(v)),
                t@ == base3 + crate::codec::entries_tokens(
                    self.containers_members(),
                    f_ids,
                    c2 as int,
                ),
            decreases self.container_members@.len() - c2,
        {
            let ghost t0 = t@;
            crate::codec::push_ids(&mut t, &self.container_members[c2]);
            c2 += 1;
            proof {
                assert(t@ =~= t0 + crate::codec::ids_tokens(self.containers_members()[c2 - 1]));
                assert(crate::codec::entries_tokens(self.containers_members(), f_ids, c2 as int)
                    == crate::codec::entries_tokens(self.containers_members(), f_ids, c2 - 1)
                    + f_ids(self.containers_members()[c2 - 1]));
                assert(t@ =~= base3 + crate::codec::entries_tokens(
                    self.containers_members(),
                    f_ids,
                    c2 as int,
                ));
            }
        }
        let ghost base4 = t@;
        let mut c3: usize = 0;
        while c3 < self.container_children.len()
            invariant
                c3 <= self.containers_children().len(),
                f_ids == (|v: Seq<usize>| crate::codec::ids_tokens(v)),
                t@ == base4 + crate::codec::entries_tokens(
                    self.containers_children(),
                    f_ids,
                    c3 as int,
                ),
            decreases self.container_children@.len() - c3,
        {
            let ghost t0 = t@;
            crate::codec::push_ids(&mut t, &self.container_children[c3]);
            c3 += 1;
            proof {
                assert(t@ =~= t0 + crate::codec::ids_tokens(self.containers_children()[c3 - 1]));
                assert(crate::codec::entries_tokens(self.containers_children(), f_ids, c3 as int)
                    == crate::codec::entries_tokens(self.containers_children(), f_ids, c3 - 1)
                    + f_ids(self.containers_children()[c3 - 1]));
                assert(t@ =~= base4 + crate::codec::entries_tokens(
                    self.containers_children(),
                    f_ids,
                    c3 as int,
                ));
            }
        }
        proof {
            assert(t@ =~= crate::codec::persist_tokens(self));
        }
        let mut bytes: Vec<u8> = Vec::new();
        let mut w: usize = 0;
        while w < t.len()
            invariant
                w <= t@.len(),
                t@ == crate::codec::persist_tokens(self),
                bytes@ == crate::codec::words_bytes(t@, w as int),
            decreases t@.len() - w,
        {
            let ghost b0 = bytes@;
            let x = t[w];
            bytes.push(((x >> 0u64) & 0xFF) as u8);
            bytes.push(((x >> 8u64) & 0xFF) as u8);
            bytes.push(((x >> 16u64) & 0xFF) as u8);
            bytes.push(((x >> 24u64) & 0xFF) as u8);
            bytes.push(((x >> 32u64) & 0xFF) as u8);
            bytes.push(((x >> 40u64) & 0xFF) as u8);
            bytes.push(((x >> 48u64) & 0xFF) as u8);
            bytes.push(((x >> 56u64) & 0xFF) as u8);
            w += 1;
            proof {
                assert(bytes@ =~= b0 + crate::codec::word_bytes(x));
                assert(crate::codec::words_bytes(t@, w as int) == crate::codec::words_bytes(
                    t@,
                    w - 1,
                ) + crate::codec::word_bytes(t@[w - 1]));
                assert(bytes@ =~= crate::codec::words_bytes(t@, w as int));
            }
        }
        proof {
            assert(bytes@ =~= crate::codec::persist_bytes(self));
        }
        bytes
    }

    /// Marks the recorded evaluation order as stale, forcing the next
    /// sample onto the cold dependency walk; touches nothing else.
    pub(crate) fn invalidate_order(&mut self)
        requires
            old(self).wf(),
        ensures
            final(self).wf(),
            !final(self).cache_ok(),
            final(self).slots() == old(self).slots(),
            final(self).model() == old(self).model(),
            final(self).phase() == old(self).phase(),
            final(self).containers_idents() == old(self).containers_idents(),
            final(self).containers_members() == old(self).containers_members(),
            final(self).containers_children() == old(self).containers_children(),
            final(self).containers_stack() == old(self).containers_stack(),
    {
        let ghost pre = *self;
        self.cache_invalid = true;
        proof {
            Self::lemma_wf_frame(pre, *self);
        }
    }

    /// Sets the sample rate; touches nothing else.
    pub fn set_sample_rate(&mut self, sample_rate: u32)
        requires
            old(self).wf(),
        ensures
            final(self).wf(),
            final(self).model() == (GraphModel { rate: sample_rate, ..old(self).model() }),
            final(self).rate() == sample_rate,
            final(self).phase() == old(self).phase(),
            final(self).slots() == old(self).slots(),
            final(self).cache_ok() == old(self).cache_ok(),
            final(self).containers_idents() == old(self).containers_idents(),
            final(self).containers_members() == old(self).containers_members(),
            final(self).containers_children() == old(self).containers_children(),
            final(self).containers_stack() == old(self).containers_stack(),
    {
        let ghost pre = *self;
        self.sample_rate = sample_rate;
        proof {
            let m1 = pre.model();
            let m2 = self.model();
            assert(m2 =~= (GraphModel { rate: sample_rate, ..m1 }));
            crate::model::lemma_same_edges_wiring(m1, m2);
            crate::model::lemma_steps_subset_acyclic(m2, m1);
            assert(m2.slots == m1.slots);
            assert forall|e2: int| #[trigger] m2.edge_live(e2) implies {
                &&& m2.live(m2.edge(e2).src as int)
                &&& m2.edge(e2).src != 0
                &&& m2.live(m2.edge(e2).dst as int)
                &&& (m2.edge(e2).dst as int == 0 ==> m2.edge(e2).port as int == 0)
                &&& (m2.edge(e2).dst as int != 0 ==> (m2.edge(e2).port as int) < m2.kind(
                    m2.edge(e2).dst as int,
                ).arity_spec())
            } by {
                assert(m1.edge_live(e2));
            }
            assert(m2.edges_ok());
            assert(m2.wf());
            assert(forall|q: int| #[trigger] self.slots()[q] == pre.slots()[q]);
            assert(forall|q: int| #[trigger] m2.live(q) ==> m1.live(q));
            assert forall|q: int| m2.live(q) implies #[trigger] self.record(q) == pre.record(
                q,
            ) by {
                assert(m1.live(q));
            }
            assert(forall|q: int, i: int|
                m2.live(q) ==> ((#[trigger] m2.has_producer(q, i)) == m1.has_producer(q, i) && (
                m1.has_producer(q, i) ==> m2.producer(q, i) == m1.producer(q, i))));
            assert forall|q: int| m2.live(q) implies #[trigger] m2.kind(q) == m1.kind(q) by {
                assert(m1.live(q));
            }
            Self::lemma_arena_gens_carry(pre, *self);
            assert forall|k: int|
                pre.cache_ok() && 0 <= k < self.cache_log().len() implies #[trigger] self
                .cache_entry_ok(k) by {
                assert(pre.cache_entry_ok(k));
                let n = self.cache_log()[k].0 as int;
                assert forall|i: int|
                    0 <= i < self.arity_of(n) && #[trigger] m2.has_producer(n, i) implies {
                    let p = m2.producer(n, i);
                    (m2.kind(p).is_const_spec() && self.record(p).gen == u64::MAX) || exists|
                        j: int,
                    |
                        0 <= j < k && #[trigger] self.cache_log()[j].0 as int == p
                } by {
                    assert(m1.has_producer(n, i));
                    assert(m1.producer(n, i) == m2.producer(n, i));
                }
            }
            assert(self.containers_stack() == pre.containers_stack());
            assert(self.containers_members() =~= pre.containers_members());
            assert(self.containers_children() =~= pre.containers_children());
            assert(self.containers_idents() =~= pre.containers_idents());
            assert(self.containers_ok());
            assert(self.wf());
        }
    }

    /// The invariant carried through a cold evaluation walk at the current
    /// phase: like `wf`, but generations may already have advanced to the
    /// next phase, and every advanced node's value is the one the model
    /// assigns it; the evaluation-order log grows alongside and stays
    /// sound entry by entry.
    pub(crate) open spec fn walk_base(&self) -> bool {
        &&& self.aout_node == 0
        &&& self.model().wf()
        &&& self.record(0).input_arena_ptr == 0
        &&& self.record(0).val == (Sample { l: NAN_BITS, r: NAN_BITS })
        &&& (self.phase() as int) + 1 < (u64::MAX as int)
        &&& self.arena_ok()
        &&& !self.cache_ok()
        &&& self.containers_ok()
        &&& forall|n: int| #[trigger]
            self.model().live(n) ==> (self.record(n).gen == u64::MAX ==> self.model().kind(
                n,
            ).is_const_spec() && self.record(n).val == self.model().kind(n)->Const_0.0)
        &&& forall|n: int| #[trigger]
            self.model().live(n) ==> (self.record(n).gen == u64::MAX || self.record(n).gen
                <= self.phase() + 1)
        &&& forall|n: int| #[trigger]
            self.model().live(n) && (self.record(n).gen == self.phase() + 1 || self.record(n).gen
                == u64::MAX) ==> self.record(n).val == self.model().node_value(self.phase(), n)
        &&& forall|n: int| #[trigger]
            self.model().live(n) && self.record(n).gen == self.phase() + 1 ==> exists|k: int|
                0 <= k < self.cache_log().len() && (#[trigger] self.cache_log()[k].0 as int) == n
        &&& forall|k: int| 0 <= k < self.cache_log().len() ==> #[trigger] self.cache_entry_ok(k)
        &&& forall|k: int|
            0 <= k < self.cache_log().len() ==> (#[trigger] self.record(
                self.cache_log()[k].0 as int,
            )).gen == self.phase() + 1 || self.record(self.cache_log()[k].0 as int).gen
                == u64::MAX
        &&& forall|k1: int, k2: int|
            #![trigger self.cache_log()[k1], self.cache_log()[k2]]
            0 <= k1 < k2 < self.cache_log().len() ==> self.cache_log()[k1].0
                != self.cache_log()[k2].0
    }

    /// Resolves one node during a cold walk: recursively resolves each of
    /// its stale producers, evaluates the operator on the resolved inputs,
    /// stores the value, advances the generation (pinning constants), and
    /// appends the node to the evaluation-order log.
    fn update_node(&mut self, node: usize) -> (s: Sample)
        requires
            old(self).walk_base(),
            old(self).model().live(node as int),
            node != 0,
            old(self).record(node as int).gen <= old(self).phase() || old(self).record(
                node as int,
            ).gen == u64::MAX,
            !exists|k: int|
                0 <= k < old(self).cache_log().len() && (#[trigger] old(self).cache_log()[k].0)
                    == node,
        ensures
            final(self).walk_base(),
            final(self).model() == old(self).model(),
            final(self).phase() == old(self).phase(),
            final(self).arena() == old(self).arena(),
            final(self).val_arena().len() == old(self).val_arena().len(),
            final(self).containers_idents() == old(self).containers_idents(),
            final(self).containers_members() == old(self).containers_members(),
            final(self).containers_children() == old(self).containers_children(),
            final(self).containers_stack() == old(self).containers_stack(),
            forall|q: int|
                old(self).model().live(q) && (old(self).record(q).gen == old(self).phase() + 1
                    || old(self).record(q).gen == u64::MAX) ==> #[trigger] final(self).record(q)
                    == old(self).record(q),
            forall|q: int|
                old(self).model().live(q) ==> (#[trigger] final(self).record(q)).input_arena_ptr
                    == old(self).record(q).input_arena_ptr,
            old(self).cache_log().len() <= final(self).cache_log().len(),
            forall|k: int|
                0 <= k < old(self).cache_log().len() ==> #[trigger] final(self).cache_log()[k]
                    == old(self).cache_log()[k],
            final(self).cache_log().len() > 0,
            final(self).cache_log().last() == (
                node,
                old(self).record(node as int).input_arena_ptr,
            ),
            forall|k: int|
                old(self).cache_log().len() <= k < final(self).cache_log().len()
                    ==> (#[trigger] final(self).cache_log()[k]).0 == node || old(
                    self,
                ).model().reaches_plus(final(self).cache_log()[k].0 as int, node as int),
            final(self).record(node as int).gen == (if old(self).model().kind(
                node as int,
            ).is_const_spec() {
                u64::MAX
            } else {
                (old(self).phase() + 1) as u64
            }),
            final(self).record(node as int).val == old(self).model().node_value(
                old(self).phase(),
                node as int,
            ),
            s == old(self).model().node_value(old(self).phase(), node as int),
        decreases self.model().ancestors(node as int).len(),
    {
        let ghost entry = *self;
        let ghost m = self.model();
        let ghost p = self.phase();
        let mut ei: usize = 0;
        while ei < self.edges.len()
            invariant
                self.walk_base(),
                self.model() == m,
                self.phase() == p,
                entry.model() == m,
                entry.phase() == p,
                entry.walk_base(),
                old(self).model() == m,
                m.live(node as int),
                node != 0,
                ei <= self.edge_slots().len(),
                self.arena() == entry.arena(),
                self.val_arena().len() == entry.val_arena().len(),
                self.containers_idents() == entry.containers_idents(),
                self.containers_members() == entry.containers_members(),
                self.containers_children() == entry.containers_children(),
                self.containers_stack() == entry.containers_stack(),
                forall|q: int|
                    entry.model().live(q) && (entry.record(q).gen == p + 1 || entry.record(q).gen
                        == u64::MAX) ==> #[trigger] self.record(q) == entry.record(q),
                forall|q: int|
                    entry.model().live(q) ==> (#[trigger] self.record(q)).input_arena_ptr
                        == entry.record(q).input_arena_ptr,
                entry.cache_log().len() <= self.cache_log().len(),
                forall|k: int|
                    0 <= k < entry.cache_log().len() ==> #[trigger] self.cache_log()[k]
                        == entry.cache_log()[k],
                forall|k: int|
                    entry.cache_log().len() <= k < self.cache_log().len()
                        ==> (#[trigger] self.cache_log()[k]).0 != node && m.reaches_plus(
                        self.cache_log()[k].0 as int,
                        node as int,
                    ),
                !exists|k: int|
                    0 <= k < self.cache_log().len() && (#[trigger] self.cache_log()[k].0) == node,
                forall|e2: int|
                    0 <= e2 < ei && #[trigger] m.edge_live(e2) && m.edge(e2).dst == node ==> {
                        let q = m.edge(e2).src as int;
                        self.record(q).gen == p + 1 || self.record(q).gen == u64::MAX
                    },
            decreases self.edge_slots().len() - ei,
        {
            let parent = match self.edges[ei] {
                Some(ed) => if ed.dst == node {
                    Some(ed.src)
                } else {
                    None
                },
                None => None,
            };
            match parent {
                Some(srcn) => {
                    proof {
                        assert(m.edge_live(ei as int));
                        assert(m.live(srcn as int) && srcn != 0);
                        assert(m.step(srcn as int, node as int));
                        crate::model::lemma_step_ancestors_lt(m, srcn as int, node as int);
                    }
                    let ghost before = *self;
                    let stale = match &self.nodes[srcn] {
                        Some(nd) => nd.gen <= self.phase,
                        None => vstd::pervasive::unreached(),
                    };
                    if stale {
                        proof {
                            assert(self.model() == m);
                            assert(m.ancestors(srcn as int).len() < m.ancestors(
                                node as int,
                            ).len());
                            assert(entry.model() == m);
                        }
                        self.update_node(srcn);
                    }
                    proof {
                        assert(self.record(srcn as int).gen == p + 1 || self.record(
                            srcn as int,
                        ).gen == u64::MAX);
                        crate::model::lemma_step_reaches_plus(m, srcn as int, node as int);
                        assert(srcn != node) by {
                            if srcn == node {
                                assert(m.reaches_plus(node as int, node as int));
                            }
                        }
                        assert forall|k: int|
                            entry.cache_log().len() <= k < self.cache_log().len() implies (
                        #[trigger] self.cache_log()[k]).0 != node && m.reaches_plus(
                            self.cache_log()[k].0 as int,
                            node as int,
                        ) by {
                            if k < before.cache_log().len() {
                                assert(before.cache_log()[k] == self.cache_log()[k]);
                            } else {
                                let q = self.cache_log()[k].0;
                                assert(q == srcn || before.model().reaches_plus(
                                    q as int,
                                    srcn as int,
                                ));
                                if q != srcn {
                                    assert(m.reaches_plus(q as int, srcn as int));
                                    crate::model::lemma_plus_reaches(m, q as int, srcn as int);
                                    crate::model::lemma_plus_reaches(
                                        m,
                                        srcn as int,
                                        node as int,
                                    );
                                    crate::model::lemma_reaches_trans(
                                        m,
                                        q as int,
                                        srcn as int,
                                        node as int,
                                    );
                                }
                                assert(m.reaches_plus(q as int, node as int));
                                assert(q != node) by {
                                    if q == node {
                                        assert(m.reaches_plus(node as int, node as int));
                                    }
                                }
                            }
                        }
                        assert forall|q: int|
                            entry.model().live(q) && (entry.record(q).gen == p + 1
                                || entry.record(q).gen == u64::MAX) implies #[trigger] self.record(
                            q,
                        ) == entry.record(q) by {
                            assert(before.record(q) == entry.record(q));
                            assert(before.model().live(q) && before.phase() == p);
                        }
                        assert forall|q: int|
                            entry.model().live(q) implies (#[trigger] self.record(
                            q,
                        )).input_arena_ptr == entry.record(q).input_arena_ptr by {
                            assert(before.model().live(q));
                            assert(before.record(q).input_arena_ptr == entry.record(
                                q,
                            ).input_arena_ptr);
                        }
                        assert forall|e2: int|
                            0 <= e2 < ei + 1 && #[trigger] m.edge_live(e2) && m.edge(e2).dst
                                == node implies {
                            let q = m.edge(e2).src as int;
                            self.record(q).gen == p + 1 || self.record(q).gen == u64::MAX
                        } by {
                            if e2 < ei {
                                let q = m.edge(e2).src as int;
                                assert(before.record(q).gen == p + 1 || before.record(q).gen
                                    == u64::MAX);
                                assert(before.model().live(q));
                                assert(self.record(q) == before.record(q));
                            }
                        }
                    }
                },
                None => {},
            }
            ei += 1;
        }
        let ghost walked = *self;
        proof {
            assert forall|i: int|
                0 <= i < self.arity_of(node as int) && #[trigger] m.has_producer(
                    node as int,
                    i,
                ) implies {
                let q = m.producer(node as int, i);
                self.record(q).gen == p + 1 || self.record(q).gen == u64::MAX
            } by {
                crate::model::lemma_producer_edge_props(m, node as int, i);
                let pe = m.producer_edge(node as int, i);
                assert(m.edge_live(pe) && m.edge(pe).dst == node);
            }
        }
        let ptr = match &self.nodes[node] {
            Some(nd) => nd.input_arena_ptr,
            None => vstd::pervasive::unreached(),
        };
        let arity = match &self.nodes[node] {
            Some(nd) => nd.node.arity(),
            None => vstd::pervasive::unreached(),
        };
        let alen = self.node_input_arena.len();
        let mut i: usize = 0;
        while i < arity
            invariant
                self.walk_base(),
                self.model() == m,
                self.phase() == p,
                m.live(node as int),
                node != 0,
                i <= arity,
                arity == self.arity_of(node as int),
                ptr as int == self.ptr_of(node as int),
                alen as int == self.arena().len(),
                (ptr as int) + (arity as int) <= alen as int,
                entry.model() == m,
                entry.phase() == p,
                self.slots() == walked.slots(),
                self.arena() == walked.arena(),
                self.cache_log() == walked.cache_log(),
                self.val_arena().len() == walked.val_arena().len(),
                self.containers_idents() == walked.containers_idents(),
                self.containers_members() == walked.containers_members(),
                self.containers_children() == walked.containers_children(),
                self.containers_stack() == walked.containers_stack(),
                forall|q: int|
                    0 <= q < self.arity_of(node as int) && #[trigger] m.has_producer(
                        node as int,
                        q,
                    ) ==> {
                        let pq = m.producer(node as int, q);
                        self.record(pq).gen == p + 1 || self.record(pq).gen == u64::MAX
                    },
                forall|j: int|
                    0 <= j < i ==> #[trigger] self.val_arena()[ptr as int + j] == m.input_value(
                        p,
                        node as int,
                        j,
                    ),
            decreases arity - i,
        {
            proof {
                assert((ptr as int) + (i as int) < alen as int);
            }
            let prod = self.node_input_arena[ptr + i];
            proof {
                assert(self.arena_entry_ok(node as int, i as int));
                if m.has_producer(node as int, i as int) {
                    crate::model::lemma_producer_edge_props(m, node as int, i as int);
                    assert(m.live(prod as int));
                } else {
                    assert(prod == 0);
                    assert(m.live(0));
                }
            }
            let v = match &self.nodes[prod] {
                Some(nd) => nd.val,
                None => vstd::pervasive::unreached(),
            };
            proof {
                if m.has_producer(node as int, i as int) {
                    let pq = m.producer(node as int, i as int);
                    assert(prod as int == pq);
                    assert(self.record(pq).gen == p + 1 || self.record(pq).gen == u64::MAX);
                    assert(v == m.node_value(p, pq));
                    assert(m.input_value(p, node as int, i as int) == m.node_value(p, pq));
                } else {
                    assert(v == (Sample { l: NAN_BITS, r: NAN_BITS }));
                    assert(m.input_value(p, node as int, i as int) == (Sample {
                        l: NAN_BITS,
                        r: NAN_BITS,
                    }));
                }
            }
            let ghost prewv = *self;
            self.node_input_val_arena[ptr + i] = v;
            proof {
                Self::lemma_walk_frame(prewv, *self);
            }
            i += 1;
        }
        let result = {
            proof {
                assert((ptr as int) + (arity as int) <= alen as int);
            }
            let nd = match &self.nodes[node] {
                Some(nd) => nd,
                None => vstd::pervasive::unreached(),
            };
            let inputs = &self.node_input_val_arena[ptr..ptr + arity];
            proof {
                assert forall|j: int| 0 <= j < arity implies inputs@[j] == m.input_value(
                    p,
                    node as int,
                    j,
                ) by {
                    assert(self.val_arena()[ptr as int + j] == m.input_value(p, node as int, j));
                }
                assert(inputs@ =~= Seq::new(
                    m.kind(node as int).arity_spec(),
                    |j: int| m.input_value(p, node as int, j),
                ));
            }
            nd.node.process(inputs, self.phase, self.sample_rate)
        };
        proof {
            assert(result == m.node_value(p, node as int));
        }
        let is_c = match &self.nodes[node] {
            Some(nd) => nd.node.is_const(),
            None => vstd::pervasive::unreached(),
        };
        let newgen: u64 = if is_c {
            u64::MAX
        } else {
            self.phase + 1
        };
        let ghost preset = *self;
        match &mut self.nodes[node] {
            Some(nd) => {
                nd.gen = newgen;
                nd.val = result;
            },
            None => {
                proof {
                    assert(false);
                }
            },
        }
        self.cache.push((node, ptr));
        proof {
            let m2 = self.model();
            assert(m2 =~= m);
            assert(forall|q: int|
                0 <= q < self.slots().len() && q != node ==> #[trigger] self.slots()[q]
                    == preset.slots()[q]);
            assert(self.record(node as int).gen == newgen && self.record(node as int).val
                == result);
            if is_c {
                assert(m.kind(node as int).is_const_spec());
                assert(m.node_value(p, node as int) == m.kind(node as int)->Const_0.0);
            }
            assert forall|q: int, iq: int|
                m2.live(q) && 0 <= iq < self.arity_of(q) implies #[trigger] self.arena_entry_ok(
                q,
                iq,
            ) by {
                assert(preset.arena_entry_ok(q, iq));
            }
            assert forall|q: int| #[trigger]
                m2.live(q) implies self.ptr_of(q) + self.arity_of(q) <= self.arena().len() by {
                assert(preset.ptr_of(q) + preset.arity_of(q) <= preset.arena().len());
            }
            assert forall|n1: int, n2: int|
                #![trigger self.ptr_of(n1), self.ptr_of(n2)]
                m2.live(n1) && m2.live(n2) && n1 != n2 implies self.ptr_of(n1) + self.arity_of(n1)
                <= self.ptr_of(n2) || self.ptr_of(n2) + self.arity_of(n2) <= self.ptr_of(n1) by {
                assert(preset.ptr_of(n1) + preset.arity_of(n1) <= preset.ptr_of(n2) || preset.ptr_of(
                    n2,
                ) + preset.arity_of(n2) <= preset.ptr_of(n1));
            }
            assert(self.containers_stack() == preset.containers_stack());
            assert(self.containers_members() =~= preset.containers_members());
            assert(self.containers_children() =~= preset.containers_children());
            assert(self.containers_idents() =~= preset.containers_idents());
            assert(self.containers_ok());
            assert forall|k: int| 0 <= k < self.cache_log().len() implies #[trigger] self
                .cache_entry_ok(k) by {
                if k < preset.cache_log().len() {
                    assert(preset.cache_entry_ok(k));
                    assert(self.cache_log()[k] == preset.cache_log()[k]);
                    let nk = self.cache_log()[k].0 as int;
                    assert forall|iq: int|
                        0 <= iq < self.arity_of(nk) && #[trigger] m2.has_producer(
                            nk,
                            iq,
                        ) implies {
                        let pq = m2.producer(nk, iq);
                        (m2.kind(pq).is_const_spec() && self.record(pq).gen == u64::MAX) || exists|
                            j: int,
                        |
                            0 <= j < k && #[trigger] self.cache_log()[j].0 as int == pq
                    } by {
                        let pq = m2.producer(nk, iq);
                        if m2.kind(pq).is_const_spec() && preset.record(pq).gen == u64::MAX {
                            assert(self.record(pq).gen == u64::MAX);
                        } else {
                            let j = choose|j: int|
                                0 <= j < k && #[trigger] preset.cache_log()[j].0 as int == pq;
                            assert(self.cache_log()[j].0 as int == pq);
                        }
                    }
                } else {
                    assert(k == self.cache_log().len() - 1);
                    assert(self.cache_log()[k] == (node, ptr));
                    assert forall|iq: int|
                        0 <= iq < self.arity_of(node as int) && #[trigger] m2.has_producer(
                            node as int,
                            iq,
                        ) implies {
                        let pq = m2.producer(node as int, iq);
                        (m2.kind(pq).is_const_spec() && self.record(pq).gen == u64::MAX) || exists|
                            j: int,
                        |
                            0 <= j < k && #[trigger] self.cache_log()[j].0 as int == pq
                    } by {
                        let pq = m2.producer(node as int, iq);
                        assert(walked.record(pq).gen == p + 1 || walked.record(pq).gen
                            == u64::MAX);
                        crate::model::lemma_producer_edge_props(m, node as int, iq);
                        assert(pq != node) by {
                            if pq == node {
                                crate::model::lemma_step_reaches_plus(m, pq, node as int);
                            }
                        }
                        assert(self.record(pq) == walked.record(pq));
                        if walked.record(pq).gen == u64::MAX {
                            assert(m2.kind(pq).is_const_spec());
                        } else {
                            let j = choose|j: int|
                                0 <= j < walked.cache_log().len() && (#[trigger] walked.cache_log(
                                )[j].0 as int) == pq;
                            assert(self.cache_log()[j].0 as int == pq);
                        }
                    }
                }
            }
            assert forall|k1: int, k2: int|
                #![trigger self.cache_log()[k1], self.cache_log()[k2]]
                0 <= k1 < k2 < self.cache_log().len() implies self.cache_log()[k1].0
                != self.cache_log()[k2].0 by {
                if k2 < preset.cache_log().len() {
                    assert(preset.cache_log()[k1] == self.cache_log()[k1]);
                    assert(preset.cache_log()[k2] == self.cache_log()[k2]);
                } else {
                    assert(k2 == self.cache_log().len() - 1);
                    assert(self.cache_log()[k2].0 == node);
                    assert(preset.cache_log()[k1] == self.cache_log()[k1]);
                    if k1 < entry.cache_log().len() {
                        assert(entry.cache_log()[k1] == preset.cache_log()[k1]);
                        assert(self.cache_log()[k1].0 != node);
                    } else {
                        assert(walked.cache_log()[k1].0 != node);
                    }
                }
            }
            assert forall|k: int|
                0 <= k < self.cache_log().len() implies (#[trigger] self.record(
                self.cache_log()[k].0 as int,
            )).gen == p + 1 || self.record(self.cache_log()[k].0 as int).gen == u64::MAX by {
                if k < preset.cache_log().len() {
                    let nk = preset.cache_log()[k].0 as int;
                    assert(preset.cache_entry_ok(k));
                    assert(preset.model().live(nk));
                    assert(0 <= nk < preset.slots().len());
                    assert(preset.record(nk).gen == p + 1 || preset.record(nk).gen == u64::MAX);
                    if nk != node {
                        assert(self.slots()[nk] == preset.slots()[nk]);
                    }
                }
            }
            assert forall|nq: int|
                m2.live(nq) && self.record(nq).gen == p + 1 implies exists|kk: int|
                0 <= kk < self.cache_log().len() && (#[trigger] self.cache_log()[kk].0 as int)
                    == nq by {
                if nq == node as int {
                    assert(self.cache_log()[self.cache_log().len() - 1].0 as int == nq);
                } else {
                    assert(self.slots()[nq] == preset.slots()[nq]);
                    assert(preset.record(nq).gen == p + 1);
                    let kk = choose|kk: int|
                        0 <= kk < preset.cache_log().len() && (#[trigger] preset.cache_log(
                        )[kk].0 as int) == nq;
                    assert(self.cache_log()[kk].0 as int == nq);
                }
            }
            assert(self.walk_base());
        }
        result
    }

    /// Replays the recorded evaluation order at the current phase: each
    /// logged node re-reads its producers' already-resolved values and is
    /// re-evaluated in the logged order.
    fn replay(&mut self) -> (s: Sample)
        requires
            old(self).wf(),
            old(self).cache_ok(),
            old(self).model().has_producer(0, 0),
            (old(self).phase() as int) + 1 < (u64::MAX as int),
        ensures
            final(self).wf(),
            final(self).cache_ok(),
            final(self).model() == old(self).model(),
            final(self).phase() == old(self).phase(),
            final(self).cache_log() == old(self).cache_log(),
            final(self).containers_idents() == old(self).containers_idents(),
            final(self).containers_members() == old(self).containers_members(),
            final(self).containers_children() == old(self).containers_children(),
            final(self).containers_stack() == old(self).containers_stack(),
            s == old(self).model().sink_value(old(self).phase()),
            final(self).record(old(self).model().producer(0, 0)).val == s,
    {
        let ghost entry = *self;
        let ghost m = self.model();
        let ghost p = self.phase();
        let mut val = Sample::default();
        let mut k: usize = 0;
        let cache_len = self.cache.len();
        proof {
            assert(cache_len > 0);
        }
        while k < cache_len
            invariant
                self.wf(),
                self.cache_ok(),
                self.model() == m,
                m.wf(),
                self.phase() == p,
                entry.model() == m,
                entry.phase() == p,
                entry.wf(),
                m.has_producer(0, 0),
                (p as int) + 1 < (u64::MAX as int),
                cache_len == self.cache_log().len(),
                k <= cache_len,
                self.cache_log() == entry.cache_log(),
                self.arena() == entry.arena(),
                self.val_arena().len() == entry.val_arena().len(),
                self.containers_idents() == entry.containers_idents(),
                self.containers_members() == entry.containers_members(),
                self.containers_children() == entry.containers_children(),
                self.containers_stack() == entry.containers_stack(),
                forall|q: int|
                    entry.model().live(q) ==> (#[trigger] self.record(q)).input_arena_ptr
                        == entry.record(q).input_arena_ptr && self.record(q).gen == entry.record(
                        q,
                    ).gen,
                forall|j: int|
                    0 <= j < k ==> #[trigger] self.record(self.cache_log()[j].0 as int).val
                        == m.node_value(p, self.cache_log()[j].0 as int),
                k > 0 ==> val == m.node_value(p, self.cache_log()[k - 1].0 as int),
            decreases cache_len - k,
        {
            let (n, ptr) = self.cache[k];
            proof {
                assert(self.cache_entry_ok(k as int));
                assert(m.live(n as int) && n != 0);
                assert(ptr as int == self.ptr_of(n as int));
            }
            let arity = match &self.nodes[n] {
                Some(nd) => nd.node.arity(),
                None => vstd::pervasive::unreached(),
            };
            let alen = self.node_input_arena.len();
            let mut i: usize = 0;
            let ghost iter0 = *self;
            proof {
                assert(forall|q: int|
                    entry.model().live(q) ==> (#[trigger] iter0.record(q)).input_arena_ptr
                        == entry.record(q).input_arena_ptr && iter0.record(q).gen == entry.record(
                        q,
                    ).gen);
            }
            while i < arity
                invariant
                    self.wf(),
                    self.cache_ok(),
                    self.model() == m,
                    m.wf(),
                    self.phase() == p,
                    k < cache_len,
                    i <= arity,
                    cache_len == self.cache_log().len(),
                    m.live(n as int),
                    n != 0,
                    self.cache_log()[k as int] == (n, ptr),
                    arity == self.arity_of(n as int),
                    ptr as int == self.ptr_of(n as int),
                    alen as int == self.arena().len(),
                    (ptr as int) + (arity as int) <= alen as int,
                    self.slots() == iter0.slots(),
                    self.cache_log() == iter0.cache_log(),
                    self.arena() == iter0.arena(),
                    self.val_arena().len() == iter0.val_arena().len(),
                    self.containers_idents() == iter0.containers_idents(),
                    self.containers_members() == iter0.containers_members(),
                    self.containers_children() == iter0.containers_children(),
                    self.containers_stack() == iter0.containers_stack(),
                    forall|j: int|
                        0 <= j < k ==> #[trigger] self.record(self.cache_log()[j].0 as int).val
                            == m.node_value(p, self.cache_log()[j].0 as int),
                    forall|j: int|
                        0 <= j < i ==> #[trigger] self.val_arena()[ptr as int + j]
                            == m.input_value(p, n as int, j),
                decreases arity - i,
            {
                proof {
                    assert((ptr as int) + (i as int) < alen as int);
                }
                let prod = self.node_input_arena[ptr + i];
                proof {
                    assert(self.arena_entry_ok(n as int, i as int));
                    if m.has_producer(n as int, i as int) {
                        crate::model::lemma_producer_edge_props(m, n as int, i as int);
                        assert(m.live(prod as int));
                    } else {
                        assert(prod == 0);
                        assert(m.live(0));
                    }
                }
                let v = match &self.nodes[prod] {
                    Some(nd) => nd.val,
                    None => vstd::pervasive::unreached(),
                };
                proof {
                    assert(self.cache_entry_ok(k as int));
                    if m.has_producer(n as int, i as int) {
                        let pq = m.producer(n as int, i as int);
                        assert(prod as int == pq);
                        if m.kind(pq).is_const_spec() && self.record(pq).gen == u64::MAX {
                            assert(self.record(pq).val == m.kind(pq)->Const_0.0);
                            assert(m.node_value(p, pq) == m.kind(pq)->Const_0.0);
                        } else {
                            let j = choose|j: int|
                                0 <= j < k && #[trigger] self.cache_log()[j].0 as int == pq;
                            assert(self.record(pq).val == m.node_value(p, pq));
                        }
                        assert(v == m.node_value(p, pq));
                        assert(m.input_value(p, n as int, i as int) == m.node_value(p, pq));
                    } else {
                        assert(v == (Sample { l: NAN_BITS, r: NAN_BITS }));
                        assert(m.input_value(p, n as int, i as int) == (Sample {
                            l: NAN_BITS,
                            r: NAN_BITS,
                        }));
                    }
                }
                let ghost prewv = *self;
                self.node_input_val_arena[ptr + i] = v;
                proof {
                    crate::control::ControlGraph::lemma_wf_frame(prewv, *self);
                    assert forall|j: int| 0 <= j < k implies #[trigger] self.record(
                        self.cache_log()[j].0 as int,
                    ).val == m.node_value(p, self.cache_log()[j].0 as int) by {
                        let nj = self.cache_log()[j].0 as int;
                        assert(prewv.record(nj).val == m.node_value(p, nj));
                    }
                }
                i += 1;
            }
            let result = {
                proof {
                    assert((ptr as int) + (arity as int) <= alen as int);
                }
                let nd = match &self.nodes[n] {
                    Some(nd) => nd,
                    None => vstd::pervasive::unreached(),
                };
                let inputs = &self.node_input_val_arena[ptr..ptr + arity];
                proof {
                    assert forall|j: int| 0 <= j < arity implies inputs@[j] == m.input_value(
                        p,
                        n as int,
                        j,
                    ) by {
                        assert(self.val_arena()[ptr as int + j] == m.input_value(p, n as int, j));
                    }
                    assert(inputs@ =~= Seq::new(
                        m.kind(n as int).arity_spec(),
                        |j: int| m.input_value(p, n as int, j),
                    ));
                }
                nd.node.process(inputs, self.phase, self.sample_rate)
            };
            proof {
                assert(result == m.node_value(p, n as int));
            }
            let ghost prewrite = *self;
            match &mut self.nodes[n] {
                Some(nd) => {
                    nd.val = result;
                },
                None => {
                    proof {
                        assert(false);
                    }
                },
            }
            val = result;
            proof {
                assert(forall|q: int|
                    0 <= q < self.slots().len() && q != n as int ==> #[trigger] self.slots()[q]
                        == prewrite.slots()[q]);
                assert forall|q: int| 0 <= q < self.model().slots.len() implies self.model().slots.index(
                    q,
                ) == m.slots.index(q) by {
                    if q != n as int {
                        assert(self.slots()[q] == prewrite.slots()[q]);
                    }
                }
                assert(self.model() =~= m);
                assert forall|q: int|
                    prewrite.model().live(q) implies (#[trigger] self.record(q)).input_arena_ptr
                    == prewrite.record(q).input_arena_ptr && self.record(q).gen == prewrite.record(
                    q,
                ).gen && self.record(q).node == prewrite.record(q).node by {
                    if q != n as int {
                        assert(self.slots()[q] == prewrite.slots()[q]);
                    }
                }
                if m.kind(n as int).is_const_spec() && self.record(n as int).gen == u64::MAX {
                    assert(m.node_value(p, n as int) == m.kind(n as int)->Const_0.0);
                }
                assert(self.record(0).val == prewrite.record(0).val);
                crate::control::ControlGraph::lemma_wf_replay_frame(prewrite, *self);
                assert forall|j: int| 0 <= j < k + 1 implies #[trigger] self.record(
                    self.cache_log()[j].0 as int,
                ).val == m.node_value(p, self.cache_log()[j].0 as int) by {
                    assert(self.cache_entry_ok(j));
                    let nj = self.cache_log()[j].0 as int;
                    assert(m.live(nj));
                    if nj != n as int {
                        assert(self.slots()[nj] == prewrite.slots()[nj]);
                        assert(self.record(nj).val == prewrite.record(nj).val);
                    }
                }
                assert forall|q: int|
                    entry.model().live(q) implies (#[trigger] self.record(q)).input_arena_ptr
                    == entry.record(q).input_arena_ptr && self.record(q).gen == entry.record(
                    q,
                ).gen by {
                    assert(iter0.record(q).input_arena_ptr == entry.record(q).input_arena_ptr
                        && iter0.record(q).gen == entry.record(q).gen);
                    if q != n as int {
                        assert(self.slots()[q] == prewrite.slots()[q]);
                        assert(prewrite.slots()[q] == iter0.slots()[q]);
                    }
                }
            }
            k += 1;
        }
        proof {
            assert(self.cache_log().last().0 as int == m.producer(0, 0));
            assert(val == m.node_value(p, m.producer(0, 0)));
            assert(m.sink_value(p) == m.node_value(p, m.producer(0, 0)));
            assert(self.record(self.cache_log()[cache_len - 1].0 as int).val == m.node_value(
                p,
                self.cache_log()[cache_len - 1].0 as int,
            ));
            assert(self.record(m.producer(0, 0)).val == val);
        }
        val
    }

    /// Advances the global phase counter by one and returns the newly
    /// computed value at the sink's sole producer; the zero sample while
    /// nothing is wired to the sink. Runs the cold dependency walk when the
    /// structure changed since the last call, and the warm linear replay
    /// otherwise; either way the recorded evaluation order names each node
    /// at most once — one evaluation per node per phase, however far a
    /// value fans out.
    pub fn next_sample(&mut self) -> (s: Sample)
        requires
            old(self).wf(),
            (old(self).phase() as int) + 1 < (u64::MAX as int),
        ensures
            final(self).wf(),
            final(self).model() == old(self).model(),
            final(self).phase() == old(self).phase() + 1,
            final(self).cache_ok(),
            forall|k1: int, k2: int|
                #![trigger final(self).cache_log()[k1], final(self).cache_log()[k2]]
                0 <= k1 < k2 < final(self).cache_log().len() ==> final(self).cache_log()[k1].0
                    != final(self).cache_log()[k2].0,
            final(self).containers_idents() == old(self).containers_idents(),
            final(self).containers_members() == old(self).containers_members(),
            final(self).containers_children() == old(self).containers_children(),
            final(self).containers_stack() == old(self).containers_stack(),
            s == old(self).model().sink_value(old(self).phase()),
            old(self).model().has_producer(0, 0) ==> final(self).record(
                old(self).model().producer(0, 0),
            ).val == s,
    {
        let ghost entry = *self;
        let ghost m = self.model();
        let ghost p = self.phase();
        let root = match self.find_port_edge(0, 0) {
            Some(e) => {
                let ed = match self.edges[e] {
                    Some(ed) => ed,
                    None => vstd::pervasive::unreached(),
                };
                proof {
                    crate::model::lemma_producer_unique(m, e as int);
                    assert(m.has_producer(0, 0) && m.producer(0, 0) == ed.src as int);
                }
                Some(ed.src)
            },
            None => None,
        };
        match root {
            None => {
                self.cache.clear();
                self.cache_invalid = false;
                self.phase = self.phase + 1;
                proof {
                    assert(self.model() =~= m);
                    crate::control::ControlGraph::lemma_wf_phase_bump(entry, *self);
                    assert(m.sink_value(p) == (Sample { l: 0u64, r: 0u64 }));
                }
                Sample::zero()
            },
            Some(rootn) => {
                let s = if self.cache_invalid {
                    self.cache.clear();
                    proof {
                        Self::lemma_walk_start(entry, *self);
                        assert(rootn != 0);
                        assert(self.record(rootn as int).gen <= p || self.record(
                            rootn as int,
                        ).gen == u64::MAX) by {
                            assert(entry.record(rootn as int).gen == u64::MAX || entry.record(
                                rootn as int,
                            ).gen <= p);
                        }
                    }
                    let s = self.update_node(rootn);
                    let ghost w = *self;
                    self.cache_invalid = false;
                    self.phase = self.phase + 1;
                    proof {
                        assert(self.model() =~= m);
                        assert(self.cache_log().len() > 0);
                        assert(self.cache_log().last().0 as int == m.producer(0, 0));
                        crate::control::ControlGraph::lemma_wf_after_walk(w, *self);
                        assert(m.sink_value(p) == m.node_value(p, rootn as int));
                        assert(self.record(rootn as int).val == s);
                        assert(m.producer(0, 0) == rootn as int);
                    }
                    s
                } else {
                    let s = self.replay();
                    let ghost r = *self;
                    self.phase = self.phase + 1;
                    proof {
                        crate::control::ControlGraph::lemma_wf_phase_bump(r, *self);
                        assert(self.record(m.producer(0, 0)).val == s);
                    }
                    s
                };
                s
            },
        }
    }

    /// Rewinds the phase counter to zero and unpins every per-phase
    /// generation, so that evaluation restarts from the first sample;
    /// pinned constants stay pinned, and the structure is untouched.
    pub fn reset_phase(&mut self)
        requires
            old(self).wf(),
        ensures
            final(self).wf(),
            final(self).model() == old(self).model(),
            final(self).phase() == 0,
            !final(self).cache_ok(),
            final(self).containers_idents() == old(self).containers_idents(),
            final(self).containers_members() == old(self).containers_members(),
            final(self).containers_children() == old(self).containers_children(),
            final(self).containers_stack() == old(self).containers_stack(),
    {
        let ghost entry = *self;
        self.cache_invalid = true;
        proof {
            crate::control::ControlGraph::lemma_wf_frame(entry, *self);
        }
        let ghost flagged = *self;
        let n = self.nodes.len();
        let mut q: usize = 0;
        while q < n
            invariant
                self.wf(),
                !self.cache_ok(),
                n == self.slots().len(),
                q <= n,
                self.model() == flagged.model(),
                self.phase() == flagged.phase(),
                self.arena() == flagged.arena(),
                self.val_arena() == flagged.val_arena(),
                self.containers_idents() == flagged.containers_idents(),
                self.containers_members() == flagged.containers_members(),
                self.containers_children() == flagged.containers_children(),
                self.containers_stack() == flagged.containers_stack(),
                forall|j: int|
                    0 <= j < n && #[trigger] flagged.model().live(j) ==> self.record(j).gen
                        == flagged.record(j).gen || self.record(j).gen == 0,
                forall|j: int|
                    0 <= j < q && #[trigger] flagged.model().live(j) ==> (self.record(j).gen == 0
                        || self.record(j).gen == u64::MAX),
                forall|j: int|
                    0 <= j < n && #[trigger] flagged.model().live(j) ==> self.record(j).val
                        == flagged.record(j).val && self.record(j).input_arena_ptr
                        == flagged.record(j).input_arena_ptr && self.record(j).node
                        == flagged.record(j).node,
            decreases n - q,
        {
            let ghost prewrite = *self;
            match &mut self.nodes[q] {
                Some(nd) => {
                    if nd.gen != u64::MAX {
                        nd.gen = 0;
                    }
                },
                None => {},
            }
            proof {
                assert(self.model() =~= prewrite.model());
                assert(forall|j: int|
                    0 <= j < n && j != q ==> #[trigger] self.slots()[j] == prewrite.slots()[j]);
                assert forall|qq: int, iq: int|
                    self.model().live(qq) && 0 <= iq < self.arity_of(qq) implies #[trigger] self
                    .arena_entry_ok(qq, iq) by {
                    assert(prewrite.arena_entry_ok(qq, iq));
                }
                assert(self.containers_stack() == prewrite.containers_stack());
                assert(self.wf());
            }
            q += 1;
        }
        self.phase = 0;
        proof {
            let ghost looped = *self;
            assert(self.model() =~= entry.model());
            assert forall|j: int| #[trigger]
                self.model().live(j) implies (self.record(j).gen == u64::MAX || self.record(
                j,
            ).gen <= self.phase()) by {
                assert(flagged.model().live(j));
            }
            assert forall|qq: int, iq: int|
                self.model().live(qq) && 0 <= iq < self.arity_of(qq) implies #[trigger] self
                .arena_entry_ok(qq, iq) by {
                assert(flagged.arena_entry_ok(qq, iq));
            }
            assert(self.wf());
        }
    }
}

} // verus!
