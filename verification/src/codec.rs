//! The persisted binary form of a graph.
//!
//! `save` writes the full node, edge and container structure — and nothing
//! transient: no phase counter, no cached values, no evaluation order, no
//! sample rate — as a flat sequence of 64-bit little-endian words. `load`
//! re-reads it, rebuilding the graph through the same verified insertion
//! and wiring operations construction uses, so a decoded graph is
//! well-formed by construction and malformed or cyclic data is rejected,
//! the graph left unconstructed. Handle numbering survives the round trip:
//! dead slots are written out and reserved again on import.

use vstd::prelude::*;

use crate::control::{ControlGraph, GraphError, NodeData};
use crate::fp::NAN_BITS;
use crate::node::Node;
use crate::sample::Sample;
use crate::text::char_from_u32;

verus! {

/// A counted character sequence, one word per character.
pub open spec fn chars_tokens(v: Seq<char>) -> Seq<u64> {
    seq![v.len() as u64] + v.map_values(|c: char| c as u64)
}

/// A counted handle list, one word per handle.
pub open spec fn ids_tokens(v: Seq<usize>) -> Seq<u64> {
    seq![v.len() as u64] + v.map_values(|x: usize| x as u64)
}

/// One node slot's words: a kind tag and the kind's payload, or a single
/// zero for a hole.
pub open spec fn slot_tokens(o: Option<NodeData>) -> Seq<u64> {
    match o {
        None => seq![0u64],
        Some(nd) => match nd.node {
            Node::Empty(_) => seq![1u64],
            Node::ContainerInput(n) => seq![2u64] + chars_tokens(n.label@),
            Node::ContainerOutput(n) => seq![3u64] + chars_tokens(n.label@),
            Node::Sine(_) => seq![4u64],
            Node::Add(_) => seq![5u64],
            Node::Mul(_) => seq![6u64],
            Node::Inv(_) => seq![7u64],
            Node::Const(n) => seq![8u64, n.0.l, n.0.r],
        },
    }
}

/// One edge slot's words: a liveness tag and the endpoints, or a single
/// zero for a hole.
pub open spec fn edge_tokens(o: Option<crate::model::Edge>) -> Seq<u64> {
    match o {
        None => seq![0u64],
        Some(ed) => seq![1u64, ed.src as u64, ed.dst as u64, ed.port as u64],
    }
}

/// The words of the first `n` entries of a sequence, each rendered by `f`.
pub open spec fn entries_tokens<A>(s: Seq<A>, f: spec_fn(A) -> Seq<u64>, n: int) -> Seq<u64>
    decreases n,
{
    if n <= 0 {
        Seq::empty()
    } else {
        entries_tokens(s, f, n - 1) + f(s[n - 1])
    }
}

/// Every word of a graph's persisted form, in order: the node slots, the
/// edge slots, and the container tree's names, member lists and child
/// lists, each section preceded by its count.
pub open spec fn persist_tokens(g: &ControlGraph) -> Seq<u64> {
    seq![g.slots().len() as u64] + entries_tokens(
        g.slots(),
        |o: Option<NodeData>| slot_tokens(o),
        g.slots().len() as int,
    ) + seq![g.edge_slots().len() as u64] + entries_tokens(
        g.edge_slots(),
        |o: Option<crate::model::Edge>| edge_tokens(o),
        g.edge_slots().len() as int,
    ) + seq![g.containers_idents().len() as u64] + entries_tokens(
        g.containers_idents(),
        |v: Seq<char>| chars_tokens(v),
        g.containers_idents().len() as int,
    ) + entries_tokens(
        g.containers_members(),
        |v: Seq<usize>| ids_tokens(v),
        g.containers_members().len() as int,
    ) + entries_tokens(
        g.containers_children(),
        |v: Seq<usize>| ids_tokens(v),
        g.containers_children().len() as int,
    )
}

/// One byte of a word, counting from the least significant.
pub open spec fn word_byte(x: u64, k: int) -> u8 {
    if k == 0 {
        ((x >> 0u64) & 0xFF) as u8
    } else if k == 1 {
        ((x >> 8u64) & 0xFF) as u8
    } else if k == 2 {
        ((x >> 16u64) & 0xFF) as u8
    } else if k == 3 {
        ((x >> 24u64) & 0xFF) as u8
    } else if k == 4 {
        ((x >> 32u64) & 0xFF) as u8
    } else if k == 5 {
        ((x >> 40u64) & 0xFF) as u8
    } else if k == 6 {
        ((x >> 48u64) & 0xFF) as u8
    } else {
        ((x >> 56u64) & 0xFF) as u8
    }
}

/// The little-endian bytes of one word, least significant first.
pub open spec fn word_bytes(x: u64) -> Seq<u8> {
    Seq::new(8, |k: int| word_byte(x, k))
}

/// The little-endian bytes of the first `n` words.
pub open spec fn words_bytes(t: Seq<u64>, n: int) -> Seq<u8>
    decreases n,
{
    if n <= 0 {
        Seq::empty()
    } else {
        words_bytes(t, n - 1) + word_bytes(t[n - 1])
    }
}

/// The persisted binary form of a graph: its words, byte by byte.
pub open spec fn persist_bytes(g: &ControlGraph) -> Seq<u8> {
    words_bytes(persist_tokens(g), persist_tokens(g).len() as int)
}

/// The words of the entries from `i` (inclusive) to `n` (exclusive).
pub open spec fn entries_tokens_from<A>(s: Seq<A>, f: spec_fn(A) -> Seq<u64>, i: int, n: int)
    -> Seq<u64>
    decreases n - i,
{
    if i >= n {
        Seq::empty()
    } else {
        f(s[i]) + entries_tokens_from(s, f, i + 1, n)
    }
}

/// The first `n` entries' words split at any point.
pub proof fn lemma_entries_decomp<A>(s: Seq<A>, f: spec_fn(A) -> Seq<u64>, i: int, n: int)
    requires
        0 <= i <= n,
    ensures
        entries_tokens(s, f, n) == entries_tokens(s, f, i) + entries_tokens_from(s, f, i, n),
    decreases n - i,
{
    if i == n {
        assert(entries_tokens(s, f, n) =~= entries_tokens(s, f, i) + entries_tokens_from(
            s,
            f,
            i,
            n,
        ));
    } else {
        lemma_entries_decomp(s, f, i + 1, n);
        assert(entries_tokens(s, f, i + 1) == entries_tokens(s, f, i) + f(s[i]));
        assert(entries_tokens(s, f, n) =~= entries_tokens(s, f, i) + entries_tokens_from(
            s,
            f,
            i,
            n,
        ));
    }
}

/// Entry streams agree wherever the rendered entries agree.
pub proof fn lemma_entries_pointwise<A>(s1: Seq<A>, s2: Seq<A>, f: spec_fn(A) -> Seq<u64>, n: int)
    requires
        0 <= n <= s1.len(),
        n <= s2.len(),
        forall|q: int| 0 <= q < n ==> #[trigger] f(s1[q]) == f(s2[q]),
    ensures
        entries_tokens(s1, f, n) == entries_tokens(s2, f, n),
    decreases n,
{
    if n > 0 {
        lemma_entries_pointwise(s1, s2, f, n - 1);
    }
}

/// The node-slot section of a graph's persisted words.
pub open spec fn slots_sec(g: &ControlGraph, n: int) -> Seq<u64> {
    entries_tokens(g.slots(), |o: Option<NodeData>| slot_tokens(o), n)
}

/// The edge-slot section of a graph's persisted words.
pub open spec fn edges_sec(g: &ControlGraph, n: int) -> Seq<u64> {
    entries_tokens(g.edge_slots(), |o: Option<crate::model::Edge>| edge_tokens(o), n)
}

/// The container-name section of a graph's persisted words.
pub open spec fn idents_sec(g: &ControlGraph, n: int) -> Seq<u64> {
    entries_tokens(g.containers_idents(), |v: Seq<char>| chars_tokens(v), n)
}

/// The member-list section of a graph's persisted words.
pub open spec fn members_sec(g: &ControlGraph, n: int) -> Seq<u64> {
    entries_tokens(g.containers_members(), |v: Seq<usize>| ids_tokens(v), n)
}

/// The child-list section of a graph's persisted words.
pub open spec fn children_sec(g: &ControlGraph, n: int) -> Seq<u64> {
    entries_tokens(g.containers_children(), |v: Seq<usize>| ids_tokens(v), n)
}

/// The persisted words are the five sections in order, each slot section
/// preceded by its count.
pub proof fn lemma_persist_layout(g: &ControlGraph)
    ensures
        persist_tokens(g) == seq![g.slots().len() as u64] + slots_sec(g, g.slots().len() as int)
            + seq![g.edge_slots().len() as u64] + edges_sec(g, g.edge_slots().len() as int)
            + seq![g.containers_idents().len() as u64] + idents_sec(
            g,
            g.containers_idents().len() as int,
        ) + members_sec(g, g.containers_members().len() as int) + children_sec(
            g,
            g.containers_children().len() as int,
        ),
{
    assert(persist_tokens(g) =~= seq![g.slots().len() as u64] + slots_sec(
        g,
        g.slots().len() as int,
    ) + seq![g.edge_slots().len() as u64] + edges_sec(g, g.edge_slots().len() as int) + seq![
        g.containers_idents().len() as u64,
    ] + idents_sec(g, g.containers_idents().len() as int) + members_sec(
        g,
        g.containers_members().len() as int,
    ) + children_sec(g, g.containers_children().len() as int));
}

/// The byte stream of a word sequence: its length, and the bytes of each
/// word in place.
pub proof fn lemma_words_bytes_at(t: Seq<u64>, n: int)
    requires
        0 <= n <= t.len(),
    ensures
        words_bytes(t, n).len() == 8 * n,
        forall|w: int|
            0 <= w < n ==> #[trigger] words_bytes(t, n).subrange(8 * w, 8 * w + 8) == word_bytes(
                t[w],
            ),
    decreases n,
{
    if n > 0 {
        lemma_words_bytes_at(t, n - 1);
        assert forall|w: int|
            0 <= w < n implies #[trigger] words_bytes(t, n).subrange(8 * w, 8 * w + 8)
            == word_bytes(t[w]) by {
            if w < n - 1 {
                assert(words_bytes(t, n).subrange(8 * w, 8 * w + 8) =~= words_bytes(
                    t,
                    n - 1,
                ).subrange(8 * w, 8 * w + 8));
            } else {
                assert(words_bytes(t, n).subrange(8 * w, 8 * w + 8) =~= word_bytes(t[w]));
            }
        }
    }
}

/// A word is determined by its bytes.
pub proof fn lemma_word_bytes_inj(x: u64, y: u64)
    requires
        word_bytes(x) == word_bytes(y),
    ensures
        x == y,
{
    assert(((x >> 0u64) & 0xFF) as u8 == ((y >> 0u64) & 0xFF) as u8) by {
        assert(word_bytes(x)[0] == word_byte(x, 0));
        assert(word_bytes(y)[0] == word_byte(y, 0));
        assert(word_bytes(x)[0] == word_bytes(y)[0]);
    }
    assert(((x >> 8u64) & 0xFF) as u8 == ((y >> 8u64) & 0xFF) as u8) by {
        assert(word_bytes(x)[1] == word_byte(x, 1));
        assert(word_bytes(y)[1] == word_byte(y, 1));
        assert(word_bytes(x)[1] == word_bytes(y)[1]);
    }
    assert(((x >> 16u64) & 0xFF) as u8 == ((y >> 16u64) & 0xFF) as u8) by {
        assert(word_bytes(x)[2] == word_byte(x, 2));
        assert(word_bytes(y)[2] == word_byte(y, 2));
        assert(word_bytes(x)[2] == word_bytes(y)[2]);
    }
    assert(((x >> 24u64) & 0xFF) as u8 == ((y >> 24u64) & 0xFF) as u8) by {
        assert(word_bytes(x)[3] == word_byte(x, 3));
        assert(word_bytes(y)[3] == word_byte(y, 3));
        assert(word_bytes(x)[3] == word_bytes(y)[3]);
    }
    assert(((x >> 32u64) & 0xFF) as u8 == ((y >> 32u64) & 0xFF) as u8) by {
        assert(word_bytes(x)[4] == word_byte(x, 4));
        assert(word_bytes(y)[4] == word_byte(y, 4));
        assert(word_bytes(x)[4] == word_bytes(y)[4]);
    }
    assert(((x >> 40u64) & 0xFF) as u8 == ((y >> 40u64) & 0xFF) as u8) by {
        assert(word_bytes(x)[5] == word_byte(x, 5));
        assert(word_bytes(y)[5] == word_byte(y, 5));
        assert(word_bytes(x)[5] == word_bytes(y)[5]);
    }
    assert(((x >> 48u64) & 0xFF) as u8 == ((y >> 48u64) & 0xFF) as u8) by {
        assert(word_bytes(x)[6] == word_byte(x, 6));
        assert(word_bytes(y)[6] == word_byte(y, 6));
        assert(word_bytes(x)[6] == word_bytes(y)[6]);
    }
    assert(((x >> 56u64) & 0xFF) as u8 == ((y >> 56u64) & 0xFF) as u8) by {
        assert(word_bytes(x)[7] == word_byte(x, 7));
        assert(word_bytes(y)[7] == word_byte(y, 7));
        assert(word_bytes(x)[7] == word_bytes(y)[7]);
    }
    assert((((x >> 0u64) & 0xFF) as u8 == ((y >> 0u64) & 0xFF) as u8 && ((x >> 8u64) & 0xFF) as u8
        == ((y >> 8u64) & 0xFF) as u8 && ((x >> 16u64) & 0xFF) as u8 == ((y >> 16u64) & 0xFF) as u8
        && ((x >> 24u64) & 0xFF) as u8 == ((y >> 24u64) & 0xFF) as u8 && ((x >> 32u64)
        & 0xFF) as u8 == ((y >> 32u64) & 0xFF) as u8 && ((x >> 40u64) & 0xFF) as u8 == ((y
        >> 40u64) & 0xFF) as u8 && ((x >> 48u64) & 0xFF) as u8 == ((y >> 48u64) & 0xFF) as u8 && ((
    x >> 56u64) & 0xFF) as u8 == ((y >> 56u64) & 0xFF) as u8) ==> x == y) by (bit_vector);
}

/// Where the later sections of the persisted words begin: the edge-count
/// word stands just before `ebase`, and the name, member and child
/// sections start at `ibase`, `mbase` and `cbase`.
pub open spec fn ebase(g: &ControlGraph) -> int {
    2 + slots_sec(g, g.slots().len() as int).len() as int
}

/// Where the container-name section begins.
pub open spec fn ibase(g: &ControlGraph) -> int {
    ebase(g) + 1 + edges_sec(g, g.edge_slots().len() as int).len() as int
}

/// Where the member-list section begins.
pub open spec fn mbase(g: &ControlGraph) -> int {
    ibase(g) + idents_sec(g, g.containers_idents().len() as int).len() as int
}

/// Where the child-list section begins.
pub open spec fn cbase(g: &ControlGraph) -> int {
    mbase(g) + members_sec(g, g.containers_members().len() as int).len() as int
}

/// The count words stand at the section heads, and each section occupies
/// exactly its range of the persisted words.
pub proof fn lemma_sections(g: &ControlGraph)
    ensures
        persist_tokens(g).len() == cbase(g) + children_sec(
            g,
            g.containers_children().len() as int,
        ).len(),
        persist_tokens(g)[0] == g.slots().len() as u64,
        persist_tokens(g)[ebase(g) - 1] == g.edge_slots().len() as u64,
        persist_tokens(g)[ibase(g) - 1] == g.containers_idents().len() as u64,
        persist_tokens(g).subrange(1, ebase(g) - 1) == slots_sec(g, g.slots().len() as int),
        persist_tokens(g).subrange(ebase(g), ibase(g) - 1) == edges_sec(
            g,
            g.edge_slots().len() as int,
        ),
        persist_tokens(g).subrange(ibase(g), mbase(g)) == idents_sec(
            g,
            g.containers_idents().len() as int,
        ),
        persist_tokens(g).subrange(mbase(g), cbase(g)) == members_sec(
            g,
            g.containers_members().len() as int,
        ),
        persist_tokens(g).subrange(cbase(g), persist_tokens(g).len() as int) == children_sec(
            g,
            g.containers_children().len() as int,
        ),
{
    lemma_persist_layout(g);
    let pt = persist_tokens(g);
    let ss = slots_sec(g, g.slots().len() as int);
    let es = edges_sec(g, g.edge_slots().len() as int);
    let is_ = idents_sec(g, g.containers_idents().len() as int);
    let ms = members_sec(g, g.containers_members().len() as int);
    let cs = children_sec(g, g.containers_children().len() as int);
    assert(pt == seq![g.slots().len() as u64] + ss + seq![g.edge_slots().len() as u64] + es + seq![
        g.containers_idents().len() as u64,
    ] + is_ + ms + cs);
    assert(pt.len() == 3 + ss.len() + es.len() + is_.len() + ms.len() + cs.len());
    assert(pt[0] == g.slots().len() as u64);
    assert(pt[ebase(g) - 1] == g.edge_slots().len() as u64);
    assert(pt[ibase(g) - 1] == g.containers_idents().len() as u64);
    assert(pt.subrange(1, ebase(g) - 1) =~= ss);
    assert(pt.subrange(ebase(g), ibase(g) - 1) =~= es);
    assert(pt.subrange(ibase(g), mbase(g)) =~= is_);
    assert(pt.subrange(mbase(g), cbase(g)) =~= ms);
    assert(pt.subrange(cbase(g), pt.len() as int) =~= cs);
}

/// A section whose entries each render to at least one word holds at
/// least one word per entry.
pub proof fn lemma_entries_min_len<A>(s: Seq<A>, f: spec_fn(A) -> Seq<u64>, n: int)
    requires
        0 <= n,
        forall|q: int| 0 <= q < n ==> (#[trigger] f(s[q])).len() >= 1,
    ensures
        entries_tokens(s, f, n).len() >= n,
    decreases n,
{
    if n > 0 {
        lemma_entries_min_len(s, f, n - 1);
    }
}

/// The words of node slot `i` stand in place in the persisted stream.
pub proof fn lemma_slot_words_at(g: &ControlGraph, i: int)
    requires
        0 <= i < g.slots().len(),
    ensures
        slots_sec(g, i + 1) == slots_sec(g, i) + slot_tokens(g.slots()[i]),
        1 + slots_sec(g, i + 1).len() <= ebase(g) - 1,
        forall|k: int|
            0 <= k < slot_tokens(g.slots()[i]).len() ==> persist_tokens(g)[1 + slots_sec(
                g,
                i,
            ).len() + k] == slot_tokens(g.slots()[i])[k],
{
    let f = |o: Option<NodeData>| slot_tokens(o);
    let n = g.slots().len() as int;
    let tk = slot_tokens(g.slots()[i]);
    assert(slots_sec(g, i + 1) == slots_sec(g, i) + f(g.slots()[i]));
    lemma_entries_decomp(g.slots(), f, i + 1, n);
    assert(slots_sec(g, n) == slots_sec(g, i + 1) + entries_tokens_from(g.slots(), f, i + 1, n));
    lemma_sections(g);
    let pt = persist_tokens(g);
    assert forall|k: int| 0 <= k < tk.len() implies pt[1 + slots_sec(g, i).len() + k] == tk[k] by {
        assert(slots_sec(g, n)[slots_sec(g, i).len() + k] == tk[k]);
        assert(pt.subrange(1, ebase(g) - 1)[slots_sec(g, i).len() + k] == pt[1 + slots_sec(
            g,
            i,
        ).len() + k]);
    }
}

/// The words of edge slot `j` stand in place in the persisted stream.
pub proof fn lemma_edge_words_at(g: &ControlGraph, j: int)
    requires
        0 <= j < g.edge_slots().len(),
    ensures
        edges_sec(g, j + 1) == edges_sec(g, j) + edge_tokens(g.edge_slots()[j]),
        ebase(g) + edges_sec(g, j + 1).len() <= ibase(g) - 1,
        forall|k: int|
            0 <= k < edge_tokens(g.edge_slots()[j]).len() ==> persist_tokens(g)[ebase(g)
                + edges_sec(g, j).len() + k] == edge_tokens(g.edge_slots()[j])[k],
{
    let f = |o: Option<crate::model::Edge>| edge_tokens(o);
    let n = g.edge_slots().len() as int;
    let tk = edge_tokens(g.edge_slots()[j]);
    assert(edges_sec(g, j + 1) == edges_sec(g, j) + f(g.edge_slots()[j]));
    lemma_entries_decomp(g.edge_slots(), f, j + 1, n);
    assert(edges_sec(g, n) == edges_sec(g, j + 1) + entries_tokens_from(
        g.edge_slots(),
        f,
        j + 1,
        n,
    ));
    lemma_sections(g);
    let pt = persist_tokens(g);
    assert forall|k: int| 0 <= k < tk.len() implies pt[ebase(g) + edges_sec(g, j).len() + k]
        == tk[k] by {
        assert(edges_sec(g, n)[edges_sec(g, j).len() + k] == tk[k]);
        assert(pt.subrange(ebase(g), ibase(g) - 1)[edges_sec(g, j).len() + k] == pt[ebase(g)
            + edges_sec(g, j).len() + k]);
    }
}

/// The words of container name `c` stand in place in the persisted stream.
pub proof fn lemma_ident_words_at(g: &ControlGraph, c: int)
    requires
        0 <= c < g.containers_idents().len(),
    ensures
        idents_sec(g, c + 1) == idents_sec(g, c) + chars_tokens(g.containers_idents()[c]),
        ibase(g) + idents_sec(g, c + 1).len() <= mbase(g),
        forall|k: int|
            0 <= k < chars_tokens(g.containers_idents()[c]).len() ==> persist_tokens(g)[ibase(g)
                + idents_sec(g, c).len() + k] == chars_tokens(g.containers_idents()[c])[k],
{
    let f = |v: Seq<char>| chars_tokens(v);
    let n = g.containers_idents().len() as int;
    let tk = chars_tokens(g.containers_idents()[c]);
    assert(idents_sec(g, c + 1) == idents_sec(g, c) + f(g.containers_idents()[c]));
    lemma_entries_decomp(g.containers_idents(), f, c + 1, n);
    assert(idents_sec(g, n) == idents_sec(g, c + 1) + entries_tokens_from(
        g.containers_idents(),
        f,
        c + 1,
        n,
    ));
    lemma_sections(g);
    let pt = persist_tokens(g);
    assert forall|k: int| 0 <= k < tk.len() implies pt[ibase(g) + idents_sec(g, c).len() + k]
        == tk[k] by {
        assert(idents_sec(g, n)[idents_sec(g, c).len() + k] == tk[k]);
        assert(pt.subrange(ibase(g), mbase(g))[idents_sec(g, c).len() + k] == pt[ibase(g)
            + idents_sec(g, c).len() + k]);
    }
}

/// The words of member list `c` stand in place in the persisted stream.
pub proof fn lemma_member_words_at(g: &ControlGraph, c: int)
    requires
        0 <= c < g.containers_members().len(),
    ensures
        members_sec(g, c + 1) == members_sec(g, c) + ids_tokens(g.containers_members()[c]),
        mbase(g) + members_sec(g, c + 1).len() <= cbase(g),
        forall|k: int|
            0 <= k < ids_tokens(g.containers_members()[c]).len() ==> persist_tokens(g)[mbase(g)
                + members_sec(g, c).len() + k] == ids_tokens(g.containers_members()[c])[k],
{
    let f = |v: Seq<usize>| ids_tokens(v);
    let n = g.containers_members().len() as int;
    let tk = ids_tokens(g.containers_members()[c]);
    assert(members_sec(g, c + 1) == members_sec(g, c) + f(g.containers_members()[c]));
    lemma_entries_decomp(g.containers_members(), f, c + 1, n);
    assert(members_sec(g, n) == members_sec(g, c + 1) + entries_tokens_from(
        g.containers_members(),
        f,
        c + 1,
        n,
    ));
    lemma_sections(g);
    let pt = persist_tokens(g);
    assert forall|k: int| 0 <= k < tk.len() implies pt[mbase(g) + members_sec(g, c).len() + k]
        == tk[k] by {
        assert(members_sec(g, n)[members_sec(g, c).len() + k] == tk[k]);
        assert(pt.subrange(mbase(g), cbase(g))[members_sec(g, c).len() + k] == pt[mbase(g)
            + members_sec(g, c).len() + k]);
    }
}

/// The words of child list `c` stand in place in the persisted stream.
pub proof fn lemma_child_words_at(g: &ControlGraph, c: int)
    requires
        0 <= c < g.containers_children().len(),
    ensures
        children_sec(g, c + 1) == children_sec(g, c) + ids_tokens(g.containers_children()[c]),
        cbase(g) + children_sec(g, c + 1).len() <= persist_tokens(g).len(),
        forall|k: int|
            0 <= k < ids_tokens(g.containers_children()[c]).len() ==> persist_tokens(g)[cbase(g)
                + children_sec(g, c).len() + k] == ids_tokens(g.containers_children()[c])[k],
{
    let f = |v: Seq<usize>| ids_tokens(v);
    let n = g.containers_children().len() as int;
    let tk = ids_tokens(g.containers_children()[c]);
    assert(children_sec(g, c + 1) == children_sec(g, c) + f(g.containers_children()[c]));
    lemma_entries_decomp(g.containers_children(), f, c + 1, n);
    assert(children_sec(g, n) == children_sec(g, c + 1) + entries_tokens_from(
        g.containers_children(),
        f,
        c + 1,
        n,
    ));
    lemma_sections(g);
    let pt = persist_tokens(g);
    assert forall|k: int| 0 <= k < tk.len() implies pt[cbase(g) + children_sec(g, c).len() + k]
        == tk[k] by {
        assert(children_sec(g, n)[children_sec(g, c).len() + k] == tk[k]);
        assert(pt.subrange(cbase(g), pt.len() as int)[children_sec(g, c).len() + k] == pt[cbase(g)
            + children_sec(g, c).len() + k]);
    }
}

/// Equal slot words mean the same liveness and operator shape: holes match
/// holes, and live operators have the same arity and constancy.
pub proof fn lemma_slot_tokens_shape(o1: Option<NodeData>, o2: Option<NodeData>)
    requires
        slot_tokens(o1) == slot_tokens(o2),
    ensures
        o1 is Some <==> o2 is Some,
        (o1 is Some && o2 is Some) ==> o1->0.node.arity_spec() == o2->0.node.arity_spec()
            && (o1->0.node.is_const_spec() <==> o2->0.node.is_const_spec()),
{
    lemma_slot_tokens_tag(o1);
    lemma_slot_tokens_tag(o2);
    assert(slot_tokens(o1)[0] == slot_tokens(o2)[0]);
}

/// The first word of a slot names its operator shape.
pub proof fn lemma_slot_tokens_tag(o: Option<NodeData>)
    ensures
        slot_tokens(o).len() >= 1,
        o is None <==> slot_tokens(o)[0] == 0,
        o is Some ==> match o->0.node {
            Node::Empty(_) => slot_tokens(o)[0] == 1,
            Node::ContainerInput(_) => slot_tokens(o)[0] == 2,
            Node::ContainerOutput(_) => slot_tokens(o)[0] == 3,
            Node::Sine(_) => slot_tokens(o)[0] == 4,
            Node::Add(_) => slot_tokens(o)[0] == 5,
            Node::Mul(_) => slot_tokens(o)[0] == 6,
            Node::Inv(_) => slot_tokens(o)[0] == 7,
            Node::Const(_) => slot_tokens(o)[0] == 8,
        },
{
    match o {
        None => {},
        Some(nd) => {
            match nd.node {
                Node::Empty(_) => {
                    assert(slot_tokens(o)[0] == 1);
                },
                Node::ContainerInput(_) => {
                    assert(slot_tokens(o)[0] == 2);
                },
                Node::ContainerOutput(_) => {
                    assert(slot_tokens(o)[0] == 3);
                },
                Node::Sine(_) => {
                    assert(slot_tokens(o)[0] == 4);
                },
                Node::Add(_) => {
                    assert(slot_tokens(o)[0] == 5);
                },
                Node::Mul(_) => {
                    assert(slot_tokens(o)[0] == 6);
                },
                Node::Inv(_) => {
                    assert(slot_tokens(o)[0] == 7);
                },
                Node::Const(_) => {
                    assert(slot_tokens(o)[0] == 8);
                },
            }
        },
    }
}

/// Appends a character sequence as a count followed by one word per
/// character.
pub(crate) fn push_chars(t: &mut Vec<u64>, v: &Vec<char>) -> (r: ())
    ensures
        final(t)@ == old(t)@ + chars_tokens(v@),
{
    t.push(v.len() as u64);
    let mut i: usize = 0;
    while i < v.len()
        invariant
            i <= v@.len(),
            t@ == old(t)@ + seq![v@.len() as u64] + v@.map_values(|c: char| c as u64).take(
                i as int,
            ),
        decreases v.len() - i,
    {
        t.push(v[i] as u64);
        i += 1;
        proof {
            assert(t@ =~= old(t)@ + seq![v@.len() as u64] + v@.map_values(
                |c: char| c as u64,
            ).take(i as int));
        }
    }
    proof {
        assert(v@.map_values(|c: char| c as u64).take(v@.len() as int) =~= v@.map_values(
            |c: char| c as u64,
        ));
        assert(t@ =~= old(t)@ + chars_tokens(v@));
    }
}

/// Appends a handle list as a count followed by one word per handle.
pub(crate) fn push_ids(t: &mut Vec<u64>, v: &Vec<usize>) -> (r: ())
    ensures
        final(t)@ == old(t)@ + ids_tokens(v@),
{
    t.push(v.len() as u64);
    let mut i: usize = 0;
    while i < v.len()
        invariant
            i <= v@.len(),
            t@ == old(t)@ + seq![v@.len() as u64] + v@.map_values(|x: usize| x as u64).take(
                i as int,
            ),
        decreases v.len() - i,
    {
        t.push(v[i] as u64);
        i += 1;
        proof {
            assert(t@ =~= old(t)@ + seq![v@.len() as u64] + v@.map_values(
                |x: usize| x as u64,
            ).take(i as int));
        }
    }
    proof {
        assert(v@.map_values(|x: usize| x as u64).take(v@.len() as int) =~= v@.map_values(
            |x: usize| x as u64,
        ));
        assert(t@ =~= old(t)@ + ids_tokens(v@));
    }
}

/// Reads one little-endian word, returning it with the next cursor; the
/// word read is exactly the one whose bytes lie at the cursor, so reading
/// inverts writing.
fn read_word(data: &[u8], pos: usize) -> (r: Option<(u64, usize)>)
    ensures
        match r {
            Some(p) => pos + 8 <= data@.len() && p.1 == pos + 8 && data@.subrange(
                pos as int,
                pos as int + 8,
            ) == word_bytes(p.0),
            None => pos + 8 > data@.len(),
        },
{
    if pos >= data.len() || data.len() - pos < 8 {
        return None;
    }
    let b0 = data[pos];
    let b1 = data[pos + 1];
    let b2 = data[pos + 2];
    let b3 = data[pos + 3];
    let b4 = data[pos + 4];
    let b5 = data[pos + 5];
    let b6 = data[pos + 6];
    let b7 = data[pos + 7];
    let x = (b0 as u64) | ((b1 as u64) << 8u64) | ((b2 as u64) << 16u64) | ((b3 as u64) << 24u64)
        | ((b4 as u64) << 32u64) | ((b5 as u64) << 40u64) | ((b6 as u64) << 48u64) | ((b7 as u64)
        << 56u64);
    proof {
        assert forall|k: int| 0 <= k < 8 implies word_bytes(x)[k] == data@.subrange(
            pos as int,
            pos as int + 8,
        )[k] by {
            if k == 0 {
                assert(((((b0 as u64) | ((b1 as u64) << 8u64) | ((b2 as u64) << 16u64) | ((b3 as u64) << 24u64) | ((b4 as u64) << 32u64) | ((b5 as u64) << 40u64) | ((b6 as u64) << 48u64) | ((b7 as u64) << 56u64)) >> 0u64) & 0xFF) as u8 == b0) by (bit_vector);
            } else if k == 1 {
                assert(((((b0 as u64) | ((b1 as u64) << 8u64) | ((b2 as u64) << 16u64) | ((b3 as u64) << 24u64) | ((b4 as u64) << 32u64) | ((b5 as u64) << 40u64) | ((b6 as u64) << 48u64) | ((b7 as u64) << 56u64)) >> 8u64) & 0xFF) as u8 == b1) by (bit_vector);
            } else if k == 2 {
                assert(((((b0 as u64) | ((b1 as u64) << 8u64) | ((b2 as u64) << 16u64) | ((b3 as u64) << 24u64) | ((b4 as u64) << 32u64) | ((b5 as u64) << 40u64) | ((b6 as u64) << 48u64) | ((b7 as u64) << 56u64)) >> 16u64) & 0xFF) as u8 == b2) by (bit_vector);
            } else if k == 3 {
                assert(((((b0 as u64) | ((b1 as u64) << 8u64) | ((b2 as u64) << 16u64) | ((b3 as u64) << 24u64) | ((b4 as u64) << 32u64) | ((b5 as u64) << 40u64) | ((b6 as u64) << 48u64) | ((b7 as u64) << 56u64)) >> 24u64) & 0xFF) as u8 == b3) by (bit_vector);
            } else if k == 4 {
                assert(((((b0 as u64) | ((b1 as u64) << 8u64) | ((b2 as u64) << 16u64) | ((b3 as u64) << 24u64) | ((b4 as u64) << 32u64) | ((b5 as u64) << 40u64) | ((b6 as u64) << 48u64) | ((b7 as u64) << 56u64)) >> 32u64) & 0xFF) as u8 == b4) by (bit_vector);
            } else if k == 5 {
                assert(((((b0 as u64) | ((b1 as u64) << 8u64) | ((b2 as u64) << 16u64) | ((b3 as u64) << 24u64) | ((b4 as u64) << 32u64) | ((b5 as u64) << 40u64) | ((b6 as u64) << 48u64) | ((b7 as u64) << 56u64)) >> 40u64) & 0xFF) as u8 == b5) by (bit_vector);
            } else if k == 6 {
                assert(((((b0 as u64) | ((b1 as u64) << 8u64) | ((b2 as u64) << 16u64) | ((b3 as u64) << 24u64) | ((b4 as u64) << 32u64) | ((b5 as u64) << 40u64) | ((b6 as u64) << 48u64) | ((b7 as u64) << 56u64)) >> 48u64) & 0xFF) as u8 == b6) by (bit_vector);
            } else {
                assert(((((b0 as u64) | ((b1 as u64) << 8u64) | ((b2 as u64) << 16u64) | ((b3 as u64) << 24u64) | ((b4 as u64) << 32u64) | ((b5 as u64) << 40u64) | ((b6 as u64) << 48u64) | ((b7 as u64) << 56u64)) >> 56u64) & 0xFF) as u8 == b7) by (bit_vector);
            }
        }
        assert(data@.subrange(pos as int, pos as int + 8) =~= word_bytes(x));
    }
    Some((x, pos + 8))
}

/// Splits the byte stream into its 64-bit little-endian words; rejected
/// unless the stream is word-aligned.
fn read_tokens(data: &[u8]) -> (r: Option<Vec<u64>>)
    ensures
        match r {
            Some(t) => data@.len() == 8 * t@.len() && forall|w: int|
                0 <= w < t@.len() ==> #[trigger] data@.subrange(8 * w, 8 * w + 8) == word_bytes(
                    t@[w],
                ),
            None => data@.len() % 8 != 0,
        },
{
    if data.len() % 8 != 0 {
        return None;
    }
    let dlen = data.len();
    let n = dlen / 8;
    let mut t: Vec<u64> = Vec::new();
    let mut w: usize = 0;
    while w < n
        invariant
            dlen == data@.len(),
            dlen == 8 * n,
            t@.len() == w,
            w <= n,
            forall|j: int|
                0 <= j < w ==> #[trigger] data@.subrange(8 * j, 8 * j + 8) == word_bytes(t@[j]),
        decreases n - w,
    {
        proof {
            assert(8 * (w as int) + 8 <= dlen);
        }
        let x = match read_word(data, 8 * w) {
            Some(p) => p.0,
            None => vstd::pervasive::unreached(),
        };
        t.push(x);
        w += 1;
    }
    Some(t)
}

/// Reads a counted character sequence from the word stream: a count,
/// then one scalar value per character. Whatever character sequence is
/// encoded at the cursor is read back exactly.
fn read_chars_t(t: &Vec<u64>, cur: usize) -> (r: Option<(Vec<char>, usize)>)
    ensures
        match r {
            Some(p) => {
                &&& (cur as int) < t@.len()
                &&& t@[cur as int] == p.0@.len() as u64
                &&& p.1 as int == cur + 1 + p.0@.len()
                &&& p.1 as int <= t@.len()
                &&& forall|i: int|
                    0 <= i < p.0@.len() ==> t@[cur + 1 + i] == ((#[trigger] p.0@[i]) as u64)
            },
            None => true,
        },
        forall|lbl: Seq<char>|
            #![trigger lbl.len()]
            ((cur as int) < t@.len() && t@[cur as int] == lbl.len() as u64 && cur + 1 + lbl.len()
                <= t@.len() && (forall|i: int|
                0 <= i < lbl.len() ==> t@[cur + 1 + i] == ((#[trigger] lbl[i]) as u64))) ==> (
            r matches Some(p) && p.0@ == lbl && p.1 as int == cur + 1 + lbl.len()),
{
    let tlen = t.len();
    if cur >= tlen {
        return None;
    }
    let count = t[cur];
    if count > (tlen - cur - 1) as u64 {
        proof {
            assert forall|lbl: Seq<char>|
                #![trigger lbl.len()]
                !((cur as int) < t@.len() && t@[cur as int] == lbl.len() as u64 && cur + 1
                    + lbl.len() <= t@.len() && (forall|i: int|
                    0 <= i < lbl.len() ==> t@[cur + 1 + i] == ((#[trigger] lbl[i]) as u64))) by {
                if t@[cur as int] == lbl.len() as u64 && cur + 1 + lbl.len() <= t@.len() {
                    assert(cur + 1 + lbl.len() <= tlen as int);
                    assert(lbl.len() <= (tlen - cur - 1) as int);
                    assert(count == lbl.len() as u64);
                    assert(count <= (tlen - cur - 1) as u64);
                }
            }
        }
        return None;
    }
    let mut v: Vec<char> = Vec::new();
    let mut i: u64 = 0;
    let mut cur2 = cur + 1;
    while i < count
        invariant
            tlen == t@.len(),
            (cur as int) < t@.len(),
            t@[cur as int] == count,
            count <= (tlen - cur - 1) as u64,
            i <= count,
            v@.len() == i as int,
            cur2 as int == cur + 1 + i,
            forall|j: int| 0 <= j < i ==> t@[cur + 1 + j] == ((#[trigger] v@[j]) as u64),
            forall|lbl: Seq<char>|
                #![trigger lbl.len()]
                (t@[cur as int] == lbl.len() as u64 && cur + 1 + lbl.len() <= t@.len() && (
                forall|q: int|
                    0 <= q < lbl.len() ==> t@[cur + 1 + q] == ((#[trigger] lbl[q]) as u64)))
                    ==> v@ == lbl.take(i as int),
        decreases count - i,
    {
        let w = t[cur2];
        if w > (u32::MAX as u64) {
            proof {
                assert forall|lbl: Seq<char>|
                    #![trigger lbl.len()]
                    !(t@[cur as int] == lbl.len() as u64 && cur + 1 + lbl.len() <= t@.len() && (
                    forall|q: int|
                        0 <= q < lbl.len() ==> t@[cur + 1 + q] == ((#[trigger] lbl[q]) as u64))) by {
                    if t@[cur as int] == lbl.len() as u64 && cur + 1 + lbl.len() <= t@.len() && (
                    forall|q: int|
                        0 <= q < lbl.len() ==> t@[cur + 1 + q] == ((lbl[q]) as u64)) {
                        assert(lbl.len() <= tlen as int);
                        assert(lbl.len() == count as int);
                        assert((i as int) < lbl.len());
                        assert(t@[cur + 1 + i] == (lbl[i as int] as u64));
                        crate::text::lemma_char_scalar(lbl[i as int]);
                        assert(w == lbl[i as int] as u64);
                        assert(w <= (u32::MAX as u64));
                    }
                }
            }
            return None;
        }
        let c = match crate::text::char_from_u32(w as u32) {
            Some(c) => c,
            None => {
                proof {
                    assert forall|lbl: Seq<char>|
                        #![trigger lbl.len()]
                        !(t@[cur as int] == lbl.len() as u64 && cur + 1 + lbl.len() <= t@.len()
                            && (forall|q: int|
                            0 <= q < lbl.len() ==> t@[cur + 1 + q] == ((#[trigger] lbl[q]) as u64)
                        )) by {
                        if t@[cur as int] == lbl.len() as u64 && cur + 1 + lbl.len() <= t@.len()
                            && (forall|q: int|
                            0 <= q < lbl.len() ==> t@[cur + 1 + q] == ((lbl[q]) as u64)) {
                            assert(lbl.len() <= tlen as int);
                            assert(lbl.len() == count as int);
                            assert((i as int) < lbl.len());
                            assert(t@[cur + 1 + i] == (lbl[i as int] as u64));
                            crate::text::lemma_char_scalar(lbl[i as int]);
                            assert(w == lbl[i as int] as u64);
                            assert(w == (lbl[i as int] as u32) as u64);
                            assert(w as u32 == lbl[i as int] as u32);
                            assert(!(0xD800 <= (w as u32) && (w as u32) < 0xE000));
                        }
                    }
                }
                return None;
            },
        };
        v.push(c);
        cur2 += 1;
        i += 1;
        proof {
            assert(c as u64 == w) by {
                crate::text::lemma_char_scalar(c);
                assert(c as u32 == w as u32);
                assert(w <= (u32::MAX as u64));
                assert((w as u32) as u64 == w);
            }
            assert(t@[cur + 1 + (i - 1)] == (v@[i - 1] as u64));
            assert forall|lbl: Seq<char>|
                #![trigger lbl.len()]
                (t@[cur as int] == lbl.len() as u64 && cur + 1 + lbl.len() <= t@.len() && (
                forall|q: int|
                    0 <= q < lbl.len() ==> t@[cur + 1 + q] == ((#[trigger] lbl[q]) as u64)))
                    implies v@ == lbl.take(i as int) by {
                assert(lbl.len() <= tlen as int);
                assert(lbl.len() == count as int);
                assert((i as int - 1) < lbl.len());
                assert(v@.drop_last() == lbl.take(i as int - 1));
                assert(t@[cur + 1 + (i - 1)] == (lbl[i as int - 1] as u64));
                crate::text::lemma_char_scalar(lbl[i as int - 1]);
                assert(w == (lbl[i as int - 1] as u32) as u64);
                assert(c as u32 == lbl[i as int - 1] as u32);
                crate::text::lemma_char_inj(c, lbl[i as int - 1]);
                assert(v@ =~= lbl.take(i as int));
            }
        }
    }
    proof {
        assert forall|lbl: Seq<char>|
            #![trigger lbl.len()]
            (t@[cur as int] == lbl.len() as u64 && cur + 1 + lbl.len() <= t@.len() && (forall|
                q: int,
            |
                0 <= q < lbl.len() ==> t@[cur + 1 + q] == ((#[trigger] lbl[q]) as u64))) implies v@
            == lbl by {
            assert(lbl.len() <= tlen as int);
            assert(lbl.len() == count as int);
            assert(v@ == lbl.take(count as int));
            assert(lbl.take(count as int) =~= lbl);
        }
    }
    Some((v, cur2))
}

/// Reads a counted handle list from the word stream. Whatever handle list
/// is encoded at the cursor is read back exactly.
fn read_ids_t(t: &Vec<u64>, cur: usize) -> (r: Option<(Vec<usize>, usize)>)
    ensures
        match r {
            Some(p) => {
                &&& (cur as int) < t@.len()
                &&& t@[cur as int] == p.0@.len() as u64
                &&& p.1 as int == cur + 1 + p.0@.len()
                &&& p.1 as int <= t@.len()
                &&& forall|i: int|
                    0 <= i < p.0@.len() ==> t@[cur + 1 + i] == ((#[trigger] p.0@[i]) as u64)
            },
            None => true,
        },
        forall|ids: Seq<usize>|
            #![trigger ids.len()]
            ((cur as int) < t@.len() && t@[cur as int] == ids.len() as u64 && cur + 1 + ids.len()
                <= t@.len() && (forall|i: int|
                0 <= i < ids.len() ==> t@[cur + 1 + i] == ((#[trigger] ids[i]) as u64))) ==> (
            r matches Some(p) && p.0@ == ids && p.1 as int == cur + 1 + ids.len()),
{
    let tlen = t.len();
    if cur >= tlen {
        return None;
    }
    let count = t[cur];
    if count > (tlen - cur - 1) as u64 {
        proof {
            assert forall|ids: Seq<usize>|
                #![trigger ids.len()]
                !((cur as int) < t@.len() && t@[cur as int] == ids.len() as u64 && cur + 1
                    + ids.len() <= t@.len() && (forall|i: int|
                    0 <= i < ids.len() ==> t@[cur + 1 + i] == ((#[trigger] ids[i]) as u64))) by {
                if t@[cur as int] == ids.len() as u64 && cur + 1 + ids.len() <= t@.len() {
                    assert(cur + 1 + ids.len() <= tlen as int);
                    assert(ids.len() <= (tlen - cur - 1) as int);
                    assert(count == ids.len() as u64);
                    assert(count <= (tlen - cur - 1) as u64);
                }
            }
        }
        return None;
    }
    let mut v: Vec<usize> = Vec::new();
    let mut i: u64 = 0;
    let mut cur2 = cur + 1;
    while i < count
        invariant
            tlen == t@.len(),
            (cur as int) < t@.len(),
            t@[cur as int] == count,
            count <= (tlen - cur - 1) as u64,
            i <= count,
            v@.len() == i as int,
            cur2 as int == cur + 1 + i,
            forall|j: int| 0 <= j < i ==> t@[cur + 1 + j] == ((#[trigger] v@[j]) as u64),
            forall|ids: Seq<usize>|
                #![trigger ids.len()]
                (t@[cur as int] == ids.len() as u64 && cur + 1 + ids.len() <= t@.len() && (
                forall|q: int|
                    0 <= q < ids.len() ==> t@[cur + 1 + q] == ((#[trigger] ids[q]) as u64)))
                    ==> v@ == ids.take(i as int),
        decreases count - i,
    {
        let w = t[cur2];
        if w > (usize::MAX as u64) {
            proof {
                assert forall|ids: Seq<usize>|
                    #![trigger ids.len()]
                    !(t@[cur as int] == ids.len() as u64 && cur + 1 + ids.len() <= t@.len() && (
                    forall|q: int|
                        0 <= q < ids.len() ==> t@[cur + 1 + q] == ((#[trigger] ids[q]) as u64))) by {
                    if t@[cur as int] == ids.len() as u64 && cur + 1 + ids.len() <= t@.len() && (
                    forall|q: int|
                        0 <= q < ids.len() ==> t@[cur + 1 + q] == ((ids[q]) as u64)) {
                        assert(ids.len() <= tlen as int);
                        assert(ids.len() == count as int);
                        assert((i as int) < ids.len());
                        assert(t@[cur + 1 + i] == (ids[i as int] as u64));
                        assert(w == ids[i as int] as u64);
                        assert(ids[i as int] as u64 <= usize::MAX as u64);
                    }
                }
            }
            return None;
        }
        v.push(w as usize);
        cur2 += 1;
        i += 1;
        proof {
            assert(((w as usize) as u64) == w);
            assert(t@[cur + 1 + (i - 1)] == (v@[i - 1] as u64));
            assert forall|ids: Seq<usize>|
                #![trigger ids.len()]
                (t@[cur as int] == ids.len() as u64 && cur + 1 + ids.len() <= t@.len() && (
                forall|q: int|
                    0 <= q < ids.len() ==> t@[cur + 1 + q] == ((#[trigger] ids[q]) as u64)))
                    implies v@ == ids.take(i as int) by {
                assert(ids.len() <= tlen as int);
                assert(ids.len() == count as int);
                assert((i as int - 1) < ids.len());
                assert(v@.drop_last() == ids.take(i as int - 1));
                assert(t@[cur + 1 + (i - 1)] == (ids[i as int - 1] as u64));
                assert((w as usize) == ids[i as int - 1]);
                assert(v@ =~= ids.take(i as int));
            }
        }
    }
    proof {
        assert forall|ids: Seq<usize>|
            #![trigger ids.len()]
            (t@[cur as int] == ids.len() as u64 && cur + 1 + ids.len() <= t@.len() && (forall|
                q: int,
            |
                0 <= q < ids.len() ==> t@[cur + 1 + q] == ((#[trigger] ids[q]) as u64))) implies v@
            == ids by {
            assert(ids.len() <= tlen as int);
            assert(ids.len() == count as int);
            assert(v@ == ids.take(count as int));
            assert(ids.take(count as int) =~= ids);
        }
    }
    Some((v, cur2))
}

/// Whether a re-encoded byte vector matches the bytes that were read.
fn bytes_eq(a: &Vec<u8>, b: &[u8]) -> (r: bool)
    ensures
        r == (a@ == b@),
{
    if a.len() != b.len() {
        return false;
    }
    let n = a.len();
    let mut i: usize = 0;
    while i < n
        invariant
            n == a@.len(),
            n == b@.len(),
            i <= n,
            forall|j: int| 0 <= j < i ==> a@[j] == b@[j],
        decreases n - i,
    {
        if a[i] != b[i] {
            return false;
        }
        i += 1;
    }
    proof {
        assert(a@ =~= b@);
    }
    true
}

/// `data` is the persisted form of the well-formed graph `g0`, taken with
/// no construction scope left open.
pub open spec fn encodes(data: Seq<u8>, g0: ControlGraph) -> bool {
    &&& g0.wf()
    &&& g0.containers_stack() == Seq::<usize>::empty()
    &&& data == persist_bytes(&g0)
}

/// The label a boundary node carries; the empty sequence elsewhere.
spec fn label_of(n: Node) -> Seq<char> {
    match n {
        Node::ContainerInput(x) => x.label@,
        Node::ContainerOutput(x) => x.label@,
        _ => Seq::<char>::empty(),
    }
}

/// The sample a constant node carries; the zero sample elsewhere.
spec fn const_of(n: Node) -> Sample {
    match n {
        Node::Const(x) => x.0,
        _ => Sample { l: 0u64, r: 0u64 },
    }
}

/// Every count that heads a section is bounded by the word count: each
/// entry takes at least one word.
pub proof fn lemma_counts_bounded(g0: &ControlGraph)
    ensures
        g0.slots().len() <= persist_tokens(g0).len(),
        g0.edge_slots().len() <= persist_tokens(g0).len(),
        g0.containers_idents().len() <= persist_tokens(g0).len(),
        g0.containers_members().len() <= persist_tokens(g0).len(),
        g0.containers_children().len() <= persist_tokens(g0).len(),
        3 <= persist_tokens(g0).len(),
{
    lemma_sections(g0);
    let fs = |o: Option<NodeData>| slot_tokens(o);
    assert forall|q: int| 0 <= q < g0.slots().len() as int implies (#[trigger] fs(
        g0.slots()[q],
    )).len() >= 1 by {
        lemma_slot_tokens_tag(g0.slots()[q]);
    }
    lemma_entries_min_len(g0.slots(), fs, g0.slots().len() as int);
    assert(slots_sec(g0, g0.slots().len() as int) == entries_tokens(
        g0.slots(),
        fs,
        g0.slots().len() as int,
    ));
    let fe = |o: Option<crate::model::Edge>| edge_tokens(o);
    assert(forall|q: int|
        0 <= q < g0.edge_slots().len() as int ==> (#[trigger] fe(g0.edge_slots()[q])).len() >= 1);
    lemma_entries_min_len(g0.edge_slots(), fe, g0.edge_slots().len() as int);
    assert(edges_sec(g0, g0.edge_slots().len() as int) == entries_tokens(
        g0.edge_slots(),
        fe,
        g0.edge_slots().len() as int,
    ));
    let fc = |v: Seq<char>| chars_tokens(v);
    assert(forall|q: int|
        0 <= q < g0.containers_idents().len() as int ==> (#[trigger] fc(
            g0.containers_idents()[q],
        )).len() >= 1);
    lemma_entries_min_len(g0.containers_idents(), fc, g0.containers_idents().len() as int);
    assert(idents_sec(g0, g0.containers_idents().len() as int) == entries_tokens(
        g0.containers_idents(),
        fc,
        g0.containers_idents().len() as int,
    ));
    let fi = |v: Seq<usize>| ids_tokens(v);
    assert(forall|q: int|
        0 <= q < g0.containers_members().len() as int ==> (#[trigger] fi(
            g0.containers_members()[q],
        )).len() >= 1);
    lemma_entries_min_len(g0.containers_members(), fi, g0.containers_members().len() as int);
    assert(members_sec(g0, g0.containers_members().len() as int) == entries_tokens(
        g0.containers_members(),
        fi,
        g0.containers_members().len() as int,
    ));
    assert(forall|q: int|
        0 <= q < g0.containers_children().len() as int ==> (#[trigger] fi(
            g0.containers_children()[q],
        )).len() >= 1);
    lemma_entries_min_len(g0.containers_children(), fi, g0.containers_children().len() as int);
    assert(children_sec(g0, g0.containers_children().len() as int) == entries_tokens(
        g0.containers_children(),
        fi,
        g0.containers_children().len() as int,
    ));
}

/// At a cursor that has consumed `i` node slots, the next slot's words
/// stand in place and advance the cursor by their count.
proof fn lemma_slot_step(g0: &ControlGraph, t: Seq<u64>, i: int, cur: int)
    requires
        t == persist_tokens(g0),
        0 <= i < g0.slots().len(),
        cur == 1 + slots_sec(g0, i).len(),
    ensures
        forall|k: int|
            0 <= k < slot_tokens(g0.slots()[i]).len() ==> t[cur + k] == slot_tokens(
                g0.slots()[i],
            )[k],
        cur + slot_tokens(g0.slots()[i]).len() == 1 + slots_sec(g0, i + 1).len(),
        1 + slots_sec(g0, i + 1).len() <= ebase(g0) - 1,
        ebase(g0) - 1 < t.len(),
        slot_tokens(g0.slots()[i]).len() >= 1,
        t[cur] == slot_tokens(g0.slots()[i])[0],
{
    lemma_sections(g0);
    lemma_slot_words_at(g0, i);
    lemma_slot_tokens_tag(g0.slots()[i]);
}

/// At a cursor that has consumed `j` edge slots, the next edge's words
/// stand in place and advance the cursor by their count.
proof fn lemma_edge_step(g0: &ControlGraph, t: Seq<u64>, j: int, cur: int)
    requires
        t == persist_tokens(g0),
        0 <= j < g0.edge_slots().len(),
        cur == ebase(g0) + edges_sec(g0, j).len(),
    ensures
        forall|k: int|
            0 <= k < edge_tokens(g0.edge_slots()[j]).len() ==> t[cur + k] == edge_tokens(
                g0.edge_slots()[j],
            )[k],
        cur + edge_tokens(g0.edge_slots()[j]).len() == ebase(g0) + edges_sec(g0, j + 1).len(),
        ebase(g0) + edges_sec(g0, j + 1).len() <= ibase(g0) - 1,
        ibase(g0) - 1 < t.len(),
        edge_tokens(g0.edge_slots()[j]).len() >= 1,
        t[cur] == edge_tokens(g0.edge_slots()[j])[0],
{
    lemma_sections(g0);
    lemma_edge_words_at(g0, j);
}

/// At a cursor that has consumed `c` container names, the next name's
/// words stand in place and advance the cursor by their count.
proof fn lemma_ident_step(g0: &ControlGraph, t: Seq<u64>, c: int, cur: int)
    requires
        t == persist_tokens(g0),
        0 <= c < g0.containers_idents().len(),
        cur == ibase(g0) + idents_sec(g0, c).len(),
    ensures
        forall|k: int|
            0 <= k < chars_tokens(g0.containers_idents()[c]).len() ==> t[cur + k] == chars_tokens(
                g0.containers_idents()[c],
            )[k],
        cur + chars_tokens(g0.containers_idents()[c]).len() == ibase(g0) + idents_sec(
            g0,
            c + 1,
        ).len(),
        ibase(g0) + idents_sec(g0, c + 1).len() <= mbase(g0),
        mbase(g0) <= t.len(),
        cur < t.len(),
{
    lemma_sections(g0);
    lemma_ident_words_at(g0, c);
}

/// At a cursor that has consumed `c` member lists, the next list's words
/// stand in place and advance the cursor by their count.
proof fn lemma_member_step(g0: &ControlGraph, t: Seq<u64>, c: int, cur: int)
    requires
        t == persist_tokens(g0),
        0 <= c < g0.containers_members().len(),
        cur == mbase(g0) + members_sec(g0, c).len(),
    ensures
        forall|k: int|
            0 <= k < ids_tokens(g0.containers_members()[c]).len() ==> t[cur + k] == ids_tokens(
                g0.containers_members()[c],
            )[k],
        cur + ids_tokens(g0.containers_members()[c]).len() == mbase(g0) + members_sec(
            g0,
            c + 1,
        ).len(),
        mbase(g0) + members_sec(g0, c + 1).len() <= cbase(g0),
        cbase(g0) <= t.len(),
        cur < t.len(),
{
    lemma_sections(g0);
    lemma_member_words_at(g0, c);
}

/// At a cursor that has consumed `c` child lists, the next list's words
/// stand in place and advance the cursor by their count.
proof fn lemma_child_step(g0: &ControlGraph, t: Seq<u64>, c: int, cur: int)
    requires
        t == persist_tokens(g0),
        0 <= c < g0.containers_children().len(),
        cur == cbase(g0) + children_sec(g0, c).len(),
    ensures
        forall|k: int|
            0 <= k < ids_tokens(g0.containers_children()[c]).len() ==> t[cur + k] == ids_tokens(
                g0.containers_children()[c],
            )[k],
        cur + ids_tokens(g0.containers_children()[c]).len() == cbase(g0) + children_sec(
            g0,
            c + 1,
        ).len(),
        cbase(g0) + children_sec(g0, c + 1).len() <= t.len(),
        cur < t.len(),
{
    lemma_sections(g0);
    lemma_child_words_at(g0, c);
}

impl ControlGraph {
    /// Loads a control graph from its persisted binary form, rebuilding it
    /// through the verified construction operations and then checking that
    /// the rebuilt graph re-encodes to exactly the bytes given: a
    /// successful load is well-formed — in particular acyclic — with its
    /// phase reset to zero, the given sample rate, every per-node
    /// generation and cached value back at its default, and a discarded
    /// evaluation order; and the input is precisely that graph's persisted
    /// form, so saving the result gives the input back. Conversely, the
    /// persisted form of any well-formed graph always loads: the result
    /// carries the same node slots word for word, the same edge slots, and
    /// the same container tree. Data that does not decode, or that names
    /// impossible structure (a dangling endpoint, a doubly fed port, a
    /// cycle), is rejected with the graph left unconstructed.
    #[verifier::rlimit(100)]
    pub fn load(sample_rate: u32, data: &[u8]) -> (r: Result<ControlGraph, GraphError>)
        ensures
            match r {
                Ok(g) => {
                    &&& g.wf()
                    &&& g.phase() == 0
                    &&& g.rate() == sample_rate
                    &&& !g.cache_ok()
                    &&& (forall|q: int|
                        g.model().live(q) ==> (#[trigger] g.record(q)).gen == 0 && g.record(q).val
                            == (Sample { l: NAN_BITS, r: NAN_BITS }))
                    &&& data@ == persist_bytes(&g)
                },
                Err(e) => e == GraphError::Malformed,
            },
            forall|g0: ControlGraph|
                #[trigger] encodes(data@, g0) ==> (r matches Ok(g2) && {
                    &&& g2.slots().len() == g0.slots().len()
                    &&& (forall|q: int|
                        0 <= q < g0.slots().len() ==> #[trigger] slot_tokens(g2.slots()[q])
                            == slot_tokens(g0.slots()[q]))
                    &&& g2.edge_slots() == g0.edge_slots()
                    &&& g2.containers_idents() == g0.containers_idents()
                    &&& g2.containers_members() == g0.containers_members()
                    &&& g2.containers_children() == g0.containers_children()
                }),
    {
        let dlen = data.len();
        let t = match read_tokens(data) {
            Some(t) => t,
            None => {
                proof {
                    assert forall|g0: ControlGraph| !(#[trigger] encodes(data@, g0)) by {
                        if encodes(data@, g0) {
                            let ptk = persist_tokens(&g0);
                            lemma_words_bytes_at(ptk, ptk.len() as int);
                            assert(data@.len() == 8 * ptk.len());
                            assert((8 * (ptk.len() as int)) % 8 == 0) by (nonlinear_arith);
                        }
                    }
                }
                return Err(GraphError::Malformed);
            },
        };
        let tlen = t.len();
        proof {
            assert(8 * (tlen as int) == dlen as int);
            assert forall|g0: ControlGraph| #[trigger] encodes(data@, g0) implies t@
                == persist_tokens(&g0) by {
                let ptk = persist_tokens(&g0);
                lemma_words_bytes_at(ptk, ptk.len() as int);
                assert(data@.len() == 8 * ptk.len());
                assert(t@.len() == ptk.len());
                assert forall|w: int| 0 <= w < ptk.len() implies t@[w] == ptk[w] by {
                    assert(data@.subrange(8 * w, 8 * w + 8) == word_bytes(t@[w]));
                    assert(data@.subrange(8 * w, 8 * w + 8) == word_bytes(ptk[w]));
                    lemma_word_bytes_inj(t@[w], ptk[w]);
                }
                assert(t@ =~= ptk);
            }
        }
        let mut g = ControlGraph::new(sample_rate);
        proof {
            g.lemma_rate_is_model();
            g.lemma_model_of_slots();
        }
        if tlen == 0 {
            proof {
                assert forall|g0: ControlGraph| !(#[trigger] encodes(data@, g0)) by {
                    if encodes(data@, g0) {
                        lemma_counts_bounded(&g0);
                    }
                }
            }
            return Err(GraphError::Malformed);
        }
        let slot_count = t[0];
        if slot_count == 0 || tlen < 2 {
            proof {
                assert forall|g0: ControlGraph| !(#[trigger] encodes(data@, g0)) by {
                    if encodes(data@, g0) {
                        lemma_counts_bounded(&g0);
                        lemma_sections(&g0);
                        g0.lemma_wf_model();
                        g0.lemma_model_of_slots();
                        assert(g0.slots().len() >= 1);
                        assert(t@[0] == g0.slots().len() as u64);
                    }
                }
            }
            return Err(GraphError::Malformed);
        }
        if t[1] != 1 {
            proof {
                assert forall|g0: ControlGraph| !(#[trigger] encodes(data@, g0)) by {
                    if encodes(data@, g0) {
                        g0.lemma_wf_model();
                        g0.lemma_model_of_slots();
                        lemma_slot_step(&g0, t@, 0, 1);
                        lemma_slot_tokens_tag(g0.slots()[0]);
                        assert(g0.model().slots[0] is Some);
                        assert(g0.slots()[0] is Some);
                        assert(g0.slots()[0]->0.node is Empty);
                        assert(t@[1] == 1);
                    }
                }
            }
            return Err(GraphError::Malformed);
        }
        proof {
            assert forall|g0: ControlGraph| #[trigger] encodes(data@, g0) implies {
                &&& slot_count as int == g0.slots().len()
                &&& 1 <= g0.slots().len()
                &&& slot_tokens(g.slots()[0]) == slot_tokens(g0.slots()[0])
                &&& 2int == 1 + slots_sec(&g0, 1int).len()
            } by {
                lemma_counts_bounded(&g0);
                lemma_sections(&g0);
                g0.lemma_wf_model();
                g0.lemma_model_of_slots();
                assert(t@[0] == g0.slots().len() as u64);
                assert(g0.slots().len() <= t@.len());
                lemma_slot_step(&g0, t@, 0, 1);
                lemma_slot_tokens_tag(g0.slots()[0]);
                assert(g0.slots()[0] is Some);
                assert(g0.slots()[0]->0.node is Empty);
                assert(slot_tokens(g0.slots()[0]) =~= seq![1u64]);
                assert(g.slots()[0]->0.node is Empty);
                assert(slot_tokens(g.slots()[0]) =~= seq![1u64]);
            }
        }
        let mut cur: usize = 2;
        let mut i: u64 = 1;
        while i < slot_count
            invariant
                g.wf(),
                g.phase() == 0,
                g.model().rate == sample_rate,
                tlen == t@.len(),
                8 * (tlen as int) == dlen as int,
                dlen == data@.len(),
                cur <= tlen,
                1 <= i,
                g.edge_slots() == Seq::<Option<crate::model::Edge>>::empty(),
                forall|q: int|
                    0 <= q < g.slots().len() ==> ((#[trigger] g.slots()[q]) is Some
                        ==> g.slots()[q]->0.gen == 0 && g.slots()[q]->0.val == (Sample {
                        l: NAN_BITS,
                        r: NAN_BITS,
                    })),
                forall|g0: ControlGraph|
                    #[trigger] encodes(data@, g0) ==> {
                        &&& t@ == persist_tokens(&g0)
                        &&& slot_count as int == g0.slots().len()
                        &&& i as int <= g0.slots().len()
                        &&& g.slots().len() == i as int
                        &&& (forall|q: int|
                            0 <= q < i as int ==> #[trigger] slot_tokens(g.slots()[q])
                                == slot_tokens(g0.slots()[q]))
                        &&& cur as int == 1 + slots_sec(&g0, i as int).len()
                    },
            decreases slot_count - i,
        {
            if cur >= tlen {
                proof {
                    assert forall|g0: ControlGraph| !(#[trigger] encodes(data@, g0)) by {
                        if encodes(data@, g0) {
                            lemma_slot_step(&g0, t@, i as int, cur as int);
                        }
                    }
                }
                return Err(GraphError::Malformed);
            }
            let tag = t[cur];
            match tag {
                0u64 => {
                    let ghost pre = g;
                    g.insert_hole();
                    cur += 1;
                    proof {
                        pre.lemma_model_of_slots();
                        g.lemma_model_of_slots();
                        assert forall|g0: ControlGraph| #[trigger] encodes(data@, g0) implies {
                            &&& g.slots().len() == i as int + 1
                            &&& (forall|q: int|
                                0 <= q < i as int + 1 ==> #[trigger] slot_tokens(g.slots()[q])
                                    == slot_tokens(g0.slots()[q]))
                            &&& cur as int == 1 + slots_sec(&g0, i as int + 1).len()
                        } by {
                            lemma_slot_step(&g0, t@, i as int, cur as int - 1);
                            lemma_slot_tokens_tag(g0.slots()[i as int]);
                            assert(slot_tokens(g0.slots()[i as int])[0] == 0);
                            assert(g0.slots()[i as int] is None);
                            assert(g.slots()[i as int] is None);
                            assert(slot_tokens(g.slots()[i as int]) =~= slot_tokens(
                                g0.slots()[i as int],
                            ));
                            assert(slot_tokens(g0.slots()[i as int]).len() == 1);
                        }
                    }
                },
                1u64 => {
                    let ghost pre = g;
                    g.insert(Node::Empty(crate::node::Empty));
                    cur += 1;
                    proof {
                        pre.lemma_model_of_slots();
                        g.lemma_model_of_slots();
                        assert forall|g0: ControlGraph| #[trigger] encodes(data@, g0) implies {
                            &&& g.slots().len() == i as int + 1
                            &&& (forall|q: int|
                                0 <= q < i as int + 1 ==> #[trigger] slot_tokens(g.slots()[q])
                                    == slot_tokens(g0.slots()[q]))
                            &&& cur as int == 1 + slots_sec(&g0, i as int + 1).len()
                        } by {
                            lemma_slot_step(&g0, t@, i as int, cur as int - 1);
                            lemma_slot_tokens_tag(g0.slots()[i as int]);
                            assert(slot_tokens(g0.slots()[i as int])[0] == 1);
                            assert(g0.slots()[i as int] is Some);
                            assert(g0.slots()[i as int]->0.node is Empty);
                            assert(g.model().slots[i as int] == Some(
                                Node::Empty(crate::node::Empty),
                            ));
                            assert(g.slots()[i as int] is Some);
                            assert(g.slots()[i as int]->0.node is Empty);
                            assert(slot_tokens(g.slots()[i as int]) =~= slot_tokens(
                                g0.slots()[i as int],
                            ));
                            assert(slot_tokens(g0.slots()[i as int]).len() == 1);
                        }
                    }
                },
                4u64 => {
                    let ghost pre = g;
                    g.insert(Node::Sine(crate::node::Sine));
                    cur += 1;
                    proof {
                        pre.lemma_model_of_slots();
                        g.lemma_model_of_slots();
                        assert forall|g0: ControlGraph| #[trigger] encodes(data@, g0) implies {
                            &&& g.slots().len() == i as int + 1
                            &&& (forall|q: int|
                                0 <= q < i as int + 1 ==> #[trigger] slot_tokens(g.slots()[q])
                                    == slot_tokens(g0.slots()[q]))
                            &&& cur as int == 1 + slots_sec(&g0, i as int + 1).len()
                        } by {
                            lemma_slot_step(&g0, t@, i as int, cur as int - 1);
                            lemma_slot_tokens_tag(g0.slots()[i as int]);
                            assert(slot_tokens(g0.slots()[i as int])[0] == 4);
                            assert(g0.slots()[i as int] is Some);
                            assert(g0.slots()[i as int]->0.node is Sine);
                            assert(g.model().slots[i as int] == Some(Node::Sine(crate::node::Sine)));
                            assert(g.slots()[i as int] is Some);
                            assert(g.slots()[i as int]->0.node is Sine);
                            assert(slot_tokens(g.slots()[i as int]) =~= slot_tokens(
                                g0.slots()[i as int],
                            ));
                            assert(slot_tokens(g0.slots()[i as int]).len() == 1);
                        }
                    }
                },
                5u64 => {
                    let ghost pre = g;
                    g.insert(Node::Add(crate::node::Add));
                    cur += 1;
                    proof {
                        pre.lemma_model_of_slots();
                        g.lemma_model_of_slots();
                        assert forall|g0: ControlGraph| #[trigger] encodes(data@, g0) implies {
                            &&& g.slots().len() == i as int + 1
                            &&& (forall|q: int|
                                0 <= q < i as int + 1 ==> #[trigger] slot_tokens(g.slots()[q])
                                    == slot_tokens(g0.slots()[q]))
                            &&& cur as int == 1 + slots_sec(&g0, i as int + 1).len()
                        } by {
                            lemma_slot_step(&g0, t@, i as int, cur as int - 1);
                            lemma_slot_tokens_tag(g0.slots()[i as int]);
                            assert(slot_tokens(g0.slots()[i as int])[0] == 5);
                            assert(g0.slots()[i as int] is Some);
                            assert(g0.slots()[i as int]->0.node is Add);
                            assert(g.model().slots[i as int] == Some(Node::Add(crate::node::Add)));
                            assert(g.slots()[i as int] is Some);
                            assert(g.slots()[i as int]->0.node is Add);
                            assert(slot_tokens(g.slots()[i as int]) =~= slot_tokens(
                                g0.slots()[i as int],
                            ));
                            assert(slot_tokens(g0.slots()[i as int]).len() == 1);
                        }
                    }
                },
                6u64 => {
                    let ghost pre = g;
                    g.insert(Node::Mul(crate::node::Mul));
                    cur += 1;
                    proof {
                        pre.lemma_model_of_slots();
                        g.lemma_model_of_slots();
                        assert forall|g0: ControlGraph| #[trigger] encodes(data@, g0) implies {
                            &&& g.slots().len() == i as int + 1
                            &&& (forall|q: int|
                                0 <= q < i as int + 1 ==> #[trigger] slot_tokens(g.slots()[q])
                                    == slot_tokens(g0.slots()[q]))
                            &&& cur as int == 1 + slots_sec(&g0, i as int + 1).len()
                        } by {
                            lemma_slot_step(&g0, t@, i as int, cur as int - 1);
                            lemma_slot_tokens_tag(g0.slots()[i as int]);
                            assert(slot_tokens(g0.slots()[i as int])[0] == 6);
                            assert(g0.slots()[i as int] is Some);
                            assert(g0.slots()[i as int]->0.node is Mul);
                            assert(g.model().slots[i as int] == Some(Node::Mul(crate::node::Mul)));
                            assert(g.slots()[i as int] is Some);
                            assert(g.slots()[i as int]->0.node is Mul);
                            assert(slot_tokens(g.slots()[i as int]) =~= slot_tokens(
                                g0.slots()[i as int],
                            ));
                            assert(slot_tokens(g0.slots()[i as int]).len() == 1);
                        }
                    }
                },
                7u64 => {
                    let ghost pre = g;
                    g.insert(Node::Inv(crate::node::Inv));
                    cur += 1;
                    proof {
                        pre.lemma_model_of_slots();
                        g.lemma_model_of_slots();
                        assert forall|g0: ControlGraph| #[trigger] encodes(data@, g0) implies {
                            &&& g.slots().len() == i as int + 1
                            &&& (forall|q: int|
                                0 <= q < i as int + 1 ==> #[trigger] slot_tokens(g.slots()[q])
                                    == slot_tokens(g0.slots()[q]))
                            &&& cur as int == 1 + slots_sec(&g0, i as int + 1).len()
                        } by {
                            lemma_slot_step(&g0, t@, i as int, cur as int - 1);
                            lemma_slot_tokens_tag(g0.slots()[i as int]);
                            assert(slot_tokens(g0.slots()[i as int])[0] == 7);
                            assert(g0.slots()[i as int] is Some);
                            assert(g0.slots()[i as int]->0.node is Inv);
                            assert(g.model().slots[i as int] == Some(Node::Inv(crate::node::Inv)));
                            assert(g.slots()[i as int] is Some);
                            assert(g.slots()[i as int]->0.node is Inv);
                            assert(slot_tokens(g.slots()[i as int]) =~= slot_tokens(
                                g0.slots()[i as int],
                            ));
                            assert(slot_tokens(g0.slots()[i as int]).len() == 1);
                        }
                    }
                },
                2u64 => {
                    let rd = read_chars_t(&t, cur + 1);
                    proof {
                        assert forall|g0: ControlGraph| #[trigger] encodes(data@, g0) implies (rd
                            matches Some(p) && p.0@ == label_of(g0.slots()[i as int]->0.node) && p.1
                            as int == cur as int + 2 + label_of(
                            g0.slots()[i as int]->0.node,
                        ).len()) by {
                            lemma_slot_step(&g0, t@, i as int, cur as int);
                            lemma_slot_tokens_tag(g0.slots()[i as int]);
                            let nd = g0.slots()[i as int]->0;
                            let lbl = label_of(nd.node);
                            let tk = slot_tokens(g0.slots()[i as int]);
                            assert(tk[0] == 2);
                            assert(g0.slots()[i as int] is Some);
                            assert(nd.node is ContainerInput);
                            assert(tk == seq![2u64] + chars_tokens(lbl));
                            assert(chars_tokens(lbl).len() == 1 + lbl.len());
                            assert(t@[cur as int + 1] == tk[1]);
                            assert(tk[1] == chars_tokens(lbl)[0]);
                            assert(chars_tokens(lbl)[0] == lbl.len() as u64);
                            assert forall|q: int| 0 <= q < lbl.len() implies t@[cur as int + 2 + q]
                                == ((#[trigger] lbl[q]) as u64) by {
                                assert(t@[cur as int + 2 + q] == tk[2 + q]);
                                assert(tk[2 + q] == chars_tokens(lbl)[1 + q]);
                                assert(chars_tokens(lbl)[1 + q] == lbl.map_values(
                                    |ch: char| ch as u64,
                                )[q]);
                            }
                            assert(cur as int + 1 + 1 + lbl.len() <= t@.len());
                        }
                    }
                    if rd.is_none() {
                        proof {
                            assert forall|g0: ControlGraph| !(#[trigger] encodes(data@, g0)) by {
                                if encodes(data@, g0) {
                                    assert(rd is Some);
                                }
                            }
                        }
                        return Err(GraphError::Malformed);
                    }
                    let (label, next) = rd.unwrap();
                    let ghost lblv = label@;
                    let ghost pre = g;
                    let ghost cur0 = cur;
                    g.insert(Node::ContainerInput(crate::node::ContainerInput { label }));
                    cur = next;
                    proof {
                        pre.lemma_model_of_slots();
                        g.lemma_model_of_slots();
                        assert forall|g0: ControlGraph| #[trigger] encodes(data@, g0) implies {
                            &&& g.slots().len() == i as int + 1
                            &&& (forall|q: int|
                                0 <= q < i as int + 1 ==> #[trigger] slot_tokens(g.slots()[q])
                                    == slot_tokens(g0.slots()[q]))
                            &&& cur as int == 1 + slots_sec(&g0, i as int + 1).len()
                        } by {
                            lemma_slot_step(&g0, t@, i as int, cur0 as int);
                            lemma_slot_tokens_tag(g0.slots()[i as int]);
                            let nd = g0.slots()[i as int]->0;
                            let lbl = label_of(nd.node);
                            let tk = slot_tokens(g0.slots()[i as int]);
                            assert(nd.node is ContainerInput);
                            assert(tk == seq![2u64] + chars_tokens(lbl));
                            assert(lblv == lbl);
                            assert(g.model().slots[i as int] is Some);
                            assert(g.slots()[i as int] is Some);
                            assert(g.slots()[i as int]->0.node is ContainerInput);
                            assert(label_of(g.slots()[i as int]->0.node) == lblv);
                            assert(slot_tokens(g.slots()[i as int]) == seq![2u64] + chars_tokens(
                                lblv,
                            ));
                            assert(slot_tokens(g.slots()[i as int]) == tk);
                            assert(cur as int == cur0 as int + tk.len());
                        }
                    }
                },
                3u64 => {
                    let rd = read_chars_t(&t, cur + 1);
                    proof {
                        assert forall|g0: ControlGraph| #[trigger] encodes(data@, g0) implies (rd
                            matches Some(p) && p.0@ == label_of(g0.slots()[i as int]->0.node) && p.1
                            as int == cur as int + 2 + label_of(
                            g0.slots()[i as int]->0.node,
                        ).len()) by {
                            lemma_slot_step(&g0, t@, i as int, cur as int);
                            lemma_slot_tokens_tag(g0.slots()[i as int]);
                            let nd = g0.slots()[i as int]->0;
                            let lbl = label_of(nd.node);
                            let tk = slot_tokens(g0.slots()[i as int]);
                            assert(tk[0] == 3);
                            assert(g0.slots()[i as int] is Some);
                            assert(nd.node is ContainerOutput);
                            assert(tk == seq![3u64] + chars_tokens(lbl));
                            assert(chars_tokens(lbl).len() == 1 + lbl.len());
                            assert(t@[cur as int + 1] == tk[1]);
                            assert(tk[1] == chars_tokens(lbl)[0]);
                            assert(chars_tokens(lbl)[0] == lbl.len() as u64);
                            assert forall|q: int| 0 <= q < lbl.len() implies t@[cur as int + 2 + q]
                                == ((#[trigger] lbl[q]) as u64) by {
                                assert(t@[cur as int + 2 + q] == tk[2 + q]);
                                assert(tk[2 + q] == chars_tokens(lbl)[1 + q]);
                                assert(chars_tokens(lbl)[1 + q] == lbl.map_values(
                                    |ch: char| ch as u64,
                                )[q]);
                            }
                            assert(cur as int + 1 + 1 + lbl.len() <= t@.len());
                        }
                    }
                    if rd.is_none() {
                        proof {
                            assert forall|g0: ControlGraph| !(#[trigger] encodes(data@, g0)) by {
                                if encodes(data@, g0) {
                                    assert(rd is Some);
                                }
                            }
                        }
                        return Err(GraphError::Malformed);
                    }
                    let (label, next) = rd.unwrap();
                    let ghost lblv = label@;
                    let ghost pre = g;
                    let ghost cur0 = cur;
                    g.insert(Node::ContainerOutput(crate::node::ContainerOutput { label }));
                    cur = next;
                    proof {
                        pre.lemma_model_of_slots();
                        g.lemma_model_of_slots();
                        assert forall|g0: ControlGraph| #[trigger] encodes(data@, g0) implies {
                            &&& g.slots().len() == i as int + 1
                            &&& (forall|q: int|
                                0 <= q < i as int + 1 ==> #[trigger] slot_tokens(g.slots()[q])
                                    == slot_tokens(g0.slots()[q]))
                            &&& cur as int == 1 + slots_sec(&g0, i as int + 1).len()
                        } by {
                            lemma_slot_step(&g0, t@, i as int, cur0 as int);
                            lemma_slot_tokens_tag(g0.slots()[i as int]);
                            let nd = g0.slots()[i as int]->0;
                            let lbl = label_of(nd.node);
                            let tk = slot_tokens(g0.slots()[i as int]);
                            assert(nd.node is ContainerOutput);
                            assert(tk == seq![3u64] + chars_tokens(lbl));
                            assert(lblv == lbl);
                            assert(g.model().slots[i as int] is Some);
                            assert(g.slots()[i as int] is Some);
                            assert(g.slots()[i as int]->0.node is ContainerOutput);
                            assert(label_of(g.slots()[i as int]->0.node) == lblv);
                            assert(slot_tokens(g.slots()[i as int]) == seq![3u64] + chars_tokens(
                                lblv,
                            ));
                            assert(slot_tokens(g.slots()[i as int]) == tk);
                            assert(cur as int == cur0 as int + tk.len());
                        }
                    }
                },
                8u64 => {
                    if cur + 2 >= tlen {
                        proof {
                            assert forall|g0: ControlGraph| !(#[trigger] encodes(data@, g0)) by {
                                if encodes(data@, g0) {
                                    lemma_slot_step(&g0, t@, i as int, cur as int);
                                    lemma_slot_tokens_tag(g0.slots()[i as int]);
                                    let tk = slot_tokens(g0.slots()[i as int]);
                                    assert(tk[0] == 8);
                                    assert(g0.slots()[i as int] is Some);
                                    assert(g0.slots()[i as int]->0.node is Const);
                                    assert(tk.len() == 3);
                                    assert(cur as int + 3 <= t@.len());
                                }
                            }
                        }
                        return Err(GraphError::Malformed);
                    }
                    let l = t[cur + 1];
                    let rr = t[cur + 2];
                    let ghost pre = g;
                    g.insert(Node::Const(crate::node::Const(Sample { l, r: rr })));
                    cur += 3;
                    proof {
                        pre.lemma_model_of_slots();
                        g.lemma_model_of_slots();
                        assert forall|g0: ControlGraph| #[trigger] encodes(data@, g0) implies {
                            &&& g.slots().len() == i as int + 1
                            &&& (forall|q: int|
                                0 <= q < i as int + 1 ==> #[trigger] slot_tokens(g.slots()[q])
                                    == slot_tokens(g0.slots()[q]))
                            &&& cur as int == 1 + slots_sec(&g0, i as int + 1).len()
                        } by {
                            lemma_slot_step(&g0, t@, i as int, cur as int - 3);
                            lemma_slot_tokens_tag(g0.slots()[i as int]);
                            let nd = g0.slots()[i as int]->0;
                            let cv = const_of(nd.node);
                            let tk = slot_tokens(g0.slots()[i as int]);
                            assert(tk[0] == 8);
                            assert(g0.slots()[i as int] is Some);
                            assert(nd.node is Const);
                            assert(tk == seq![8u64, cv.l, cv.r]);
                            assert(l == tk[1] && rr == tk[2]);
                            assert(g.model().slots[i as int] == Some(
                                Node::Const(crate::node::Const(Sample { l, r: rr })),
                            ));
                            assert(g.slots()[i as int] is Some);
                            assert(g.slots()[i as int]->0.node is Const);
                            assert(slot_tokens(g.slots()[i as int]) =~= tk);
                        }
                    }
                },
                _ => {
                    proof {
                        assert forall|g0: ControlGraph| !(#[trigger] encodes(data@, g0)) by {
                            if encodes(data@, g0) {
                                lemma_slot_step(&g0, t@, i as int, cur as int);
                                lemma_slot_tokens_tag(g0.slots()[i as int]);
                            }
                        }
                    }
                    return Err(GraphError::Malformed);
                },
            }
            i = i + 1;
        }
        if cur >= tlen {
            proof {
                assert forall|g0: ControlGraph| !(#[trigger] encodes(data@, g0)) by {
                    if encodes(data@, g0) {
                        lemma_sections(&g0);
                    }
                }
            }
            return Err(GraphError::Malformed);
        }
        let edge_count = t[cur];
        cur += 1;
        proof {
            assert forall|g0: ControlGraph| #[trigger] encodes(data@, g0) implies {
                &&& edge_count as int == g0.edge_slots().len()
                &&& cur as int == ebase(&g0) + edges_sec(&g0, 0int).len()
                &&& g.edge_slots() == g0.edge_slots().take(0)
            } by {
                lemma_sections(&g0);
                lemma_counts_bounded(&g0);
                assert(t@[ebase(&g0) - 1] == g0.edge_slots().len() as u64);
                assert(g0.edge_slots().len() <= t@.len());
                assert(edges_sec(&g0, 0int).len() == 0);
                assert(g.edge_slots() =~= g0.edge_slots().take(0));
            }
        }
        let mut e: u64 = 0;
        while e < edge_count
            invariant
                g.wf(),
                g.phase() == 0,
                g.model().rate == sample_rate,
                tlen == t@.len(),
                8 * (tlen as int) == dlen as int,
                dlen == data@.len(),
                cur <= tlen,
                forall|q: int|
                    0 <= q < g.slots().len() ==> ((#[trigger] g.slots()[q]) is Some
                        ==> g.slots()[q]->0.gen == 0 && g.slots()[q]->0.val == (Sample {
                        l: NAN_BITS,
                        r: NAN_BITS,
                    })),
                forall|g0: ControlGraph|
                    #[trigger] encodes(data@, g0) ==> {
                        &&& t@ == persist_tokens(&g0)
                        &&& g.slots().len() == g0.slots().len()
                        &&& (forall|q: int|
                            0 <= q < g0.slots().len() ==> #[trigger] slot_tokens(g.slots()[q])
                                == slot_tokens(g0.slots()[q]))
                        &&& edge_count as int == g0.edge_slots().len()
                        &&& e as int <= g0.edge_slots().len()
                        &&& g.edge_slots() == g0.edge_slots().take(e as int)
                        &&& cur as int == ebase(&g0) + edges_sec(&g0, e as int).len()
                    },
            decreases edge_count - e,
        {
            if cur >= tlen {
                proof {
                    assert forall|g0: ControlGraph| !(#[trigger] encodes(data@, g0)) by {
                        if encodes(data@, g0) {
                            lemma_edge_step(&g0, t@, e as int, cur as int);
                        }
                    }
                }
                return Err(GraphError::Malformed);
            }
            let tag = t[cur];
            match tag {
                0u64 => {
                    let ghost pre = g;
                    g.push_edge_hole();
                    cur += 1;
                    proof {
                        pre.lemma_model_of_slots();
                        g.lemma_model_of_slots();
                        assert forall|g0: ControlGraph| #[trigger] encodes(data@, g0) implies {
                            &&& g.edge_slots() == g0.edge_slots().take(e as int + 1)
                            &&& cur as int == ebase(&g0) + edges_sec(&g0, e as int + 1).len()
                        } by {
                            lemma_edge_step(&g0, t@, e as int, cur as int - 1);
                            let tk = edge_tokens(g0.edge_slots()[e as int]);
                            if g0.edge_slots()[e as int] is Some {
                                assert(tk[0] == 1);
                            }
                            assert(g0.edge_slots()[e as int] is None);
                            assert(tk.len() == 1);
                            assert(g.edge_slots() =~= g0.edge_slots().take(e as int + 1));
                        }
                    }
                },
                1u64 => {
                    if cur + 3 >= tlen {
                        proof {
                            assert forall|g0: ControlGraph| !(#[trigger] encodes(data@, g0)) by {
                                if encodes(data@, g0) {
                                    lemma_edge_step(&g0, t@, e as int, cur as int);
                                    let tk = edge_tokens(g0.edge_slots()[e as int]);
                                    if g0.edge_slots()[e as int] is None {
                                        assert(tk[0] == 0);
                                    }
                                    assert(tk.len() == 4);
                                    assert(cur as int + 4 <= t@.len());
                                }
                            }
                        }
                        return Err(GraphError::Malformed);
                    }
                    let src_w = t[cur + 1];
                    let dst_w = t[cur + 2];
                    let port_w = t[cur + 3];
                    if src_w > (usize::MAX as u64) || dst_w > (usize::MAX as u64) || port_w > (
                    usize::MAX as u64) {
                        proof {
                            assert forall|g0: ControlGraph| !(#[trigger] encodes(data@, g0)) by {
                                if encodes(data@, g0) {
                                    lemma_edge_step(&g0, t@, e as int, cur as int);
                                    let tk = edge_tokens(g0.edge_slots()[e as int]);
                                    if g0.edge_slots()[e as int] is None {
                                        assert(tk[0] == 0);
                                    }
                                    let ed = g0.edge_slots()[e as int]->0;
                                    assert(tk == seq![
                                        1u64,
                                        ed.src as u64,
                                        ed.dst as u64,
                                        ed.port as u64,
                                    ]);
                                    assert(src_w == ed.src as u64);
                                    assert(dst_w == ed.dst as u64);
                                    assert(port_w == ed.port as u64);
                                }
                            }
                        }
                        return Err(GraphError::Malformed);
                    }
                    let ghost pre = g;
                    let ghost cur0 = cur;
                    let res = g.connect_ex_ex_port(src_w as usize, dst_w as usize, port_w as usize);
                    proof {
                        pre.lemma_model_of_slots();
                        g.lemma_model_of_slots();
                        assert forall|g0: ControlGraph| #[trigger] encodes(data@, g0) implies (res
                            is Ok && {
                            &&& g.edge_slots() == g0.edge_slots().take(e as int + 1)
                            &&& cur0 as int + 4 == ebase(&g0) + edges_sec(&g0, e as int + 1).len()
                        }) by {
                            g0.lemma_wf_model();
                            g0.lemma_model_of_slots();
                            lemma_edge_step(&g0, t@, e as int, cur0 as int);
                            let tk = edge_tokens(g0.edge_slots()[e as int]);
                            if g0.edge_slots()[e as int] is None {
                                assert(tk[0] == 0);
                            }
                            assert(g0.edge_slots()[e as int] is Some);
                            let ed = g0.edge_slots()[e as int]->0;
                            assert(tk == seq![1u64, ed.src as u64, ed.dst as u64, ed.port as u64]);
                            assert(src_w == ed.src as u64 && dst_w == ed.dst as u64 && port_w
                                == ed.port as u64);
                            assert(src_w as usize == ed.src && dst_w as usize == ed.dst && port_w
                                as usize == ed.port);
                            let m0 = g0.model();
                            assert(m0.edges == g0.edge_slots());
                            assert(m0.edge_live(e as int));
                            assert(m0.edge(e as int) == ed);
                            assert(m0.live(ed.src as int) && ed.src != 0 && m0.live(ed.dst as int));
                            let mp = pre.model();
                            assert(mp.edges == g0.edge_slots().take(e as int));
                            assert(mp.slots.len() == m0.slots.len());
                            assert(slot_tokens(pre.slots()[ed.src as int]) == slot_tokens(
                                g0.slots()[ed.src as int],
                            ));
                            lemma_slot_tokens_shape(
                                pre.slots()[ed.src as int],
                                g0.slots()[ed.src as int],
                            );
                            assert(mp.live(ed.src as int));
                            assert(slot_tokens(pre.slots()[ed.dst as int]) == slot_tokens(
                                g0.slots()[ed.dst as int],
                            ));
                            lemma_slot_tokens_shape(
                                pre.slots()[ed.dst as int],
                                g0.slots()[ed.dst as int],
                            );
                            assert(mp.live(ed.dst as int));
                            if ed.dst as int != 0 {
                                assert((ed.port as int) < m0.kind(ed.dst as int).arity_spec());
                                assert(m0.kind(ed.dst as int) == g0.slots()[ed.dst as int]->0.node);
                                assert(mp.kind(ed.dst as int) == pre.slots()[ed.dst as int]->0.node);
                                assert(mp.kind(ed.dst as int).arity_spec() == m0.kind(
                                    ed.dst as int,
                                ).arity_spec());
                            } else {
                                assert(ed.port as int == 0);
                            }
                            assert(pre.port_in_range(ed.dst as int, ed.port as int));
                            if mp.has_producer(ed.dst as int, ed.port as int) {
                                let k = choose|k: int|
                                    #[trigger] mp.edge_live(k) && mp.edge(k).dst as int == ed.dst
                                        as int && mp.edge(k).port as int == ed.port as int;
                                assert(0 <= k < e as int);
                                assert(m0.edge_live(k) && m0.edge(k) == mp.edge(k));
                                assert(m0.edge_live(e as int));
                                assert(k == e as int);
                                assert(false);
                            }
                            if mp.reaches(ed.dst as int, ed.src as int) {
                                assert(crate::model::steps_subset(mp, m0)) by {
                                    assert forall|a: int, b: int| #[trigger] mp.step(
                                        a,
                                        b,
                                    ) implies m0.step(a, b) by {
                                        let ke = choose|ke: int|
                                            #[trigger] mp.edge_live(ke) && mp.edge(ke).src as int
                                                == a && mp.edge(ke).dst as int == b;
                                        assert(m0.edge_live(ke) && m0.edge(ke) == mp.edge(ke));
                                    }
                                }
                                crate::model::lemma_steps_subset_reaches(
                                    mp,
                                    m0,
                                    ed.dst as int,
                                    ed.src as int,
                                );
                                let p = choose|p: Seq<int>|
                                    #[trigger] m0.is_path(p) && p.first() == ed.dst as int
                                        && p.last() == ed.src as int;
                                let p2 = seq![ed.src as int, ed.dst as int];
                                assert(m0.step(ed.src as int, ed.dst as int)) by {
                                    assert(m0.edge_live(e as int) && m0.edge(e as int).src as int
                                        == ed.src as int && m0.edge(e as int).dst as int == ed.dst
                                        as int);
                                }
                                assert(m0.is_path(p2)) by {
                                    assert forall|ii: int| 0 <= ii < p2.len() - 1 implies #[trigger]
                                        m0.step(p2[ii], p2[ii + 1]) by {
                                        assert(p2[0] == ed.src as int && p2[1] == ed.dst as int);
                                    }
                                }
                                crate::model::lemma_path_glue(m0, p, p2);
                                assert(m0.reaches_plus(ed.dst as int, ed.dst as int));
                                assert(false);
                            }
                            assert(res is Ok);
                            assert(g.model().edges == mp.edges.push(
                                Some(
                                    crate::model::Edge {
                                        src: src_w as usize,
                                        dst: dst_w as usize,
                                        port: port_w as usize,
                                    },
                                ),
                            ));
                            assert(crate::model::Edge {
                                src: src_w as usize,
                                dst: dst_w as usize,
                                port: port_w as usize,
                            } == ed);
                            assert(g.edge_slots() =~= g0.edge_slots().take(e as int + 1));
                            assert(tk.len() == 4);
                        }
                    }
                    if res.is_err() {
                        proof {
                            assert forall|g0: ControlGraph| !(#[trigger] encodes(data@, g0)) by {
                                if encodes(data@, g0) {
                                    assert(res is Ok);
                                }
                            }
                        }
                        return Err(GraphError::Malformed);
                    }
                    cur += 4;
                },
                _ => {
                    proof {
                        assert forall|g0: ControlGraph| !(#[trigger] encodes(data@, g0)) by {
                            if encodes(data@, g0) {
                                lemma_edge_step(&g0, t@, e as int, cur as int);
                                let tk = edge_tokens(g0.edge_slots()[e as int]);
                                if g0.edge_slots()[e as int] is None {
                                    assert(tk[0] == 0);
                                } else {
                                    assert(tk[0] == 1);
                                }
                            }
                        }
                    }
                    return Err(GraphError::Malformed);
                },
            }
            e = e + 1;
        }
        if cur >= tlen {
            proof {
                assert forall|g0: ControlGraph| !(#[trigger] encodes(data@, g0)) by {
                    if encodes(data@, g0) {
                        lemma_sections(&g0);
                    }
                }
            }
            return Err(GraphError::Malformed);
        }
        let c_count = t[cur];
        cur += 1;
        if c_count >= (usize::MAX as u64) {
            proof {
                assert forall|g0: ControlGraph| !(#[trigger] encodes(data@, g0)) by {
                    if encodes(data@, g0) {
                        lemma_sections(&g0);
                        lemma_counts_bounded(&g0);
                        assert(t@[ibase(&g0) - 1] == g0.containers_idents().len() as u64);
                        assert(g0.containers_idents().len() <= t@.len());
                    }
                }
            }
            return Err(GraphError::Malformed);
        }
        proof {
            assert forall|g0: ControlGraph| #[trigger] encodes(data@, g0) implies {
                &&& c_count as int == g0.containers_idents().len()
                &&& cur as int == ibase(&g0) + idents_sec(&g0, 0int).len()
            } by {
                lemma_sections(&g0);
                lemma_counts_bounded(&g0);
                assert(t@[ibase(&g0) - 1] == g0.containers_idents().len() as u64);
                assert(g0.containers_idents().len() <= t@.len());
                assert(idents_sec(&g0, 0int).len() == 0);
            }
        }
        let mut idents: Vec<Vec<char>> = Vec::new();
        let mut c: u64 = 0;
        while c < c_count
            invariant
                tlen == t@.len(),
                cur <= tlen,
                c <= c_count,
                forall|g0: ControlGraph|
                    #[trigger] encodes(data@, g0) ==> {
                        &&& t@ == persist_tokens(&g0)
                        &&& c_count as int == g0.containers_idents().len()
                        &&& c as int <= g0.containers_idents().len()
                        &&& idents@.map_values(|v: Vec<char>| v@) == g0.containers_idents().take(
                            c as int,
                        )
                        &&& cur as int == ibase(&g0) + idents_sec(&g0, c as int).len()
                    },
            decreases c_count - c,
        {
            let rd = read_chars_t(&t, cur);
            proof {
                assert forall|g0: ControlGraph| #[trigger] encodes(data@, g0) implies (rd
                    matches Some(p) && p.0@ == g0.containers_idents()[c as int] && p.1 as int == cur
                    as int + 1 + g0.containers_idents()[c as int].len()) by {
                    lemma_ident_step(&g0, t@, c as int, cur as int);
                    let lbl = g0.containers_idents()[c as int];
                    let tk = chars_tokens(lbl);
                    assert(tk.len() == 1 + lbl.len());
                    assert(t@[cur as int] == tk[0]);
                    assert(tk[0] == lbl.len() as u64);
                    assert forall|q: int| 0 <= q < lbl.len() implies t@[cur as int + 1 + q] == ((
                    #[trigger] lbl[q]) as u64) by {
                        assert(t@[cur as int + 1 + q] == tk[1 + q]);
                        assert(tk[1 + q] == lbl.map_values(|ch: char| ch as u64)[q]);
                    }
                    assert(cur as int + 1 + lbl.len() <= t@.len());
                }
            }
            if rd.is_none() {
                proof {
                    assert forall|g0: ControlGraph| !(#[trigger] encodes(data@, g0)) by {
                        if encodes(data@, g0) {
                            assert(rd is Some);
                        }
                    }
                }
                return Err(GraphError::Malformed);
            }
            let (ident, next) = rd.unwrap();
            let ghost identv = ident@;
            let ghost idv0 = idents@;
            let ghost cur0 = cur;
            idents.push(ident);
            cur = next;
            c = c + 1;
            proof {
                assert forall|g0: ControlGraph| #[trigger] encodes(data@, g0) implies {
                    &&& idents@.map_values(|v: Vec<char>| v@) == g0.containers_idents().take(
                        c as int,
                    )
                    &&& cur as int == ibase(&g0) + idents_sec(&g0, c as int).len()
                } by {
                    lemma_ident_step(&g0, t@, c as int - 1, cur0 as int);
                    let lbl = g0.containers_idents()[c as int - 1];
                    assert(identv == lbl);
                    assert(idents@ == idv0.push(ident));
                    assert(idents@.map_values(|v: Vec<char>| v@) =~= g0.containers_idents().take(
                        c as int,
                    ));
                    assert(chars_tokens(lbl).len() == 1 + lbl.len());
                }
            }
        }
        proof {
            assert forall|g0: ControlGraph| #[trigger] encodes(data@, g0) implies {
                &&& idents@.map_values(|v: Vec<char>| v@) == g0.containers_idents()
                &&& cur as int == mbase(&g0) + members_sec(&g0, 0int).len()
                &&& c_count as int == g0.containers_members().len()
            } by {
                lemma_sections(&g0);
                g0.lemma_container_tree_shape();
                assert(g0.containers_idents().take(c_count as int) =~= g0.containers_idents());
                assert(members_sec(&g0, 0int).len() == 0);
            }
        }
        let mut members: Vec<Vec<usize>> = Vec::new();
        let mut c2: u64 = 0;
        while c2 < c_count
            invariant
                tlen == t@.len(),
                cur <= tlen,
                c2 <= c_count,
                forall|g0: ControlGraph|
                    #[trigger] encodes(data@, g0) ==> {
                        &&& t@ == persist_tokens(&g0)
                        &&& c_count as int == g0.containers_members().len()
                        &&& c2 as int <= g0.containers_members().len()
                        &&& members@.map_values(|v: Vec<usize>| v@) == g0.containers_members().take(
                            c2 as int,
                        )
                        &&& cur as int == mbase(&g0) + members_sec(&g0, c2 as int).len()
                    },
            decreases c_count - c2,
        {
            let rd = read_ids_t(&t, cur);
            proof {
                assert forall|g0: ControlGraph| #[trigger] encodes(data@, g0) implies (rd
                    matches Some(p) && p.0@ == g0.containers_members()[c2 as int] && p.1 as int
                    == cur as int + 1 + g0.containers_members()[c2 as int].len()) by {
                    lemma_member_step(&g0, t@, c2 as int, cur as int);
                    let ids = g0.containers_members()[c2 as int];
                    let tk = ids_tokens(ids);
                    assert(tk.len() == 1 + ids.len());
                    assert(t@[cur as int] == tk[0]);
                    assert(tk[0] == ids.len() as u64);
                    assert forall|q: int| 0 <= q < ids.len() implies t@[cur as int + 1 + q] == ((
                    #[trigger] ids[q]) as u64) by {
                        assert(t@[cur as int + 1 + q] == tk[1 + q]);
                        assert(tk[1 + q] == ids.map_values(|x: usize| x as u64)[q]);
                    }
                    assert(cur as int + 1 + ids.len() <= t@.len());
                }
            }
            if rd.is_none() {
                proof {
                    assert forall|g0: ControlGraph| !(#[trigger] encodes(data@, g0)) by {
                        if encodes(data@, g0) {
                            assert(rd is Some);
                        }
                    }
                }
                return Err(GraphError::Malformed);
            }
            let (ids, next) = rd.unwrap();
            let ghost idsv = ids@;
            let ghost mev0 = members@;
            let ghost cur0 = cur;
            members.push(ids);
            cur = next;
            c2 = c2 + 1;
            proof {
                assert forall|g0: ControlGraph| #[trigger] encodes(data@, g0) implies {
                    &&& members@.map_values(|v: Vec<usize>| v@) == g0.containers_members().take(
                        c2 as int,
                    )
                    &&& cur as int == mbase(&g0) + members_sec(&g0, c2 as int).len()
                } by {
                    lemma_member_step(&g0, t@, c2 as int - 1, cur0 as int);
                    let ids0 = g0.containers_members()[c2 as int - 1];
                    assert(idsv == ids0);
                    assert(members@ == mev0.push(ids));
                    assert(members@.map_values(|v: Vec<usize>| v@) =~= g0.containers_members().take(
                        c2 as int,
                    ));
                    assert(ids_tokens(ids0).len() == 1 + ids0.len());
                }
            }
        }
        proof {
            assert forall|g0: ControlGraph| #[trigger] encodes(data@, g0) implies {
                &&& members@.map_values(|v: Vec<usize>| v@) == g0.containers_members()
                &&& cur as int == cbase(&g0) + children_sec(&g0, 0int).len()
                &&& c_count as int + 1 == g0.containers_children().len()
            } by {
                lemma_sections(&g0);
                g0.lemma_container_tree_shape();
                assert(g0.containers_members().take(c_count as int) =~= g0.containers_members());
                assert(children_sec(&g0, 0int).len() == 0);
            }
        }
        let mut children: Vec<Vec<usize>> = Vec::new();
        let mut c3: u64 = 0;
        while c3 < c_count + 1
            invariant
                tlen == t@.len(),
                cur <= tlen,
                c_count < u64::MAX,
                c3 <= c_count + 1,
                forall|g0: ControlGraph|
                    #[trigger] encodes(data@, g0) ==> {
                        &&& t@ == persist_tokens(&g0)
                        &&& c_count as int + 1 == g0.containers_children().len()
                        &&& c3 as int <= g0.containers_children().len()
                        &&& children@.map_values(|v: Vec<usize>| v@)
                            == g0.containers_children().take(c3 as int)
                        &&& cur as int == cbase(&g0) + children_sec(&g0, c3 as int).len()
                    },
            decreases c_count + 1 - c3,
        {
            let rd = read_ids_t(&t, cur);
            proof {
                assert forall|g0: ControlGraph| #[trigger] encodes(data@, g0) implies (rd
                    matches Some(p) && p.0@ == g0.containers_children()[c3 as int] && p.1 as int
                    == cur as int + 1 + g0.containers_children()[c3 as int].len()) by {
                    lemma_child_step(&g0, t@, c3 as int, cur as int);
                    let ids = g0.containers_children()[c3 as int];
                    let tk = ids_tokens(ids);
                    assert(tk.len() == 1 + ids.len());
                    assert(t@[cur as int] == tk[0]);
                    assert(tk[0] == ids.len() as u64);
                    assert forall|q: int| 0 <= q < ids.len() implies t@[cur as int + 1 + q] == ((
                    #[trigger] ids[q]) as u64) by {
                        assert(t@[cur as int + 1 + q] == tk[1 + q]);
                        assert(tk[1 + q] == ids.map_values(|x: usize| x as u64)[q]);
                    }
                    assert(cur as int + 1 + ids.len() <= t@.len());
                }
            }
            if rd.is_none() {
                proof {
                    assert forall|g0: ControlGraph| !(#[trigger] encodes(data@, g0)) by {
                        if encodes(data@, g0) {
                            assert(rd is Some);
                        }
                    }
                }
                return Err(GraphError::Malformed);
            }
            let (ids, next) = rd.unwrap();
            let ghost idsv = ids@;
            let ghost chv0 = children@;
            let ghost cur0 = cur;
            children.push(ids);
            cur = next;
            c3 = c3 + 1;
            proof {
                assert forall|g0: ControlGraph| #[trigger] encodes(data@, g0) implies {
                    &&& children@.map_values(|v: Vec<usize>| v@) == g0.containers_children().take(
                        c3 as int,
                    )
                    &&& cur as int == cbase(&g0) + children_sec(&g0, c3 as int).len()
                } by {
                    lemma_child_step(&g0, t@, c3 as int - 1, cur0 as int);
                    let ids0 = g0.containers_children()[c3 as int - 1];
                    assert(idsv == ids0);
                    assert(children@ == chv0.push(ids));
                    assert(children@.map_values(|v: Vec<usize>| v@)
                        =~= g0.containers_children().take(c3 as int));
                    assert(ids_tokens(ids0).len() == 1 + ids0.len());
                }
            }
        }
        let ghost idv = idents@.map_values(|v: Vec<char>| v@);
        let ghost mev = members@.map_values(|v: Vec<usize>| v@);
        let ghost chv = children@.map_values(|v: Vec<usize>| v@);
        let ghost nid = idents@.len();
        let ghost nme = members@.len();
        let ghost nch = children@.len();
        proof {
            g.lemma_model_of_slots();
        }
        let ok = g.set_containers(idents, members, children);
        if !ok {
            proof {
                assert forall|g0: ControlGraph| !(#[trigger] encodes(data@, g0)) by {
                    if encodes(data@, g0) {
                        g0.lemma_container_tree_shape();
                        assert(g0.containers_children().take(c_count as int + 1)
                            =~= g0.containers_children());
                        assert(idv.len() == nid && mev.len() == nme && chv.len() == nch);
                        assert(nid == g0.containers_idents().len());
                        assert(nme == g0.containers_members().len());
                        assert(nch == g0.containers_children().len());
                    }
                }
            }
            return Err(GraphError::Malformed);
        }
        if cur != tlen {
            proof {
                assert forall|g0: ControlGraph| !(#[trigger] encodes(data@, g0)) by {
                    if encodes(data@, g0) {
                        lemma_sections(&g0);
                        assert(g0.containers_children().take(c_count as int + 1)
                            =~= g0.containers_children());
                        assert(cur as int == cbase(&g0) + children_sec(
                            &g0,
                            g0.containers_children().len() as int,
                        ).len());
                    }
                }
            }
            return Err(GraphError::Malformed);
        }
        g.invalidate_order();
        proof {
            g.lemma_model_of_slots();
        }
        let echo = g.save();
        proof {
            assert forall|g0: ControlGraph| #[trigger] encodes(data@, g0) implies echo@
                == data@ by {
                lemma_sections(&g0);
                g0.lemma_model_of_slots();
                assert(g0.edge_slots().take(edge_count as int) =~= g0.edge_slots());
                assert(g0.containers_idents().take(c_count as int) =~= g0.containers_idents());
                assert(g0.containers_members().take(c_count as int) =~= g0.containers_members());
                assert(g0.containers_children().take(c_count as int + 1)
                    =~= g0.containers_children());
                let n = g0.slots().len() as int;
                let fs = |o: Option<NodeData>| slot_tokens(o);
                assert forall|q: int| 0 <= q < n implies #[trigger] fs(g.slots()[q]) == fs(
                    g0.slots()[q],
                ) by {
                    assert(slot_tokens(g.slots()[q]) == slot_tokens(g0.slots()[q]));
                }
                lemma_entries_pointwise(g.slots(), g0.slots(), fs, n);
                assert(slots_sec(&g, n) == entries_tokens(g.slots(), fs, n));
                assert(slots_sec(&g0, n) == entries_tokens(g0.slots(), fs, n));
                assert(slots_sec(&g, n) == slots_sec(&g0, n));
                assert(g.slots().len() == g0.slots().len());
                assert(g.edge_slots() == g0.edge_slots());
                assert(g.containers_idents() == g0.containers_idents());
                assert(g.containers_members() == g0.containers_members());
                assert(g.containers_children() == g0.containers_children());
                lemma_persist_layout(&g);
                lemma_persist_layout(&g0);
                assert(persist_tokens(&g) == persist_tokens(&g0));
                assert(persist_bytes(&g) == persist_bytes(&g0));
                assert(echo@ == data@);
            }
        }
        if !bytes_eq(&echo, data) {
            proof {
                assert forall|g0: ControlGraph| !(#[trigger] encodes(data@, g0)) by {
                    if encodes(data@, g0) {
                        assert(echo@ == data@);
                    }
                }
            }
            return Err(GraphError::Malformed);
        }
        proof {
            g.lemma_rate_is_model();
            g.lemma_model_of_slots();
            assert forall|g0: ControlGraph| #[trigger] encodes(data@, g0) implies {
                &&& g.slots().len() == g0.slots().len()
                &&& (forall|q: int|
                    0 <= q < g0.slots().len() ==> #[trigger] slot_tokens(g.slots()[q])
                        == slot_tokens(g0.slots()[q]))
                &&& g.edge_slots() == g0.edge_slots()
                &&& g.containers_idents() == g0.containers_idents()
                &&& g.containers_members() == g0.containers_members()
                &&& g.containers_children() == g0.containers_children()
            } by {
                assert(g0.edge_slots().take(edge_count as int) =~= g0.edge_slots());
                assert(g0.containers_idents().take(c_count as int) =~= g0.containers_idents());
                assert(g0.containers_members().take(c_count as int) =~= g0.containers_members());
                assert(g0.containers_children().take(c_count as int + 1)
                    =~= g0.containers_children());
            }
        }
        Ok(g)
    }
}

} // verus!
