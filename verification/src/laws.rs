//! What holds of every graph, stated over the map that a graph stands for.

use crate::edge::{keyed, mirror, opposite, ConnectionDirection, EdgeView};
use crate::model::{
    consistent, inputs, lemma_with_link_at, lemma_with_link_consistent, outputs, paired,
    with_link, with_node,
};
use crate::node::NodeView;
use crate::records::{
    distinct_peers, lemma_distinct_peers_at, lemma_select_one_record, lemma_with_edge,
    lemma_with_edge_again, lemma_with_edge_commutes, lemma_with_edge_has, lemma_with_edge_len,
    one_record_for, select, with_edge,
};
use vstd::prelude::*;

verus! {

/// Every record has exactly one counterpart: in a consistent graph, the node
/// at the other end of a record exists, and among its records exactly one is
/// for the holder in the opposite direction; that one has the same weight.
pub proof fn law_record_has_one_mirror<D>(m: Map<Seq<char>, NodeView<D>>, a: Seq<char>, i: int)
    requires
        consistent(m),
        m.contains_key(a),
        0 <= i < m[a].edges.len(),
    ensures
        m.contains_key(m[a].edges[i].label),
        ({
            let e = m[a].edges[i];
            let back = m[e.label].edges;
            exists|k: int|
                {
                    &&& 0 <= k < back.len()
                    &&& #[trigger] back[k] == mirror(a, e)
                    &&& forall|j: int|
                        0 <= j < back.len() && keyed(
                            #[trigger] back[j],
                            a,
                            opposite(e.direction),
                        ) ==> j == k
                }
        }),
{
    let e = m[a].edges[i];
    assert(paired(m, a, i));
    let back = m[e.label].edges;
    let k = back.index_of(mirror(a, e));
    assert(back[k] == mirror(a, e));
    assert forall|j: int|
        0 <= j < back.len() && keyed(#[trigger] back[j], a, opposite(e.direction)) implies j
        == k by {
        lemma_distinct_peers_at(back, j, k);
    }
}

/// Mirrored edges: after linking `a` to `b` with weight `w` in a consistent
/// graph that has both nodes, the outgoing records of `a` hold exactly one
/// record with peer `b`, the incoming records of `b` hold exactly one record
/// with peer `a`, and both have the weight `w`.
pub proof fn law_link_is_mirrored<D>(
    m: Map<Seq<char>, NodeView<D>>,
    a: Seq<char>,
    b: Seq<char>,
    w: i64,
)
    requires
        consistent(m),
        m.contains_key(a),
        m.contains_key(b),
    ensures
        one_record_for(outputs(with_link(m, a, b, w), a), b, w),
        one_record_for(inputs(with_link(m, a, b, w), b), a, w),
{
    let linked = with_link(m, a, b, w);
    lemma_with_link_at(m, a, b, w, a);
    lemma_with_link_at(m, a, b, w, b);
    lemma_select_one_record(linked[a].edges, b, ConnectionDirection::To, w);
    lemma_select_one_record(linked[b].edges, a, ConnectionDirection::From, w);
}

/// Linking again: after linking `a` to `b` with weight `w1` and then with
/// weight `w2`, each of the two nodes holds exactly one record of the link,
/// with the weight `w2`, and as many records as after the first link.
pub proof fn law_relink_updates_in_place<D>(
    m: Map<Seq<char>, NodeView<D>>,
    a: Seq<char>,
    b: Seq<char>,
    w1: i64,
    w2: i64,
)
    requires
        consistent(m),
        m.contains_key(a),
        m.contains_key(b),
    ensures
        ({
            let once = with_link(m, a, b, w1);
            let twice = with_link(once, a, b, w2);
            &&& one_record_for(outputs(twice, a), b, w2)
            &&& one_record_for(inputs(twice, b), a, w2)
            &&& twice[a].edges.len() == once[a].edges.len()
            &&& twice[b].edges.len() == once[b].edges.len()
        }),
{
    let once = with_link(m, a, b, w1);
    let twice = with_link(once, a, b, w2);
    lemma_with_link_consistent(m, a, b, w1);
    assert(once.contains_key(a) && once.contains_key(b));
    law_link_is_mirrored(once, a, b, w2);
    lemma_with_link_at(m, a, b, w1, a);
    lemma_with_link_at(m, a, b, w1, b);
    lemma_relink_length(once, a, b, w1, w2);
}

/// Linking `a` to `b` a second time leaves the graph that a single link with
/// the second weight leaves.
pub proof fn law_relink_is_one_link<D>(
    m: Map<Seq<char>, NodeView<D>>,
    a: Seq<char>,
    b: Seq<char>,
    w1: i64,
    w2: i64,
)
    ensures
        with_link(with_link(m, a, b, w1), a, b, w2) == with_link(m, a, b, w2),
{
    let once = with_link(m, a, b, w1);
    let twice = with_link(once, a, b, w2);
    let single = with_link(m, a, b, w2);
    if m.contains_key(a) && m.contains_key(b) {
        let to = ConnectionDirection::To;
        let from = ConnectionDirection::From;
        if a == b {
            let e = m[a].edges;
            let x = with_edge(e, a, to, w1);
            let y = with_edge(e, a, to, w2);
            assert(once[a].edges == with_edge(x, a, from, w1));
            assert(twice[a].edges == with_edge(
                with_edge(with_edge(x, a, from, w1), a, to, w2),
                a,
                from,
                w2,
            ));
            lemma_with_edge_has(e, a, to, w1);
            lemma_with_edge_commutes(x, a, to, w2, a, from, w1);
            lemma_with_edge_again(e, a, to, w1, w2);
            lemma_with_edge_again(y, a, from, w1, w2);
            assert(twice[a].edges == single[a].edges);
        } else {
            lemma_with_edge_again(m[a].edges, b, to, w1, w2);
            lemma_with_edge_again(m[b].edges, a, from, w1, w2);
        }
        assert(twice =~= single);
    }
}

/// Linking two nodes that already hold the two records of their link adds no
/// record to either.
proof fn lemma_relink_length<D>(
    m: Map<Seq<char>, NodeView<D>>,
    a: Seq<char>,
    b: Seq<char>,
    v: i64,
    w: i64,
)
    requires
        m.contains_key(a),
        m.contains_key(b),
        distinct_peers(m[a].edges),
        m[a].edges.contains(EdgeView { direction: ConnectionDirection::To, label: b, weight: v }),
        m[b].edges.contains(EdgeView { direction: ConnectionDirection::From, label: a, weight: v }),
    ensures
        with_link(m, a, b, w)[a].edges.len() == m[a].edges.len(),
        with_link(m, a, b, w)[b].edges.len() == m[b].edges.len(),
{
    let out = EdgeView { direction: ConnectionDirection::To, label: b, weight: v };
    let inc = EdgeView { direction: ConnectionDirection::From, label: a, weight: v };
    let i = m[a].edges.index_of(out);
    let j = m[b].edges.index_of(inc);
    assert(keyed(m[a].edges[i], b, ConnectionDirection::To));
    assert(keyed(m[b].edges[j], a, ConnectionDirection::From));
    let first = with_edge(m[a].edges, b, ConnectionDirection::To, w);
    lemma_with_edge_len(m[a].edges, b, ConnectionDirection::To, w);
    if a == b {
        lemma_with_edge(m[a].edges, b, ConnectionDirection::To, w);
        assert(first[j] == inc);
        assert(keyed(first[j], a, ConnectionDirection::From));
        lemma_with_edge_len(first, a, ConnectionDirection::From, w);
    } else {
        lemma_with_edge_len(m[b].edges, a, ConnectionDirection::From, w);
    }
}

/// Missing endpoint: linking to or from a label that the graph does not have
/// leaves the whole graph as it was, so the other node keeps its edge list and
/// the missing node stays missing.
pub proof fn law_link_needs_both_nodes<D>(
    m: Map<Seq<char>, NodeView<D>>,
    a: Seq<char>,
    b: Seq<char>,
    w: i64,
)
    requires
        !m.contains_key(b),
    ensures
        with_link(m, a, b, w) == m,
        with_link(m, b, a, w) == m,
        !with_link(m, a, b, w).contains_key(b),
{
}

/// Lookup needs no preparation: right after a node is created, the graph has
/// its label and holds the payload it was created with.
pub proof fn law_created_node_is_found<D>(m: Map<Seq<char>, NodeView<D>>, x: Seq<char>, payload: D)
    ensures
        with_node(m, x, payload).contains_key(x),
        with_node(m, x, payload)[x].data == payload,
{
}

/// A node that was just created under a new label has neither incoming nor
/// outgoing records, while a label that the graph lacks has no node at all.
pub proof fn law_new_node_has_no_edges<D>(m: Map<Seq<char>, NodeView<D>>, x: Seq<char>, payload: D)
    requires
        !m.contains_key(x),
    ensures
        inputs(with_node(m, x, payload), x) == Seq::<EdgeView>::empty(),
        outputs(with_node(m, x, payload), x) == Seq::<EdgeView>::empty(),
{
    reveal(Seq::filter);
    assert(select(Seq::<EdgeView>::empty(), ConnectionDirection::From) =~= Seq::<EdgeView>::empty());
    assert(select(Seq::<EdgeView>::empty(), ConnectionDirection::To) =~= Seq::<EdgeView>::empty());
}

} // verus!
