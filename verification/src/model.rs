//! The graph as a mathematical map from labels to nodes, what linking and node
//! creation do to it, and the rule that keeps the two records of a link in
//! step.

use crate::edge::{keyed, mirror, ConnectionDirection, EdgeView};
use crate::node::NodeView;
use crate::records::{distinct_peers, lemma_with_edge, select, with_edge};
use vstd::prelude::*;

verus! {

/// The record at position `i` of node `a` has its counterpart: the node at the
/// other end exists and holds the mirrored record.
pub open spec fn paired<D>(m: Map<Seq<char>, NodeView<D>>, a: Seq<char>, i: int) -> bool {
    let e = m[a].edges[i];
    m.contains_key(e.label) && m[e.label].edges.contains(mirror(a, e))
}

/// Every link is recorded on both of its ends with the same weight, and no
/// node holds two records for the same peer and direction.
pub open spec fn consistent<D>(m: Map<Seq<char>, NodeView<D>>) -> bool {
    &&& forall|a: Seq<char>| m.contains_key(a) ==> distinct_peers(#[trigger] m[a].edges)
    &&& forall|a: Seq<char>, i: int|
        m.contains_key(a) && 0 <= i < m[a].edges.len() ==> #[trigger] paired(m, a, i)
}

/// The graph after creating a node: a new label gets a node without edges; an
/// existing node gets the new payload and keeps its edges.
pub open spec fn with_node<D>(m: Map<Seq<char>, NodeView<D>>, label: Seq<char>, data: D) -> Map<
    Seq<char>,
    NodeView<D>,
> {
    if m.contains_key(label) {
        m.insert(label, NodeView { data, edges: m[label].edges })
    } else {
        m.insert(label, NodeView { data, edges: Seq::<EdgeView>::empty() })
    }
}

/// The graph after replacing the payload of an existing node.
pub open spec fn with_data<D>(m: Map<Seq<char>, NodeView<D>>, label: Seq<char>, data: D) -> Map<
    Seq<char>,
    NodeView<D>,
> {
    m.insert(label, NodeView { data, edges: m[label].edges })
}

/// The graph after linking `from` to `to` with the given weight: nothing
/// changes unless both nodes exist; then `from` records the outgoing side and
/// `to` the incoming side.
pub open spec fn with_link<D>(
    m: Map<Seq<char>, NodeView<D>>,
    from: Seq<char>,
    to: Seq<char>,
    weight: i64,
) -> Map<Seq<char>, NodeView<D>> {
    if m.contains_key(from) && m.contains_key(to) {
        let m1 = m.insert(
            from,
            NodeView {
                data: m[from].data,
                edges: with_edge(m[from].edges, to, ConnectionDirection::To, weight),
            },
        );
        m1.insert(
            to,
            NodeView {
                data: m1[to].data,
                edges: with_edge(m1[to].edges, from, ConnectionDirection::From, weight),
            },
        )
    } else {
        m
    }
}

/// The incoming records of a node, in the order in which they were created.
pub open spec fn inputs<D>(m: Map<Seq<char>, NodeView<D>>, label: Seq<char>) -> Seq<EdgeView> {
    select(m[label].edges, ConnectionDirection::From)
}

/// The outgoing records of a node, in the order in which they were created.
pub open spec fn outputs<D>(m: Map<Seq<char>, NodeView<D>>, label: Seq<char>) -> Seq<EdgeView> {
    select(m[label].edges, ConnectionDirection::To)
}

/// The record `e` on node `a` is one of the two records of the link from
/// `from` to `to`.
pub open spec fn of_link(a: Seq<char>, e: EdgeView, from: Seq<char>, to: Seq<char>) -> bool {
    ||| a == from && keyed(e, to, ConnectionDirection::To)
    ||| a == to && keyed(e, from, ConnectionDirection::From)
}

/// What linking does to one node `a` of a consistent graph.
pub proof fn lemma_with_link_at<D>(
    m: Map<Seq<char>, NodeView<D>>,
    from: Seq<char>,
    to: Seq<char>,
    weight: i64,
    a: Seq<char>,
)
    requires
        m.contains_key(from),
        m.contains_key(to),
        m.contains_key(a),
        distinct_peers(m[a].edges),
    ensures
        ({
            let before = m[a].edges;
            let after = with_link(m, from, to, weight)[a].edges;
            &&& with_link(m, from, to, weight).dom() == m.dom()
            &&& with_link(m, from, to, weight)[a].data == m[a].data
            &&& distinct_peers(after)
            &&& before.len() <= after.len()
            &&& forall|i: int|
                0 <= i < after.len() ==> (of_link(a, #[trigger] after[i], from, to)
                    && after[i].weight == weight) || (i < before.len() && after[i] == before[i]
                    && !of_link(a, before[i], from, to))
            &&& forall|i: int|
                0 <= i < before.len() && !of_link(a, #[trigger] before[i], from, to)
                    ==> after[i] == before[i]
            &&& a == from ==> after.contains(
                EdgeView { direction: ConnectionDirection::To, label: to, weight },
            )
            &&& a == to ==> after.contains(
                EdgeView { direction: ConnectionDirection::From, label: from, weight },
            )
        }),
{
    let before = m[a].edges;
    let linked = with_link(m, from, to, weight);
    let after = linked[a].edges;
    assert(linked.dom() =~= m.dom());
    let out = EdgeView { direction: ConnectionDirection::To, label: to, weight };
    let inc = EdgeView { direction: ConnectionDirection::From, label: from, weight };
    if a == from && a == to {
        let mid = with_edge(before, to, ConnectionDirection::To, weight);
        lemma_with_edge(before, to, ConnectionDirection::To, weight);
        lemma_with_edge(mid, from, ConnectionDirection::From, weight);
        assert(after == with_edge(mid, from, ConnectionDirection::From, weight));
        let k = mid.index_of(out);
        assert(after[k] == out);
        assert forall|i: int| 0 <= i < after.len() implies (of_link(
            a,
            #[trigger] after[i],
            from,
            to,
        ) && after[i].weight == weight) || (i < before.len() && after[i] == before[i] && !of_link(
            a,
            before[i],
            from,
            to,
        )) by {
            if after[i] != inc {
                assert(mid[i] == after[i]);
            }
        }
        assert forall|i: int|
            0 <= i < before.len() && !of_link(a, #[trigger] before[i], from, to) implies after[i]
            == before[i] by {
            assert(mid[i] == before[i]);
        }
    } else if a == from {
        lemma_with_edge(before, to, ConnectionDirection::To, weight);
        assert(after == with_edge(before, to, ConnectionDirection::To, weight));
    } else if a == to {
        lemma_with_edge(before, from, ConnectionDirection::From, weight);
        assert(after == with_edge(before, from, ConnectionDirection::From, weight));
    } else {
        assert(after == before);
    }
}

/// Linking keeps a graph consistent.
pub proof fn lemma_with_link_consistent<D>(
    m: Map<Seq<char>, NodeView<D>>,
    from: Seq<char>,
    to: Seq<char>,
    weight: i64,
)
    requires
        consistent(m),
    ensures
        consistent(with_link(m, from, to, weight)),
        with_link(m, from, to, weight).dom() == m.dom(),
{
    let linked = with_link(m, from, to, weight);
    if m.contains_key(from) && m.contains_key(to) {
        lemma_with_link_at(m, from, to, weight, from);
        lemma_with_link_at(m, from, to, weight, to);
        assert forall|a: Seq<char>| linked.contains_key(a) implies distinct_peers(
            #[trigger] linked[a].edges,
        ) by {
            lemma_with_link_at(m, from, to, weight, a);
        }
        assert forall|a: Seq<char>, i: int|
            linked.contains_key(a) && 0 <= i < linked[a].edges.len() implies #[trigger] paired(
            linked,
            a,
            i,
        ) by {
            lemma_with_link_at(m, from, to, weight, a);
            let e = linked[a].edges[i];
            if of_link(a, e, from, to) && e.weight == weight {
                if a == from && keyed(e, to, ConnectionDirection::To) {
                    assert(mirror(a, e) == EdgeView {
                        direction: ConnectionDirection::From,
                        label: from,
                        weight,
                    });
                } else {
                    assert(mirror(a, e) == EdgeView {
                        direction: ConnectionDirection::To,
                        label: to,
                        weight,
                    });
                }
            } else {
                assert(e == m[a].edges[i]);
                assert(paired(m, a, i));
                let b = e.label;
                let back = mirror(a, e);
                lemma_with_link_at(m, from, to, weight, b);
                let k = m[b].edges.index_of(back);
                assert(m[b].edges[k] == back);
                assert(!of_link(b, back, from, to));
                assert(linked[b].edges[k] == back);
            }
        }
    }
}

/// Creating a node, or giving an existing node a new payload, keeps a graph
/// consistent.
pub proof fn lemma_with_node_consistent<D>(
    m: Map<Seq<char>, NodeView<D>>,
    label: Seq<char>,
    data: D,
)
    requires
        consistent(m),
    ensures
        consistent(with_node(m, label, data)),
{
    let made = with_node(m, label, data);
    assert forall|a: Seq<char>, i: int|
        made.contains_key(a) && 0 <= i < made[a].edges.len() implies #[trigger] paired(
        made,
        a,
        i,
    ) by {
        assert(m.contains_key(a));
        assert(paired(m, a, i));
    }
}

} // verus!
