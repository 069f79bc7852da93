//! Lists of edge records, as a node holds them: what linking does to a list
//! and what a selection by direction holds.

use crate::edge::{keyed, ConnectionDirection, EdgeView};
use vstd::prelude::*;

verus! {

/// No two records of the list share peer and direction.
pub open spec fn distinct_peers(edges: Seq<EdgeView>) -> bool {
    forall|i: int, j: int|
        0 <= i < j < edges.len() ==> !keyed(
            #[trigger] edges[i],
            (#[trigger] edges[j]).label,
            edges[j].direction,
        )
}

/// The list holds a record for `peer` in direction `direction`.
pub open spec fn has_edge(
    edges: Seq<EdgeView>,
    peer: Seq<char>,
    direction: ConnectionDirection,
) -> bool {
    exists|i: int| 0 <= i < edges.len() && keyed(#[trigger] edges[i], peer, direction)
}

/// `i` is the first position of the list with a record for `peer` in direction
/// `direction`.
pub open spec fn first_keyed_at(
    edges: Seq<EdgeView>,
    peer: Seq<char>,
    direction: ConnectionDirection,
    i: int,
) -> bool {
    &&& 0 <= i < edges.len()
    &&& keyed(edges[i], peer, direction)
    &&& forall|j: int| 0 <= j < i ==> !keyed(#[trigger] edges[j], peer, direction)
}

/// The first position with a record for `peer` in direction `direction`, where
/// the list has one.
pub open spec fn edge_position(
    edges: Seq<EdgeView>,
    peer: Seq<char>,
    direction: ConnectionDirection,
) -> int {
    choose|i: int| first_keyed_at(edges, peer, direction, i)
}

/// The list after linking: the record for `peer` and `direction` gets the new
/// weight where there is one, and is appended where there is none.
pub open spec fn with_edge(
    edges: Seq<EdgeView>,
    peer: Seq<char>,
    direction: ConnectionDirection,
    weight: i64,
) -> Seq<EdgeView> {
    let record = EdgeView { direction, label: peer, weight };
    if has_edge(edges, peer, direction) {
        edges.update(edge_position(edges, peer, direction), record)
    } else {
        edges.push(record)
    }
}

/// The test that picks the records of one direction.
pub open spec fn heading(direction: ConnectionDirection) -> spec_fn(EdgeView) -> bool {
    |e: EdgeView| e.direction == direction
}

/// The records of one direction, in the order of the list.
pub open spec fn select(edges: Seq<EdgeView>, direction: ConnectionDirection) -> Seq<EdgeView> {
    edges.filter(heading(direction))
}

/// The list holds exactly one record with the peer `peer`, and that record has
/// the weight `weight`.
pub open spec fn one_record_for(edges: Seq<EdgeView>, peer: Seq<char>, weight: i64) -> bool {
    exists|i: int|
        {
            &&& 0 <= i < edges.len()
            &&& (#[trigger] edges[i]).label == peer
            &&& edges[i].weight == weight
            &&& forall|j: int|
                0 <= j < edges.len() && (#[trigger] edges[j]).label == peer ==> j == i
        }
}

/// A position that is the first with its key is the one that `edge_position`
/// names.
pub proof fn lemma_edge_position(
    edges: Seq<EdgeView>,
    peer: Seq<char>,
    direction: ConnectionDirection,
    i: int,
)
    requires
        first_keyed_at(edges, peer, direction, i),
    ensures
        has_edge(edges, peer, direction),
        edge_position(edges, peer, direction) == i,
{
    let k = edge_position(edges, peer, direction);
    assert(first_keyed_at(edges, peer, direction, k));
    if k < i {
        assert(!keyed(edges[k], peer, direction));
    } else if i < k {
        assert(!keyed(edges[i], peer, direction));
    }
}

/// Where the list has a record for the key, `edge_position` names the first.
pub proof fn lemma_has_edge_position(
    edges: Seq<EdgeView>,
    peer: Seq<char>,
    direction: ConnectionDirection,
)
    requires
        has_edge(edges, peer, direction),
    ensures
        first_keyed_at(edges, peer, direction, edge_position(edges, peer, direction)),
    decreases edges.len(),
{
    let i = choose|i: int| 0 <= i < edges.len() && keyed(#[trigger] edges[i], peer, direction);
    if exists|j: int| 0 <= j < i && keyed(#[trigger] edges[j], peer, direction) {
        let shorter = edges.take(i);
        let j = choose|j: int| 0 <= j < i && keyed(#[trigger] edges[j], peer, direction);
        assert(keyed(shorter[j], peer, direction));
        lemma_has_edge_position(shorter, peer, direction);
        let k = edge_position(shorter, peer, direction);
        assert forall|j: int| 0 <= j < k implies !keyed(#[trigger] edges[j], peer, direction) by {
            assert(edges[j] == shorter[j]);
        }
        assert(first_keyed_at(edges, peer, direction, k));
    } else {
        assert(first_keyed_at(edges, peer, direction, i));
    }
}

/// After linking, the list holds a record for the key.
pub proof fn lemma_with_edge_has(
    edges: Seq<EdgeView>,
    peer: Seq<char>,
    direction: ConnectionDirection,
    weight: i64,
)
    ensures
        has_edge(with_edge(edges, peer, direction, weight), peer, direction),
{
    let after = with_edge(edges, peer, direction, weight);
    if has_edge(edges, peer, direction) {
        lemma_has_edge_position(edges, peer, direction);
        assert(keyed(after[edge_position(edges, peer, direction)], peer, direction));
    } else {
        assert(keyed(after[edges.len() as int], peer, direction));
    }
}

/// Linking appends a record only where the list has none for the key.
pub proof fn lemma_with_edge_len(
    edges: Seq<EdgeView>,
    peer: Seq<char>,
    direction: ConnectionDirection,
    weight: i64,
)
    ensures
        with_edge(edges, peer, direction, weight).len() == if has_edge(edges, peer, direction) {
            edges.len()
        } else {
            edges.len() + 1
        },
{
    if has_edge(edges, peer, direction) {
        lemma_has_edge_position(edges, peer, direction);
    }
}

/// What linking does to a list without duplicates: the list keeps its
/// property, holds the new record, and keeps every record of another key at
/// its position.
pub proof fn lemma_with_edge(
    edges: Seq<EdgeView>,
    peer: Seq<char>,
    direction: ConnectionDirection,
    weight: i64,
)
    requires
        distinct_peers(edges),
    ensures
        ({
            let after = with_edge(edges, peer, direction, weight);
            let record = EdgeView { direction, label: peer, weight };
            &&& distinct_peers(after)
            &&& after.contains(record)
            &&& edges.len() <= after.len() <= edges.len() + 1
            &&& forall|i: int|
                0 <= i < after.len() ==> #[trigger] after[i] == record || (i < edges.len()
                    && after[i] == edges[i] && !keyed(edges[i], peer, direction))
            &&& forall|i: int|
                0 <= i < edges.len() && !keyed(#[trigger] edges[i], peer, direction)
                    ==> after[i] == edges[i]
        }),
{
    let after = with_edge(edges, peer, direction, weight);
    let record = EdgeView { direction, label: peer, weight };
    if has_edge(edges, peer, direction) {
        lemma_has_edge_position(edges, peer, direction);
        let k = edge_position(edges, peer, direction);
        assert(after[k] == record);
        assert forall|i: int| 0 <= i < after.len() implies #[trigger] after[i] == record || (i
            < edges.len() && after[i] == edges[i] && !keyed(edges[i], peer, direction)) by {
            if i < k {
                assert(!keyed(edges[i], edges[k].label, edges[k].direction));
            } else if k < i {
                assert(!keyed(edges[k], edges[i].label, edges[i].direction));
            }
        }
        assert forall|i: int, j: int| 0 <= i < j < after.len() implies !keyed(
            #[trigger] after[i],
            (#[trigger] after[j]).label,
            after[j].direction,
        ) by {
            assert(!keyed(edges[i], edges[j].label, edges[j].direction));
        }
    } else {
        assert(after[edges.len() as int] == record);
        assert forall|i: int, j: int| 0 <= i < j < after.len() implies !keyed(
            #[trigger] after[i],
            (#[trigger] after[j]).label,
            after[j].direction,
        ) by {
            if j < edges.len() {
                assert(!keyed(edges[i], edges[j].label, edges[j].direction));
            } else {
                assert(!keyed(edges[i], peer, direction));
            }
        }
    }
}

/// The record for a key stays where it is when the record at another
/// position is replaced by one of another key.
proof fn lemma_position_kept(
    edges: Seq<EdgeView>,
    peer: Seq<char>,
    direction: ConnectionDirection,
    k: int,
    other: int,
    record: EdgeView,
)
    requires
        first_keyed_at(edges, peer, direction, k),
        0 <= other < edges.len(),
        other != k,
        !keyed(record, peer, direction),
    ensures
        first_keyed_at(edges.update(other, record), peer, direction, k),
{
    let changed = edges.update(other, record);
    assert forall|j: int| 0 <= j < k implies !keyed(#[trigger] changed[j], peer, direction) by {
        if j != other {
            assert(changed[j] == edges[j]);
        }
    }
}

/// Linking a second time is the same as linking once with the second weight.
pub proof fn lemma_with_edge_again(
    edges: Seq<EdgeView>,
    peer: Seq<char>,
    direction: ConnectionDirection,
    w1: i64,
    w2: i64,
)
    ensures
        with_edge(with_edge(edges, peer, direction, w1), peer, direction, w2) == with_edge(
            edges,
            peer,
            direction,
            w2,
        ),
{
    let once = with_edge(edges, peer, direction, w1);
    let twice = with_edge(once, peer, direction, w2);
    let k = if has_edge(edges, peer, direction) {
        edge_position(edges, peer, direction)
    } else {
        edges.len() as int
    };
    if has_edge(edges, peer, direction) {
        lemma_has_edge_position(edges, peer, direction);
    }
    assert forall|j: int| 0 <= j < k implies !keyed(#[trigger] once[j], peer, direction) by {
        assert(once[j] == edges[j]);
    }
    assert(first_keyed_at(once, peer, direction, k));
    lemma_edge_position(once, peer, direction, k);
    assert(twice =~= with_edge(edges, peer, direction, w2));
}

/// Linking under two different keys gives the same list in either order,
/// where the list already holds a record for the first key.
pub proof fn lemma_with_edge_commutes(
    edges: Seq<EdgeView>,
    peer_a: Seq<char>,
    dir_a: ConnectionDirection,
    weight_a: i64,
    peer_b: Seq<char>,
    dir_b: ConnectionDirection,
    weight_b: i64,
)
    requires
        has_edge(edges, peer_a, dir_a),
        !(peer_a == peer_b && dir_a == dir_b),
    ensures
        with_edge(with_edge(edges, peer_a, dir_a, weight_a), peer_b, dir_b, weight_b) == with_edge(
            with_edge(edges, peer_b, dir_b, weight_b),
            peer_a,
            dir_a,
            weight_a,
        ),
{
    let record_a = EdgeView { direction: dir_a, label: peer_a, weight: weight_a };
    let record_b = EdgeView { direction: dir_b, label: peer_b, weight: weight_b };
    lemma_has_edge_position(edges, peer_a, dir_a);
    let at_a = edge_position(edges, peer_a, dir_a);
    let first = with_edge(edges, peer_a, dir_a, weight_a);
    let second = with_edge(edges, peer_b, dir_b, weight_b);
    assert(first == edges.update(at_a, record_a));
    if has_edge(edges, peer_b, dir_b) {
        lemma_has_edge_position(edges, peer_b, dir_b);
        let at_b = edge_position(edges, peer_b, dir_b);
        assert(second == edges.update(at_b, record_b));
        lemma_position_kept(edges, peer_b, dir_b, at_b, at_a, record_a);
        lemma_edge_position(first, peer_b, dir_b, at_b);
        lemma_position_kept(edges, peer_a, dir_a, at_a, at_b, record_b);
        lemma_edge_position(second, peer_a, dir_a, at_a);
        assert(first.update(at_b, record_b) =~= second.update(at_a, record_a));
    } else {
        assert(second == edges.push(record_b));
        assert forall|j: int| 0 <= j < first.len() implies !keyed(#[trigger] first[j], peer_b, dir_b) by {
            if j != at_a {
                assert(first[j] == edges[j]);
            }
        }
        assert forall|j: int| 0 <= j < at_a implies !keyed(#[trigger] second[j], peer_a, dir_a) by {
            assert(second[j] == edges[j]);
        }
        assert(first_keyed_at(second, peer_a, dir_a, at_a));
        lemma_edge_position(second, peer_a, dir_a, at_a);
        assert(first.push(record_b) =~= second.update(at_a, record_a));
    }
}

/// Selecting from a list with one more record at its end.
pub proof fn lemma_select_push(edges: Seq<EdgeView>, e: EdgeView, direction: ConnectionDirection)
    ensures
        select(edges.push(e), direction) == if e.direction == direction {
            select(edges, direction).push(e)
        } else {
            select(edges, direction)
        },
{
    reveal(Seq::filter);
    assert(edges.push(e).drop_last() =~= edges);
}

/// A selection of a list without duplicates has none either.
pub proof fn lemma_select_distinct(edges: Seq<EdgeView>, direction: ConnectionDirection)
    requires
        distinct_peers(edges),
    ensures
        distinct_peers(select(edges, direction)),
    decreases edges.len(),
{
    reveal(Seq::filter);
    if edges.len() > 0 {
        let front = edges.drop_last();
        let last = edges.last();
        assert forall|i: int, j: int| 0 <= i < j < front.len() implies !keyed(
            #[trigger] front[i],
            (#[trigger] front[j]).label,
            front[j].direction,
        ) by {
            assert(!keyed(edges[i], edges[j].label, edges[j].direction));
        }
        lemma_select_distinct(front, direction);
        let chosen = select(front, direction);
        if last.direction == direction {
            let all = chosen.push(last);
            assert(select(edges, direction) == all);
            assert forall|i: int, j: int| 0 <= i < j < all.len() implies !keyed(
                #[trigger] all[i],
                (#[trigger] all[j]).label,
                all[j].direction,
            ) by {
                if j == chosen.len() {
                    assert(chosen.contains(chosen[i]));
                    front.lemma_filter_contains_rev(heading(direction), chosen[i]);
                    let k = choose|k: int| 0 <= k < front.len() && front[k] == chosen[i];
                    assert(!keyed(edges[k], edges[edges.len() - 1].label, last.direction));
                } else {
                    assert(!keyed(chosen[i], chosen[j].label, chosen[j].direction));
                }
            }
        }
    }
}

/// In a list without duplicates that holds a record for `peer` in direction
/// `direction`, the selection of that direction holds exactly one record with
/// that peer, the one of the list.
pub proof fn lemma_select_one_record(
    edges: Seq<EdgeView>,
    peer: Seq<char>,
    direction: ConnectionDirection,
    weight: i64,
)
    requires
        distinct_peers(edges),
        edges.contains(EdgeView { direction, label: peer, weight }),
    ensures
        one_record_for(select(edges, direction), peer, weight),
{
    let record = EdgeView { direction, label: peer, weight };
    let chosen = select(edges, direction);
    lemma_select_distinct(edges, direction);
    let k = edges.index_of(record);
    assert(heading(direction)(edges[k]));
    edges.lemma_filter_contains(heading(direction), k);
    let i = chosen.index_of(record);
    assert forall|j: int| 0 <= j < chosen.len() && (#[trigger] chosen[j]).label == peer implies j
        == i by {
        edges.lemma_filter_pred(heading(direction), j);
        assert(chosen[j].direction == direction);
        lemma_distinct_peers_at(chosen, i, j);
    }
}

/// Two records of a list without duplicates that share peer and direction
/// stand at the same position.
pub proof fn lemma_distinct_peers_at(edges: Seq<EdgeView>, i: int, j: int)
    requires
        distinct_peers(edges),
        0 <= i < edges.len(),
        0 <= j < edges.len(),
        edges[i].label == edges[j].label,
        edges[i].direction == edges[j].direction,
    ensures
        i == j,
{
    if i < j {
        assert(!keyed(edges[i], edges[j].label, edges[j].direction));
    } else if j < i {
        assert(!keyed(edges[j], edges[i].label, edges[i].direction));
    }
}

} // verus!
