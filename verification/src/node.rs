//! A node of the graph: its payload and its edge records.

use crate::edge::{
    edge_ref_views, edge_views, keyed, ConnectionDirection, EdgeView, LabelGraphEdge,
};
use crate::records::{first_keyed_at, lemma_edge_position, lemma_select_push, select, with_edge};
use vstd::prelude::*;

verus! {

/// What a node holds: the payload, and the edge records in the order in which
/// they were created.
pub struct NodeView<D> {
    pub data: D,
    pub edges: Seq<EdgeView>,
}

/// A node in the graph, which stores its data and its connections to other nodes.
#[derive(Debug)]
pub struct LabelGraphNode<D> {
    connections: Vec<LabelGraphEdge>,
    data: D,
}

impl<D> View for LabelGraphNode<D> {
    type V = NodeView<D>;

    closed spec fn view(&self) -> NodeView<D> {
        NodeView { data: self.data, edges: edge_views(self.connections@) }
    }
}

impl<D> LabelGraphNode<D> {
    /// A node with the given payload and no edge record.
    pub fn new(data: D) -> (node: Self)
        ensures
            node@ == (NodeView { data, edges: Seq::<EdgeView>::empty() }),
    {
        let node = LabelGraphNode { connections: Vec::new(), data };
        assert(edge_views(node.connections@) =~= Seq::<EdgeView>::empty());
        node
    }

    /// The payload.
    pub fn data(&self) -> (d: &D)
        ensures
            *d == self@.data,
    {
        &self.data
    }

    /// The payload, to be changed in place; the edge records stay as they are.
    pub fn data_mut(&mut self) -> (d: &mut D)
        ensures
            *d == old(self)@.data,
            final(self)@ == (NodeView { data: *final(d), edges: old(self)@.edges }),
    {
        &mut self.data
    }

    /// Replaces the payload; the edge records stay as they are.
    pub fn set_data(&mut self, data: D)
        ensures
            final(self)@ == (NodeView { data, edges: old(self)@.edges }),
    {
        self.data = data;
    }

    /// Records a link with `peer` in the given direction: the record for that
    /// peer and direction gets the weight, or a new record is appended.
    pub fn connect(&mut self, peer: &str, direction: ConnectionDirection, weight: i64)
        ensures
            final(self)@ == (NodeView {
                data: old(self)@.data,
                edges: with_edge(old(self)@.edges, peer@, direction, weight),
            }),
    {
        let ghost before = edge_views(self.connections@);
        let n = self.connections.len();
        let mut i: usize = 0;
        while i < n && !self.connections[i].is_for(peer, direction)
            invariant
                i <= n,
                n == self.connections.len(),
                *self == *old(self),
                before == edge_views(self.connections@),
                forall|j: int| 0 <= j < i ==> !keyed(#[trigger] before[j], peer@, direction),
            decreases n - i,
        {
            i += 1;
        }
        if i < n {
            proof {
                assert(first_keyed_at(before, peer@, direction, i as int));
                lemma_edge_position(before, peer@, direction, i as int);
            }
            self.connections[i].set_weight(weight);
            assert(edge_views(self.connections@) =~= with_edge(before, peer@, direction, weight));
        } else {
            self.connections.push(LabelGraphEdge::new(peer.to_owned(), direction, weight));
            assert(edge_views(self.connections@) =~= with_edge(before, peer@, direction, weight));
        }
    }

    /// The edge records of one direction, in the order in which they were
    /// created.
    pub fn edges_toward(&self, direction: ConnectionDirection) -> (found: Vec<&LabelGraphEdge>)
        ensures
            edge_ref_views(found@) == select(self@.edges, direction),
    {
        let ghost all = edge_views(self.connections@);
        let mut found: Vec<&LabelGraphEdge> = Vec::new();
        let n = self.connections.len();
        let mut i: usize = 0;
        proof {
            reveal(Seq::filter);
            assert(all.take(0) =~= Seq::<EdgeView>::empty());
            assert(edge_ref_views(found@) =~= select(all.take(0), direction));
        }
        while i < n
            invariant
                i <= n,
                n == self.connections.len(),
                all == edge_views(self.connections@),
                edge_ref_views(found@) == select(all.take(i as int), direction),
            decreases n - i,
        {
            let edge = &self.connections[i];
            proof {
                assert(all.take(i + 1) =~= all.take(i as int).push(edge@));
                lemma_select_push(all.take(i as int), edge@, direction);
            }
            if edge.get_connection_direction() == direction {
                let ghost earlier = edge_ref_views(found@);
                found.push(edge);
                assert(edge_ref_views(found@) =~= earlier.push(edge@));
            }
            i += 1;
        }
        assert(all.take(n as int) =~= all);
        found
    }
}

} // verus!
