//! Edge records: one side of a directed link, as a node holds it.

use crate::label::{rank_labels, Rank};
use vstd::prelude::*;

verus! {

/// Edge direction, seen from the node that holds the record: `To` marks a link
/// that leaves the node, `From` one that arrives at it.
#[derive(Debug, Clone, Copy, PartialEq, Eq, Structural)]
pub enum ConnectionDirection {
    From,
    To,
}

/// What an edge record says: the label of the node at the other end, the
/// direction and the weight.
pub struct EdgeView {
    pub direction: ConnectionDirection,
    pub label: Seq<char>,
    pub weight: i64,
}

/// Representation of an edge between two nodes.
#[derive(Debug)]
pub struct LabelGraphEdge {
    direction: ConnectionDirection,
    node_label: String,
    weight: i64,
}

impl View for LabelGraphEdge {
    type V = EdgeView;

    closed spec fn view(&self) -> EdgeView {
        EdgeView { direction: self.direction, label: self.node_label@, weight: self.weight }
    }
}

impl Clone for LabelGraphEdge {
    fn clone(&self) -> (r: Self)
        ensures
            r@ == self@,
    {
        LabelGraphEdge {
            direction: self.direction,
            node_label: self.node_label.clone(),
            weight: self.weight,
        }
    }
}

impl LabelGraphEdge {
    pub fn new(node_label: String, direction: ConnectionDirection, weight: i64) -> (e:
        LabelGraphEdge)
        ensures
            e@ == (EdgeView { direction, label: node_label@, weight }),
    {
        LabelGraphEdge { direction, node_label, weight }
    }

    pub fn get_connection_direction(&self) -> (d: ConnectionDirection)
        ensures
            d == self@.direction,
    {
        self.direction
    }

    pub fn get_connected_label(&self) -> (s: String)
        ensures
            s@ == self@.label,
    {
        self.node_label.clone()
    }

    pub fn get_edge_weight(&self) -> (w: i64)
        ensures
            w == self@.weight,
    {
        self.weight
    }

    /// Whether this record is the one for `peer` in direction `direction`.
    pub fn is_for(&self, peer: &str, direction: ConnectionDirection) -> (b: bool)
        ensures
            b == keyed(self@, peer@, direction),
    {
        self.direction == direction && rank_labels(self.node_label.as_str(), peer) == Rank::Same
    }

    /// Changes the weight; the peer and the direction of a record never change.
    pub(crate) fn set_weight(&mut self, weight: i64)
        ensures
            final(self)@ == (EdgeView { weight, ..old(self)@ }),
    {
        self.weight = weight;
    }
}

/// The opposite direction.
pub open spec fn opposite(d: ConnectionDirection) -> ConnectionDirection {
    match d {
        ConnectionDirection::From => ConnectionDirection::To,
        ConnectionDirection::To => ConnectionDirection::From,
    }
}

/// The record that the node `holder` must find on the node `e.label` for its
/// own record `e`: same weight, opposite direction, and `holder` as the peer.
pub open spec fn mirror(holder: Seq<char>, e: EdgeView) -> EdgeView {
    EdgeView { direction: opposite(e.direction), label: holder, weight: e.weight }
}

/// A record is identified on its node by peer and direction.
pub open spec fn keyed(e: EdgeView, peer: Seq<char>, direction: ConnectionDirection) -> bool {
    e.label == peer && e.direction == direction
}

/// The records of a node as values.
pub open spec fn edge_views(edges: Seq<LabelGraphEdge>) -> Seq<EdgeView> {
    edges.map_values(|e: LabelGraphEdge| e@)
}

/// The records that a vector of borrowed edges refers to.
pub open spec fn edge_ref_views(edges: Seq<&LabelGraphEdge>) -> Seq<EdgeView> {
    edges.map_values(|e: &LabelGraphEdge| e@)
}

} // verus!
