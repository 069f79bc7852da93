//! The store: nodes kept by label, and the links between them.

use crate::edge::{edge_ref_views, ConnectionDirection, LabelGraphEdge};
use crate::iter::{IterGraphNodeData, IterGraphNodeLabelAndData};
use crate::label::{
    ascending, find_label, label_before, label_views, lemma_ascending_distinct,
    lemma_ascending_unique, lemma_label_before_asymmetric,
};
use crate::model::{
    consistent, inputs, lemma_with_link_consistent, lemma_with_node_consistent, outputs,
    with_data, with_link, with_node,
};
use crate::node::{LabelGraphNode, NodeView};
use vstd::prelude::*;

verus! {

/// Holds the nodes of the graph, in ascending order of their labels.
#[derive(Debug)]
pub struct DirectedLabelGraph<D> {
    labels: Vec<String>,
    nodes: Vec<LabelGraphNode<D>>,
}

impl<D> View for DirectedLabelGraph<D> {
    type V = Map<Seq<char>, NodeView<D>>;

    /// The graph as a map from each label to its node.
    closed spec fn view(&self) -> Map<Seq<char>, NodeView<D>> {
        Map::new(
            |l: Seq<char>| self.label_seq().contains(l),
            |l: Seq<char>| self.nodes[self.label_seq().index_of(l)]@,
        )
    }
}

impl<D> DirectedLabelGraph<D> {
    /// The labels of the graph in the order in which the nodes are visited.
    pub closed spec fn label_seq(&self) -> Seq<Seq<char>> {
        label_views(self.labels@)
    }

    /// The representation is in order: one node per label, the labels
    /// ascending.
    pub closed spec fn inv(&self) -> bool {
        &&& self.labels.len() == self.nodes.len()
        &&& ascending(self.label_seq())
    }

    /// The graph is well formed: its representation is in order and every
    /// link is recorded on both of its ends.
    pub open spec fn wf(&self) -> bool {
        self.inv() && consistent(self@)
    }

    /// `other` has the labels of `self` and its nodes, but for the node at
    /// position `i`.
    spec fn differs_at(&self, other: &Self, i: int) -> bool {
        &&& other.labels == self.labels
        &&& other.nodes.len() == self.nodes.len()
        &&& forall|j: int| 0 <= j < self.nodes.len() && j != i ==> other.nodes[j] == self.nodes[j]
    }

    /// The labels of a graph are those of its map, each once and in ascending
    /// order.
    pub proof fn lemma_label_seq(&self)
        requires
            self.inv(),
        ensures
            ascending(self.label_seq()),
            self@.dom().finite(),
            self.label_seq().len() == self@.dom().len(),
            forall|l: Seq<char>| self@.contains_key(l) <==> self.label_seq().contains(l),
    {
        let s = self.label_seq();
        assert(self@.dom() =~= s.to_set());
        assert(s.no_duplicates()) by {
            assert forall|i: int, j: int| 0 <= i < s.len() && 0 <= j < s.len() && i != j implies s[i]
                != s[j] by {
                if s[i] == s[j] {
                    lemma_ascending_distinct(s, i, j);
                }
            }
        }
        s.unique_seq_to_set();
        vstd::seq_lib::seq_to_set_is_finite(s);
    }

    /// Graphs with the same labels visit them in the same order.
    pub proof fn lemma_label_seq_determined(&self, other: &Self)
        requires
            self.inv(),
            other.inv(),
            self@.dom() == other@.dom(),
        ensures
            self.label_seq() == other.label_seq(),
    {
        self.lemma_label_seq();
        other.lemma_label_seq();
        assert forall|l: Seq<char>|
            self.label_seq().contains(l) <==> other.label_seq().contains(l) by {
            assert(self@.contains_key(l) <==> other@.contains_key(l));
        }
        lemma_ascending_unique(self.label_seq(), other.label_seq());
    }

    /// The node at position `i` is the node of the label at position `i`.
    proof fn lemma_at(&self, i: int)
        requires
            self.inv(),
            0 <= i < self.labels.len(),
        ensures
            self@.contains_key(self.labels[i]@),
            self@.contains_key(self.label_seq()[i]),
            self.label_seq()[i] == self.labels[i]@,
            self@[self.labels[i]@] == self.nodes[i]@,
    {
        let s = self.label_seq();
        let l = s[i];
        assert(s.contains(l));
        lemma_ascending_distinct(s, i, s.index_of(l));
    }

    /// Replacing the node at one position replaces the node of that label.
    proof fn lemma_differs_at(&self, other: &Self, i: int)
        requires
            self.inv(),
            0 <= i < self.labels.len(),
            self.differs_at(other, i),
        ensures
            other.inv(),
            other.label_seq() == self.label_seq(),
            other@ == self@.insert(self.labels[i]@, other.nodes[i]@),
    {
        let s = self.label_seq();
        assert(other.label_seq() == s);
        assert(other.inv());
        self.lemma_at(i);
        other.lemma_at(i);
        let changed = self@.insert(self.labels[i]@, other.nodes[i]@);
        assert forall|l: Seq<char>| #[trigger] other@.contains_key(l) implies other@[l]
            == changed[l] by {
            assert(s.contains(l));
            let j = s.index_of(l);
            self.lemma_at(j);
            other.lemma_at(j);
            if j != i {
                assert(other.nodes[j] == self.nodes[j]);
                if s[j] == s[i] {
                    lemma_ascending_distinct(s, i, j);
                }
            }
        }
        assert(other@.dom() =~= changed.dom());
        assert(other@ =~= changed);
    }

    fn get_node(&self, node_label: &str) -> (r: Option<&LabelGraphNode<D>>)
        requires
            self.inv(),
        ensures
            match r {
                Some(node) => self@.contains_key(node_label@) && node@ == self@[node_label@],
                None => !self@.contains_key(node_label@),
            },
    {
        match find_label(&self.labels, node_label) {
            Ok(i) => {
                proof {
                    self.lemma_at(i as int);
                }
                Some(&self.nodes[i])
            },
            Err(i) => {
                proof {
                    self.lemma_absent(node_label@, i as int);
                }
                None
            },
        }
    }

    /// A label that stands strictly between its neighbours is not in the
    /// graph.
    proof fn lemma_absent(&self, l: Seq<char>, i: int)
        requires
            self.inv(),
            0 <= i <= self.labels.len(),
            forall|j: int| 0 <= j < i ==> label_before(#[trigger] self.labels[j]@, l),
            forall|j: int| i <= j < self.labels.len() ==> label_before(l, #[trigger] self.labels[j]@),
        ensures
            !self@.contains_key(l),
    {
        let s = self.label_seq();
        if s.contains(l) {
            let j = s.index_of(l);
            assert(s[j] == self.labels[j]@);
            if j < i {
                lemma_label_before_asymmetric(self.labels[j]@, l);
            } else {
                lemma_label_before_asymmetric(l, self.labels[j]@);
            }
        }
    }

    fn get_mut_node(&mut self, node_label: &str) -> (r: Option<&mut LabelGraphNode<D>>)
        requires
            old(self).inv(),
        ensures
            match r {
                Some(node) => {
                    &&& old(self)@.contains_key(node_label@)
                    &&& node@ == old(self)@[node_label@]
                    &&& final(self).inv()
                    &&& final(self).label_seq() == old(self).label_seq()
                    &&& final(self)@ == old(self)@.insert(node_label@, final(node)@)
                },
                None => !old(self)@.contains_key(node_label@) && *final(self) == *old(self),
            },
    {
        match find_label(&self.labels, node_label) {
            Ok(i) => {
                proof {
                    self.lemma_at(i as int);
                    assert forall|other: Self|
                        #![trigger other.inv()]
                        #![trigger other.label_seq()]
                        #![trigger other@]
                        self.differs_at(&other, i as int) implies {
                        &&& other.inv()
                        &&& other.label_seq() == self.label_seq()
                        &&& other@ == self@.insert(node_label@, other.nodes[i as int]@)
                    } by {
                        self.lemma_differs_at(&other, i as int);
                    }
                }
                Some(&mut self.nodes[i])
            },
            Err(i) => {
                proof {
                    self.lemma_absent(node_label@, i as int);
                }
                None
            },
        }
    }

    /// Putting a new label and its node at the position that keeps the labels
    /// ascending adds that node to the map.
    proof fn lemma_inserted(&self, other: &Self, i: int, l: Seq<char>)
        requires
            self.inv(),
            0 <= i <= self.labels.len(),
            forall|j: int| 0 <= j < i ==> label_before(#[trigger] self.labels[j]@, l),
            forall|j: int| i <= j < self.labels.len() ==> label_before(l, #[trigger] self.labels[j]@),
            other.labels.len() == self.labels.len() + 1,
            other.nodes.len() == self.nodes.len() + 1,
            other.labels[i]@ == l,
            forall|j: int| 0 <= j < i ==> other.labels[j] == self.labels[j],
            forall|j: int| i <= j < self.labels.len() ==> other.labels[j + 1] == self.labels[j],
            forall|j: int| 0 <= j < i ==> other.nodes[j] == self.nodes[j],
            forall|j: int| i <= j < self.nodes.len() ==> other.nodes[j + 1] == self.nodes[j],
        ensures
            other.inv(),
            other@ == self@.insert(l, other.nodes[i]@),
    {
        let s = self.label_seq();
        let t = other.label_seq();
        assert forall|p: int, q: int| 0 <= p < q < t.len() implies label_before(t[p], t[q]) by {
            let p0 = if p < i { p } else { p - 1 };
            let q0 = if q < i { q } else { q - 1 };
            if p != i && q != i {
                assert(t[p] == s[p0]);
                assert(t[q] == s[q0]);
                assert(label_before(s[p0], s[q0]));
            } else if p == i {
                assert(t[q] == self.labels[q0]@);
            } else {
                assert(t[p] == self.labels[p0]@);
            }
        }
        assert(other.inv());
        self.lemma_absent(l, i);
        let grown = self@.insert(l, other.nodes[i]@);
        assert forall|k: Seq<char>| other@.contains_key(k) <==> grown.contains_key(k) by {
            if other@.contains_key(k) {
                let p = t.index_of(k);
                if p != i {
                    let p0 = if p < i { p } else { p - 1 };
                    assert(s[p0] == k);
                }
            }
            if self@.contains_key(k) {
                let p0 = s.index_of(k);
                let p = if p0 < i { p0 } else { p0 + 1 };
                assert(t[p] == k);
            }
            if k == l {
                assert(t[i] == k);
            }
        }
        assert forall|k: Seq<char>| #[trigger] other@.contains_key(k) implies other@[k]
            == grown[k] by {
            let p = t.index_of(k);
            other.lemma_at(p);
            if p != i {
                let p0 = if p < i { p } else { p - 1 };
                assert(s[p0] == k);
                self.lemma_at(p0);
                assert(other.nodes[p] == self.nodes[p0]);
            }
        }
        assert(other@.dom() =~= grown.dom());
        assert(other@ =~= grown);
    }

    /// A graph without nodes.
    pub fn new() -> (g: Self)
        ensures
            g.wf(),
            g@ == Map::<Seq<char>, NodeView<D>>::empty(),
    {
        DirectedLabelGraph::default()
    }

    /// Whether the graph has a node with this label.
    pub fn check_node_exists(&self, node_label: &str) -> (found: bool)
        requires
            self.wf(),
        ensures
            found == self@.contains_key(node_label@),
    {
        self.get_node(node_label).is_some()
    }

    /// Creates a node with the given payload. Where the label is taken, the
    /// node that has it gets the new payload and keeps its edge records.
    pub fn create_node(&mut self, node_label: &str, node_data: D)
        requires
            old(self).wf(),
        ensures
            final(self).wf(),
            final(self)@ == with_node(old(self)@, node_label@, node_data),
    {
        proof {
            lemma_with_node_consistent(self@, node_label@, node_data);
        }
        match find_label(&self.labels, node_label) {
            Ok(i) => {
                self.nodes[i].set_data(node_data);
                proof {
                    old(self).lemma_at(i as int);
                    old(self).lemma_differs_at(self, i as int);
                }
            },
            Err(i) => {
                self.labels.insert(i, node_label.to_owned());
                self.nodes.insert(i, LabelGraphNode::new(node_data));
                proof {
                    old(self).lemma_absent(node_label@, i as int);
                    old(self).lemma_inserted(self, i as int, node_label@);
                }
            },
        }
    }

    /// The payload of the node with this label, or `None` where the graph has
    /// no such node.
    pub fn get_node_data(&self, node_label: &str) -> (r: Option<&D>)
        requires
            self.wf(),
        ensures
            match r {
                Some(d) => self@.contains_key(node_label@) && *d == self@[node_label@].data,
                None => !self@.contains_key(node_label@),
            },
    {
        match self.get_node(node_label) {
            Some(node) => Some(node.data()),
            None => None,
        }
    }

    /// The payload of the node with this label, to be changed in place, or
    /// `None` where the graph has no such node. Whatever is written, the
    /// labels and the edge records stay as they are.
    pub fn get_mut_node_data(&mut self, node_label: &str) -> (r: Option<&mut D>)
        requires
            old(self).wf(),
        ensures
            match r {
                Some(d) => {
                    &&& old(self)@.contains_key(node_label@)
                    &&& *d == old(self)@[node_label@].data
                    &&& final(self)@ == with_data(old(self)@, node_label@, *final(d))
                    &&& final(self).wf()
                },
                None => !old(self)@.contains_key(node_label@) && *final(self) == *old(self),
            },
    {
        proof {
            assert forall|d: D| self@.contains_key(node_label@) implies consistent(
                #[trigger] with_data(self@, node_label@, d),
            ) by {
                lemma_with_node_consistent(self@, node_label@, d);
            }
        }
        match self.get_mut_node(node_label) {
            Some(node) => Some(node.data_mut()),
            None => None,
        }
    }

    /// Links are not removed: the graph is left as it is.
    pub fn unlink_nodes(&mut self, node_label_a: &str, _node_label_b: &str)
        requires
            old(self).wf(),
        ensures
            final(self).wf(),
            final(self)@ == old(self)@,
    {
        proof {
            assert(self@.contains_key(node_label_a@) ==> self@.insert(
                node_label_a@,
                self@[node_label_a@],
            ) =~= self@);
        }
        if let Some(_node) = self.get_mut_node(node_label_a) {
        }
    }

    /// Links `from_node_label` to `to_node_label`. Where either node is
    /// missing nothing changes. Otherwise the first node records the outgoing
    /// side and the second the incoming side, both with the same weight: a
    /// link that is there gets the weight, a new one is appended to both
    /// lists.
    pub fn link_nodes(&mut self, from_node_label: &str, to_node_label: &str, weight: i64)
        requires
            old(self).wf(),
        ensures
            final(self).wf(),
            final(self)@ == with_link(old(self)@, from_node_label@, to_node_label@, weight),
            !(old(self)@.contains_key(from_node_label@) && old(self)@.contains_key(
                to_node_label@,
            )) ==> *final(self) == *old(self),
    {
        if !(self.check_node_exists(from_node_label) && self.check_node_exists(to_node_label)) {
            return;
        }
        proof {
            lemma_with_link_consistent(self@, from_node_label@, to_node_label@, weight);
        }
        if let Some(node) = self.get_mut_node(from_node_label) {
            node.connect(to_node_label, ConnectionDirection::To, weight);
        }
        if let Some(node) = self.get_mut_node(to_node_label) {
            node.connect(from_node_label, ConnectionDirection::From, weight);
        }
    }

    /// The incoming edge records of a node, in the order in which they were
    /// created, or `None` where the graph has no such node.
    pub fn get_inputs_for_node(&self, node_label: &str) -> (r: Option<Vec<&LabelGraphEdge>>)
        requires
            self.wf(),
        ensures
            match r {
                Some(found) => self@.contains_key(node_label@) && edge_ref_views(found@) == inputs(
                    self@,
                    node_label@,
                ),
                None => !self@.contains_key(node_label@),
            },
    {
        if let Some(node) = self.get_node(node_label) {
            Some(node.edges_toward(ConnectionDirection::From))
        } else {
            None
        }
    }

    /// The outgoing edge records of a node, in the order in which they were
    /// created, or `None` where the graph has no such node.
    pub fn get_outputs_for_node(&self, node_label: &str) -> (r: Option<Vec<&LabelGraphEdge>>)
        requires
            self.wf(),
        ensures
            match r {
                Some(found) => self@.contains_key(node_label@) && edge_ref_views(found@)
                    == outputs(self@, node_label@),
                None => !self@.contains_key(node_label@),
            },
    {
        let node = self.get_node(node_label);
        if node.is_some() {
            Some(node.unwrap().edges_toward(ConnectionDirection::To))
        } else {
            None
        }
    }

    /// A cursor over the payloads of the nodes as they are now, in ascending
    /// order of the labels.
    pub fn iter_node_data(&self) -> (it: IterGraphNodeData<'_, D>)
        requires
            self.wf(),
        ensures
            it.remaining().len() == self.label_seq().len(),
            forall|i: int|
                0 <= i < self.label_seq().len() ==> *(#[trigger] it.remaining()[i])
                    == self@[self.label_seq()[i]].data,
    {
        let mut items: Vec<&D> = Vec::new();
        let n = self.nodes.len();
        let mut i: usize = 0;
        while i < n
            invariant
                self.inv(),
                n == self.nodes.len(),
                i <= n,
                items.len() == i,
                forall|j: int|
                    0 <= j < i ==> *(#[trigger] items[j]) == self@[self.label_seq()[j]].data,
            decreases n - i,
        {
            proof {
                self.lemma_at(i as int);
            }
            items.push(self.nodes[i].data());
            i += 1;
        }
        IterGraphNodeData::new(items)
    }

    /// A cursor over the nodes as they are now, as pairs of label and
    /// payload, in ascending order of the labels.
    pub fn iter_node_label_and_data(&self) -> (it: IterGraphNodeLabelAndData<'_, D>)
        requires
            self.wf(),
        ensures
            it.remaining().len() == self.label_seq().len(),
            forall|i: int|
                0 <= i < self.label_seq().len() ==> {
                    &&& (#[trigger] it.remaining()[i]).0@ == self.label_seq()[i]
                    &&& *it.remaining()[i].1 == self@[self.label_seq()[i]].data
                },
    {
        let mut items: Vec<(&String, &D)> = Vec::new();
        let n = self.nodes.len();
        let mut i: usize = 0;
        while i < n
            invariant
                self.inv(),
                n == self.nodes.len(),
                i <= n,
                items.len() == i,
                forall|j: int|
                    0 <= j < i ==> {
                        &&& (#[trigger] items[j]).0@ == self.label_seq()[j]
                        &&& *items[j].1 == self@[self.label_seq()[j]].data
                    },
            decreases n - i,
        {
            proof {
                self.lemma_at(i as int);
            }
            items.push((&self.labels[i], self.nodes[i].data()));
            i += 1;
        }
        IterGraphNodeLabelAndData::new(items)
    }
}

impl<D> Default for DirectedLabelGraph<D> {
    fn default() -> (g: Self)
        ensures
            g.wf(),
            g@ == Map::<Seq<char>, NodeView<D>>::empty(),
    {
        let g = DirectedLabelGraph { labels: Vec::new(), nodes: Vec::new() };
        assert(g@ =~= Map::<Seq<char>, NodeView<D>>::empty());
        g
    }
}

} // verus!
