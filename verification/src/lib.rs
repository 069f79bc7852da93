//! A directed graph whose nodes are addressed by string labels. Each node
//! carries a payload, and each link between two nodes carries a weight and is
//! recorded on both of its ends.

pub mod edge;
pub mod graph;
pub mod iter;
pub mod label;
pub mod laws;
pub mod model;
pub mod node;
pub mod records;

pub use crate::edge::{ConnectionDirection, LabelGraphEdge};
pub use crate::graph::DirectedLabelGraph;
pub use crate::iter::{IterGraphNodeData, IterGraphNodeLabelAndData};
pub use crate::node::LabelGraphNode;
