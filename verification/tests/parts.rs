use labelgraph::label::{find_label, rank_labels, Rank};
use labelgraph::{
    ConnectionDirection, IterGraphNodeData, IterGraphNodeLabelAndData, LabelGraphEdge,
    LabelGraphNode,
};

#[test]
fn edge_getters_return_what_the_edge_was_made_with() {
    let e = LabelGraphEdge::new("peer".to_string(), ConnectionDirection::To, -3);
    assert_eq!(e.get_connection_direction(), ConnectionDirection::To);
    assert_eq!(e.get_connected_label(), "peer".to_string());
    assert_eq!(e.get_edge_weight(), -3);
    let f = LabelGraphEdge::new(String::new(), ConnectionDirection::From, 0);
    assert_eq!(f.get_connection_direction(), ConnectionDirection::From);
    assert_eq!(f.get_connected_label(), String::new());
    assert_eq!(f.get_edge_weight(), 0);
}

#[test]
fn edge_clone_is_the_same_record() {
    let e = LabelGraphEdge::new("peer".to_string(), ConnectionDirection::From, 8);
    let c = e.clone();
    assert_eq!(c.get_connection_direction(), ConnectionDirection::From);
    assert_eq!(c.get_connected_label(), "peer".to_string());
    assert_eq!(c.get_edge_weight(), 8);
}

#[test]
fn edge_is_identified_by_peer_and_direction() {
    let e = LabelGraphEdge::new("peer".to_string(), ConnectionDirection::To, 1);
    assert!(e.is_for("peer", ConnectionDirection::To));
    assert!(!e.is_for("peer", ConnectionDirection::From));
    assert!(!e.is_for("pee", ConnectionDirection::To));
    assert!(!e.is_for("peer2", ConnectionDirection::To));
}

#[test]
fn directions_differ() {
    assert_ne!(ConnectionDirection::From, ConnectionDirection::To);
    let d = ConnectionDirection::To;
    let c = d;
    assert_eq!(c, d);
}

#[test]
fn new_node_holds_its_payload_and_no_edges() {
    let node = LabelGraphNode::new(5u8);
    assert_eq!(*node.data(), 5);
    assert!(node.edges_toward(ConnectionDirection::From).is_empty());
    assert!(node.edges_toward(ConnectionDirection::To).is_empty());
}

#[test]
fn node_payload_can_be_replaced() {
    let mut node = LabelGraphNode::new(5u8);
    node.set_data(6);
    assert_eq!(*node.data(), 6);
    *node.data_mut() = 7;
    assert_eq!(*node.data(), 7);
}

#[test]
fn node_keeps_one_record_per_peer_and_direction() {
    let mut node = LabelGraphNode::new(());
    node.connect("a", ConnectionDirection::To, 1);
    node.connect("b", ConnectionDirection::To, 2);
    node.connect("a", ConnectionDirection::From, 3);
    node.connect("a", ConnectionDirection::To, 4);
    let out: Vec<(String, i64)> = node
        .edges_toward(ConnectionDirection::To)
        .iter()
        .map(|e| (e.get_connected_label(), e.get_edge_weight()))
        .collect();
    assert_eq!(out, vec![("a".to_string(), 4), ("b".to_string(), 2)]);
    let inc: Vec<(String, i64)> = node
        .edges_toward(ConnectionDirection::From)
        .iter()
        .map(|e| (e.get_connected_label(), e.get_edge_weight()))
        .collect();
    assert_eq!(inc, vec![("a".to_string(), 3)]);
}

#[test]
fn labels_are_ranked_by_their_bytes() {
    assert_eq!(rank_labels("a", "b"), Rank::Before);
    assert_eq!(rank_labels("b", "a"), Rank::After);
    assert_eq!(rank_labels("a", "a"), Rank::Same);
    assert_eq!(rank_labels("", ""), Rank::Same);
    assert_eq!(rank_labels("", "a"), Rank::Before);
    assert_eq!(rank_labels("a", ""), Rank::After);
    assert_eq!(rank_labels("n2", "n22"), Rank::Before);
    assert_eq!(rank_labels("n22", "n2"), Rank::After);
    assert_eq!(rank_labels("n22", "n3"), Rank::Before);
    assert_eq!(rank_labels("Z", "a"), Rank::Before);
    assert_eq!(rank_labels("z", "\u{e9}"), Rank::Before);
    assert_eq!(rank_labels("\u{e9}", "\u{20ac}"), Rank::Before);
    assert_eq!(rank_labels("\u{1f600}", "\u{20ac}"), Rank::After);
}

#[test]
fn ranking_agrees_with_the_order_of_strings() {
    let words = ["", "a", "A", "ab", "abc", "b", "n1", "n10", "n2", "\u{e9}", "\u{20ac}x"];
    for x in words.iter() {
        for y in words.iter() {
            let expected = if x < y {
                Rank::Before
            } else if x == y {
                Rank::Same
            } else {
                Rank::After
            };
            assert_eq!(rank_labels(x, y), expected);
        }
    }
}

#[test]
fn find_label_gives_the_position_or_the_place_to_insert() {
    let labels: Vec<String> =
        vec!["b".to_string(), "d".to_string(), "f".to_string(), "h".to_string()];
    assert_eq!(find_label(&labels, "b"), Ok(0));
    assert_eq!(find_label(&labels, "d"), Ok(1));
    assert_eq!(find_label(&labels, "f"), Ok(2));
    assert_eq!(find_label(&labels, "h"), Ok(3));
    assert_eq!(find_label(&labels, "a"), Err(0));
    assert_eq!(find_label(&labels, "c"), Err(1));
    assert_eq!(find_label(&labels, "e"), Err(2));
    assert_eq!(find_label(&labels, "g"), Err(3));
    assert_eq!(find_label(&labels, "i"), Err(4));
    assert_eq!(find_label(&labels, "bb"), Err(1));
    let none: Vec<String> = Vec::new();
    assert_eq!(find_label(&none, "a"), Err(0));
}

#[test]
fn data_cursor_hands_out_each_item_once() {
    let a = 1;
    let b = 2;
    let mut it = IterGraphNodeData::new(vec![&a, &b]);
    assert_eq!(it.next(), Some(&1));
    assert_eq!(it.next(), Some(&2));
    assert_eq!(it.next(), None);
    assert_eq!(it.next(), None);
    let mut empty: IterGraphNodeData<i32> = IterGraphNodeData::new(Vec::new());
    assert_eq!(empty.next(), None);
}

#[test]
fn label_and_data_cursor_hands_out_each_item_once() {
    let la = "a".to_string();
    let lb = "b".to_string();
    let a = 1;
    let b = 2;
    let mut it = IterGraphNodeLabelAndData::new(vec![(&lb, &b), (&la, &a)]);
    assert_eq!(it.next(), Some((&lb, &2)));
    assert_eq!(it.next(), Some((&la, &1)));
    assert_eq!(it.next(), None);
    assert_eq!(it.next(), None);
}
