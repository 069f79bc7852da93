use labelgraph::{ConnectionDirection, DirectedLabelGraph, LabelGraphEdge};

#[derive(Debug, PartialEq)]
struct NodeData(i32);

fn records(edges: Option<Vec<&LabelGraphEdge>>) -> Option<Vec<(String, ConnectionDirection, i64)>> {
    edges.map(|list| {
        list.iter()
            .map(|e| (e.get_connected_label(), e.get_connection_direction(), e.get_edge_weight()))
            .collect()
    })
}

fn three_nodes() -> DirectedLabelGraph<NodeData> {
    let mut g = DirectedLabelGraph::new();
    g.create_node("n1", NodeData(2));
    g.create_node("n2", NodeData(3));
    g.create_node("n3", NodeData(4));
    g
}

#[test]
fn it_works() {
    assert_eq!(2 + 2, 4);
}

#[test]
fn new_graph_is_empty() {
    let g: DirectedLabelGraph<NodeData> = DirectedLabelGraph::new();
    assert!(!g.check_node_exists("n1"));
    assert!(!g.check_node_exists(""));
    assert_eq!(g.get_node_data("n1"), None);
    assert!(g.get_inputs_for_node("n1").is_none());
    assert!(g.get_outputs_for_node("n1").is_none());
    assert!(g.iter_node_data().next().is_none());
    assert!(g.iter_node_label_and_data().next().is_none());
}

#[test]
fn default_graph_is_empty() {
    let g: DirectedLabelGraph<i32> = DirectedLabelGraph::default();
    assert!(!g.check_node_exists("a"));
    assert!(g.iter_node_data().next().is_none());
}

#[test]
fn created_node_is_found_at_once() {
    let mut g = DirectedLabelGraph::new();
    g.create_node("x", NodeData(7));
    assert!(g.check_node_exists("x"));
    assert_eq!(g.get_node_data("x"), Some(&NodeData(7)));
    assert!(!g.check_node_exists("y"));
    assert_eq!(g.get_node_data("y"), None);
}

#[test]
fn link_then_bogus_link_scenario() {
    let mut g = three_nodes();
    g.link_nodes("n1", "n2", 1);
    g.link_nodes("n1", "n22", 2);
    assert_eq!(
        records(g.get_outputs_for_node("n1")),
        Some(vec![("n2".to_string(), ConnectionDirection::To, 1)])
    );
    assert_eq!(
        records(g.get_inputs_for_node("n2")),
        Some(vec![("n1".to_string(), ConnectionDirection::From, 1)])
    );
    assert_eq!(records(g.get_inputs_for_node("n3")), Some(vec![]));
    assert!(!g.check_node_exists("n22"));
}

#[test]
fn payload_is_changed_in_place() {
    let mut g = DirectedLabelGraph::new();
    g.create_node("n1", NodeData(2));
    {
        let data = g.get_mut_node_data("n1").unwrap();
        data.0 = 100;
    }
    assert_eq!(g.get_node_data("n1"), Some(&NodeData(100)));
}

#[test]
fn payload_of_a_missing_node_cannot_be_changed() {
    let mut g = three_nodes();
    assert!(g.get_mut_node_data("n4").is_none());
    assert_eq!(g.get_node_data("n1"), Some(&NodeData(2)));
    assert_eq!(g.get_node_data("n2"), Some(&NodeData(3)));
    assert_eq!(g.get_node_data("n3"), Some(&NodeData(4)));
}

#[test]
fn changing_a_payload_keeps_the_edges() {
    let mut g = three_nodes();
    g.link_nodes("n1", "n2", 5);
    *g.get_mut_node_data("n1").unwrap() = NodeData(-1);
    assert_eq!(g.get_node_data("n1"), Some(&NodeData(-1)));
    assert_eq!(
        records(g.get_outputs_for_node("n1")),
        Some(vec![("n2".to_string(), ConnectionDirection::To, 5)])
    );
}

#[test]
fn link_is_recorded_on_both_ends() {
    let mut g = three_nodes();
    g.link_nodes("n1", "n2", 10);
    g.link_nodes("n3", "n2", 11);
    g.link_nodes("n2", "n1", 12);
    let out1 = records(g.get_outputs_for_node("n1")).unwrap();
    assert_eq!(out1.iter().filter(|r| r.0 == "n2").count(), 1);
    assert_eq!(out1, vec![("n2".to_string(), ConnectionDirection::To, 10)]);
    let in2 = records(g.get_inputs_for_node("n2")).unwrap();
    assert_eq!(in2.iter().filter(|r| r.0 == "n1").count(), 1);
    assert_eq!(
        in2,
        vec![
            ("n1".to_string(), ConnectionDirection::From, 10),
            ("n3".to_string(), ConnectionDirection::From, 11),
        ]
    );
    assert_eq!(
        records(g.get_outputs_for_node("n2")),
        Some(vec![("n1".to_string(), ConnectionDirection::To, 12)])
    );
    assert_eq!(
        records(g.get_inputs_for_node("n1")),
        Some(vec![("n2".to_string(), ConnectionDirection::From, 12)])
    );
    assert_eq!(
        records(g.get_outputs_for_node("n3")),
        Some(vec![("n2".to_string(), ConnectionDirection::To, 11)])
    );
}

#[test]
fn relink_updates_the_weight_in_place() {
    let mut g = three_nodes();
    g.link_nodes("n1", "n3", 4);
    g.link_nodes("n1", "n2", 1);
    g.link_nodes("n1", "n2", 9);
    assert_eq!(
        records(g.get_outputs_for_node("n1")),
        Some(vec![
            ("n3".to_string(), ConnectionDirection::To, 4),
            ("n2".to_string(), ConnectionDirection::To, 9),
        ])
    );
    assert_eq!(
        records(g.get_inputs_for_node("n2")),
        Some(vec![("n1".to_string(), ConnectionDirection::From, 9)])
    );
    assert_eq!(records(g.get_outputs_for_node("n2")), Some(vec![]));
}

#[test]
fn relink_with_the_same_weight_changes_nothing() {
    let mut g = three_nodes();
    g.link_nodes("n1", "n2", 3);
    g.link_nodes("n1", "n2", 3);
    assert_eq!(
        records(g.get_outputs_for_node("n1")),
        Some(vec![("n2".to_string(), ConnectionDirection::To, 3)])
    );
    assert_eq!(
        records(g.get_inputs_for_node("n2")),
        Some(vec![("n1".to_string(), ConnectionDirection::From, 3)])
    );
}

#[test]
fn link_to_a_missing_node_is_a_no_op() {
    let mut g = three_nodes();
    g.link_nodes("n1", "n2", 1);
    let before = records(g.get_outputs_for_node("n1"));
    g.link_nodes("n1", "b", 2);
    assert_eq!(records(g.get_outputs_for_node("n1")), before);
    assert_eq!(records(g.get_inputs_for_node("n1")), Some(vec![]));
    assert!(!g.check_node_exists("b"));
}

#[test]
fn link_from_a_missing_node_is_a_no_op() {
    let mut g = three_nodes();
    g.link_nodes("a", "n1", 2);
    assert_eq!(records(g.get_inputs_for_node("n1")), Some(vec![]));
    assert_eq!(records(g.get_outputs_for_node("n1")), Some(vec![]));
    assert!(!g.check_node_exists("a"));
    g.link_nodes("a", "b", 2);
    assert!(!g.check_node_exists("a"));
    assert!(!g.check_node_exists("b"));
}

#[test]
fn missing_node_differs_from_node_without_edges() {
    let g = three_nodes();
    assert!(g.get_inputs_for_node("missing").is_none());
    assert!(g.get_outputs_for_node("missing").is_none());
    let inputs = g.get_inputs_for_node("n1");
    assert!(inputs.is_some());
    assert!(inputs.unwrap().is_empty());
    let outputs = g.get_outputs_for_node("n1");
    assert!(outputs.is_some());
    assert!(outputs.unwrap().is_empty());
}

#[test]
fn self_link_is_recorded_twice_on_the_node() {
    let mut g = three_nodes();
    g.link_nodes("n1", "n1", 6);
    assert_eq!(
        records(g.get_outputs_for_node("n1")),
        Some(vec![("n1".to_string(), ConnectionDirection::To, 6)])
    );
    assert_eq!(
        records(g.get_inputs_for_node("n1")),
        Some(vec![("n1".to_string(), ConnectionDirection::From, 6)])
    );
    g.link_nodes("n1", "n1", -6);
    assert_eq!(
        records(g.get_outputs_for_node("n1")),
        Some(vec![("n1".to_string(), ConnectionDirection::To, -6)])
    );
    assert_eq!(
        records(g.get_inputs_for_node("n1")),
        Some(vec![("n1".to_string(), ConnectionDirection::From, -6)])
    );
}

#[test]
fn links_in_both_directions_are_two_links() {
    let mut g = three_nodes();
    g.link_nodes("n1", "n2", 1);
    g.link_nodes("n2", "n1", 2);
    g.link_nodes("n1", "n2", 3);
    assert_eq!(
        records(g.get_outputs_for_node("n1")),
        Some(vec![("n2".to_string(), ConnectionDirection::To, 3)])
    );
    assert_eq!(
        records(g.get_inputs_for_node("n1")),
        Some(vec![("n2".to_string(), ConnectionDirection::From, 2)])
    );
    assert_eq!(
        records(g.get_outputs_for_node("n2")),
        Some(vec![("n1".to_string(), ConnectionDirection::To, 2)])
    );
    assert_eq!(
        records(g.get_inputs_for_node("n2")),
        Some(vec![("n1".to_string(), ConnectionDirection::From, 3)])
    );
}

#[test]
fn extreme_weights_are_kept() {
    let mut g = three_nodes();
    g.link_nodes("n1", "n2", i64::MAX);
    g.link_nodes("n2", "n3", i64::MIN);
    assert_eq!(
        records(g.get_outputs_for_node("n1")),
        Some(vec![("n2".to_string(), ConnectionDirection::To, i64::MAX)])
    );
    assert_eq!(
        records(g.get_inputs_for_node("n3")),
        Some(vec![("n2".to_string(), ConnectionDirection::From, i64::MIN)])
    );
}

#[test]
fn creating_an_existing_node_replaces_the_payload_and_keeps_the_edges() {
    let mut g = three_nodes();
    g.link_nodes("n1", "n2", 1);
    g.link_nodes("n3", "n1", 2);
    g.create_node("n1", NodeData(50));
    assert_eq!(g.get_node_data("n1"), Some(&NodeData(50)));
    assert_eq!(
        records(g.get_outputs_for_node("n1")),
        Some(vec![("n2".to_string(), ConnectionDirection::To, 1)])
    );
    assert_eq!(
        records(g.get_inputs_for_node("n1")),
        Some(vec![("n3".to_string(), ConnectionDirection::From, 2)])
    );
    let labels: Vec<String> = {
        let mut it = g.iter_node_label_and_data();
        let mut seen = Vec::new();
        while let Some((label, _)) = it.next() {
            seen.push(label.clone());
        }
        seen
    };
    assert_eq!(labels, vec!["n1".to_string(), "n2".to_string(), "n3".to_string()]);
}

#[test]
fn unlink_leaves_the_graph_as_it_is() {
    let mut g = three_nodes();
    g.link_nodes("n1", "n2", 1);
    g.unlink_nodes("n1", "n2");
    g.unlink_nodes("missing", "n2");
    assert_eq!(
        records(g.get_outputs_for_node("n1")),
        Some(vec![("n2".to_string(), ConnectionDirection::To, 1)])
    );
    assert_eq!(
        records(g.get_inputs_for_node("n2")),
        Some(vec![("n1".to_string(), ConnectionDirection::From, 1)])
    );
    assert!(!g.check_node_exists("missing"));
}

#[test]
fn nodes_are_visited_in_ascending_label_order() {
    let mut g = DirectedLabelGraph::new();
    g.create_node("b", 2);
    g.create_node("a", 1);
    g.create_node("c", 3);
    g.create_node("ab", 12);
    g.create_node("", 0);
    g.create_node("B", -2);
    g.create_node("\u{e9}", 233);
    g.create_node("z", 26);
    let mut it = g.iter_node_label_and_data();
    let mut seen: Vec<(String, i32)> = Vec::new();
    while let Some((label, data)) = it.next() {
        seen.push((label.clone(), *data));
    }
    assert_eq!(
        seen,
        vec![
            ("".to_string(), 0),
            ("B".to_string(), -2),
            ("a".to_string(), 1),
            ("ab".to_string(), 12),
            ("b".to_string(), 2),
            ("c".to_string(), 3),
            ("z".to_string(), 26),
            ("\u{e9}".to_string(), 233),
        ]
    );
    let mut data_it = g.iter_node_data();
    let mut payloads: Vec<i32> = Vec::new();
    while let Some(data) = data_it.next() {
        payloads.push(*data);
    }
    assert_eq!(payloads, vec![0, -2, 1, 12, 2, 3, 26, 233]);
    assert!(data_it.next().is_none());
}

#[test]
fn every_node_is_found_among_many() {
    let mut g = DirectedLabelGraph::new();
    let mut k: i32 = 0;
    while k < 200 {
        let n = (k * 37) % 200;
        g.create_node(&format!("node{}", n), n);
        k += 1;
    }
    let mut n: i32 = 0;
    while n < 200 {
        assert_eq!(g.get_node_data(&format!("node{}", n)), Some(&n));
        n += 1;
    }
    assert!(!g.check_node_exists("node200"));
    assert!(!g.check_node_exists("node"));
    let mut it = g.iter_node_label_and_data();
    let mut count = 0;
    let mut last: Option<String> = None;
    while let Some((label, _)) = it.next() {
        if let Some(prev) = &last {
            assert!(prev.as_str() < label.as_str());
        }
        last = Some(label.clone());
        count += 1;
    }
    assert_eq!(count, 200);
}

#[test]
fn a_fresh_walk_sees_the_current_state() {
    let mut g = DirectedLabelGraph::new();
    g.create_node("n1", 1);
    {
        let mut it = g.iter_node_data();
        assert_eq!(it.next(), Some(&1));
        assert_eq!(it.next(), None);
        assert_eq!(it.next(), None);
    }
    g.create_node("n0", 0);
    let mut it = g.iter_node_data();
    assert_eq!(it.next(), Some(&0));
    assert_eq!(it.next(), Some(&1));
    assert_eq!(it.next(), None);
}
