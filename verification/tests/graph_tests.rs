use irongolem::dag::records::graph_from_records;
use irongolem::dag::convert::{get_distance_between, graph_edit_distance, graph_structure_as_digraph};
use irongolem::dag::graph_node::descriptive_id;
use irongolem::dag::graph_utils::{
    distance_to_primary_level, distance_to_root_level, get_all_simple_paths, get_connected_components,
    get_nodes_by_name, graph_has_cycle, node_depth, nodes_from_layer, ordered_subnodes_hierarchy,
};
use irongolem::dag::linked_graph::LinkedGraph;
use irongolem::dag::node::{NodeContent, NodeId, ReconnectType};
use irongolem::dag::verification::{
    default_graph_verifier, has_no_cycle, has_no_isolated_components, has_no_isolated_nodes,
    has_no_self_cycled_nodes,
};

fn build(spec: &[(&str, &[usize])]) -> LinkedGraph {
    let mut g = LinkedGraph::new();
    for (name, parents) in spec {
        let ps: Vec<NodeId> = parents.iter().map(|p| NodeId(*p)).collect();
        g.add_detached(NodeContent::new(name.to_string()), &ps);
    }
    for i in 0..spec.len() {
        g.add_node(NodeId(i));
    }
    g
}

fn chain() -> LinkedGraph {
    build(&[("a", &[]), ("b", &[0]), ("c", &[1])])
}

#[test]
fn chain_structure_queries() {
    let g = chain();
    assert_eq!(g.length(), 3);
    assert_eq!(g.root_nodes(), vec![NodeId(2)]);
    assert_eq!(g.root_node(), Some(NodeId(2)));
    assert_eq!(g.node_children(NodeId(0)), vec![NodeId(1)]);
    assert_eq!(g.get_edges(), vec![(NodeId(0), NodeId(1)), (NodeId(1), NodeId(2))]);
    assert!(g.has_parent(NodeId(1), NodeId(0)));
    assert!(!g.has_parent(NodeId(0), NodeId(1)));
}

#[test]
fn chain_depths() {
    let g = chain();
    assert_eq!(g.depth(), 3);
    assert_eq!(node_depth(&g, &[NodeId(0)]), 1);
    assert_eq!(node_depth(&g, &[NodeId(2)]), 3);
    assert_eq!(distance_to_primary_level(&g, NodeId(2)), 2);
    assert_eq!(distance_to_root_level(&g, NodeId(0)), 2);
    assert_eq!(nodes_from_layer(&g, 0), vec![NodeId(2)]);
    assert_eq!(nodes_from_layer(&g, 2), vec![NodeId(0)]);
}

#[test]
fn empty_graph_depth_is_zero() {
    let g = LinkedGraph::new();
    assert_eq!(g.depth(), 0);
    assert_eq!(g.descriptive_id(), "EMPTY");
}

#[test]
fn cyclic_node_depth_is_minus_one() {
    let mut g = build(&[("a", &[]), ("b", &[0])]);
    g.connect_nodes(NodeId(1), NodeId(0));
    assert_eq!(node_depth(&g, &[NodeId(0)]), -1);
    assert!(graph_has_cycle(&g));
}

#[test]
fn descriptive_ids_of_chain() {
    let g = chain();
    assert_eq!(descriptive_id(&g, NodeId(0)), "/n_a");
    assert_eq!(descriptive_id(&g, NodeId(1)), "(/n_a;)/n_b");
    assert_eq!(g.descriptive_id(), "((/n_a;)/n_b;)/n_c");
}

#[test]
fn parents_sorted_in_descriptive_id() {
    let g = build(&[("z", &[]), ("a", &[]), ("c", &[0, 1])]);
    assert_eq!(g.descriptive_id(), "(/n_a;;/n_z;)/n_c");
}

#[test]
fn graphs_equal_by_structure() {
    let g1 = chain();
    let g2 = chain();
    let g3 = build(&[("a", &[]), ("b", &[0])]);
    assert!(g1.graphs_equal(&g2));
    assert!(!g1.graphs_equal(&g3));
}

#[test]
fn connect_then_disconnect_restores_parents() {
    let mut g = build(&[("a", &[]), ("b", &[])]);
    g.connect_nodes(NodeId(0), NodeId(1));
    assert_eq!(g.parents_of(NodeId(1)), &vec![NodeId(0)]);
    g.disconnect_nodes(NodeId(0), NodeId(1), false);
    assert!(g.parents_of(NodeId(1)).is_empty());
}

#[test]
fn disconnect_missing_edge_changes_nothing() {
    let mut g = chain();
    g.disconnect_nodes(NodeId(0), NodeId(2), false);
    assert_eq!(g.get_edges().len(), 2);
}

#[test]
fn deleted_node_is_inactive_and_reconnected() {
    let mut g = chain();
    g.delete_node(NodeId(1), ReconnectType::Single);
    assert!(!g.contains(NodeId(1)));
    assert_eq!(g.length(), 2);
    assert!(g.has_parent(NodeId(2), NodeId(0)));
}

#[test]
fn deleted_node_without_reconnect() {
    let mut g = chain();
    g.delete_node(NodeId(1), ReconnectType::NoReconnect);
    assert!(!g.contains(NodeId(1)));
    assert!(!g.has_parent(NodeId(2), NodeId(0)));
}

#[test]
fn deleted_subtree_is_inactive() {
    let mut g = chain();
    g.delete_subtree(NodeId(1));
    assert!(!g.contains(NodeId(1)));
    assert!(!g.contains(NodeId(0)));
    assert!(g.contains(NodeId(2)));
}

#[test]
fn connected_components_of_two_chains() {
    let g = build(&[("a", &[]), ("b", &[0]), ("c", &[]), ("d", &[2])]);
    let comps = get_connected_components(&g, None);
    assert_eq!(comps.len(), 2);
    let mut first = comps[0].clone();
    first.sort();
    assert_eq!(first, vec![NodeId(0), NodeId(1)]);
}

#[test]
fn single_node_is_one_component() {
    let g = build(&[("a", &[])]);
    let comps = get_connected_components(&g, None);
    assert_eq!(comps, vec![vec![NodeId(0)]]);
}

#[test]
fn simple_paths_along_chain() {
    let g = chain();
    let paths = get_all_simple_paths(&g, NodeId(2), NodeId(0));
    assert_eq!(paths, vec![vec![(NodeId(2), NodeId(1)), (NodeId(1), NodeId(0))]]);
}

#[test]
fn nodes_found_by_name() {
    let g = build(&[("a", &[]), ("b", &[0]), ("a", &[1])]);
    assert_eq!(get_nodes_by_name(&g, "a"), vec![NodeId(0), NodeId(2)]);
}

#[test]
fn hierarchy_refuses_cycles() {
    let mut g = build(&[("a", &[]), ("b", &[0])]);
    g.connect_nodes(NodeId(1), NodeId(0));
    let err = ordered_subnodes_hierarchy(&g, NodeId(1)).unwrap_err();
    assert_eq!(err.message(), "Can not build ordered node hierarchy: graph has cycle");
}

#[test]
fn verification_rules_messages() {
    let good = chain();
    assert!(has_no_cycle(&good).is_ok());
    assert!(default_graph_verifier(&good));

    let mut cyclic = build(&[("a", &[]), ("b", &[0])]);
    cyclic.connect_nodes(NodeId(1), NodeId(0));
    assert_eq!(has_no_cycle(&cyclic).unwrap_err(), "Invalid graph configuration: Graph has cycles");

    let isolated = build(&[("a", &[]), ("b", &[0]), ("c", &[])]);
    assert_eq!(
        has_no_isolated_nodes(&isolated).unwrap_err(),
        "Invalid graph configuration: Graph has isolated nodes"
    );
    assert!(!default_graph_verifier(&isolated));

    let mut selfie = build(&[("a", &[]), ("b", &[0])]);
    selfie.connect_nodes(NodeId(1), NodeId(1));
    assert_eq!(
        has_no_self_cycled_nodes(&selfie).unwrap_err(),
        "Invalid graph configuration: Graph has self-cycled nodes"
    );

    let empty = LinkedGraph::new();
    assert_eq!(
        has_no_isolated_components(&empty).unwrap_err(),
        "Invalid graph configuration: Graph is null, connectivity not defined"
    );
    let two = build(&[("a", &[]), ("b", &[0]), ("c", &[]), ("d", &[2])]);
    assert_eq!(
        has_no_isolated_components(&two).unwrap_err(),
        "Invalid graph configuration: Graph has isolated components"
    );
}

#[test]
fn digraph_of_chain() {
    let c = graph_structure_as_digraph(&chain());
    let names: Vec<&str> = c.nodes.iter().map(|n| n.name.as_str()).collect();
    assert_eq!(names, vec!["a", "b", "c"]);
    assert_eq!(c.edges, vec![(0, 1), (1, 2)]);
}

#[test]
fn edit_distance_values() {
    let c3 = graph_structure_as_digraph(&chain());
    let c2 = graph_structure_as_digraph(&build(&[("a", &[]), ("b", &[0])]));
    assert_eq!(graph_edit_distance(&c3, &c3), 0);
    assert_eq!(graph_edit_distance(&c2, &c3), 2);
    let renamed = graph_structure_as_digraph(&build(&[("a", &[]), ("x", &[0]), ("c", &[1])]));
    assert_eq!(graph_edit_distance(&c3, &renamed), 1);
}

#[test]
fn distance_between_graphs() {
    assert_eq!(get_distance_between(&chain(), &chain()), 0);
    let short = build(&[("a", &[]), ("b", &[0])]);
    assert_eq!(get_distance_between(&short, &chain()), 2);
}

#[test]
fn deep_clone_keeps_structure_with_fresh_uids() {
    let g = chain();
    let h = g.deep_clone();
    assert!(g.graphs_equal(&h));
    assert_ne!(g.uid(NodeId(0)), h.uid(NodeId(0)));
    let d = g.duplicate();
    assert_eq!(g.uid(NodeId(0)), d.uid(NodeId(0)));
}

#[test]
fn graph_from_records_links_by_uid() {
    let records = vec![
        ("u1".to_string(), NodeContent::new("a".to_string()), vec![]),
        ("".to_string(), NodeContent::new("skipped".to_string()), vec![]),
        ("u2".to_string(), NodeContent::new("b".to_string()), vec!["u1".to_string(), "missing".to_string()]),
        ("u1".to_string(), NodeContent::new("c".to_string()), vec![]),
    ];
    let g = graph_from_records(records);
    assert_eq!(g.arena_len(), 2);
    assert_eq!(g.uid(NodeId(0)), "u1");
    assert_eq!(g.content(NodeId(0)).name, "c");
    assert_eq!(g.parents_of(NodeId(1)), &vec![NodeId(0)]);
    assert_eq!(g.nodes(), vec![NodeId(0), NodeId(1)]);
}

#[test]
fn delete_self_looped_node_hands_on_other_parents() {
    let mut g = build(&[("p", &[]), ("a", &[0]), ("b", &[1])]);
    g.connect_nodes(NodeId(1), NodeId(1));
    g.delete_node(NodeId(1), ReconnectType::All);
    assert_eq!(g.parents_of(NodeId(2)), &vec![NodeId(0)]);
    assert_eq!(g.nodes(), vec![NodeId(0), NodeId(2)]);
}

#[test]
fn add_node_adds_ancestors_in_pre_order() {
    let mut g = LinkedGraph::new();
    let a = g.add_detached(NodeContent::new("a".to_string()), &[]);
    let b = g.add_detached(NodeContent::new("b".to_string()), &[a]);
    let c = g.add_detached(NodeContent::new("c".to_string()), &[a]);
    let d = g.add_detached(NodeContent::new("d".to_string()), &[b, c]);
    g.add_node(d);
    assert_eq!(g.nodes(), vec![d, b, a, c]);
    g.add_node(a);
    assert_eq!(g.nodes(), vec![d, b, a, c]);
    assert_eq!(g.root_nodes(), vec![d]);
    assert_eq!(g.node_children(a), vec![b, c]);
    g.sort_nodes();
    assert_eq!(g.nodes(), vec![d, b, a, c]);
}

#[test]
fn deleted_subtree_under_cycle_leaves_graph() {
    let mut g = build(&[("a", &[]), ("b", &[0]), ("c", &[1])]);
    g.connect_nodes(NodeId(1), NodeId(0));
    let edges = g.get_edges();
    g.delete_subtree(NodeId(2));
    assert_eq!(g.length(), 3);
    assert!(g.contains(NodeId(2)));
    assert_eq!(g.get_edges(), edges);
}

#[test]
fn depth_of_graph_with_cycle_is_minus_one() {
    let mut g = build(&[("a", &[]), ("b", &[0]), ("c", &[1])]);
    g.connect_nodes(NodeId(1), NodeId(0));
    assert_eq!(g.depth(), -1);
    assert_eq!(g.rooted_depth(), 0);
    let mut h = build(&[("a", &[]), ("b", &[0])]);
    h.connect_nodes(NodeId(1), NodeId(0));
    assert!(h.root_nodes().is_empty());
    assert_eq!(h.depth(), -1);
}

#[test]
fn rooted_depth_of_chain() {
    assert_eq!(chain().rooted_depth(), 3);
    assert_eq!(LinkedGraph::new().rooted_depth(), 0);
}

#[test]
fn simple_paths_of_diamond_each_once() {
    let g = build(&[("a", &[]), ("b", &[0]), ("c", &[0]), ("d", &[1, 2])]);
    let paths = get_all_simple_paths(&g, NodeId(3), NodeId(0));
    assert_eq!(paths.len(), 2);
    assert!(paths.contains(&vec![(NodeId(3), NodeId(1)), (NodeId(1), NodeId(0))]));
    assert!(paths.contains(&vec![(NodeId(3), NodeId(2)), (NodeId(2), NodeId(0))]));
    assert_ne!(paths[0], paths[1]);
}

#[test]
fn connected_components_share_no_node() {
    let g = build(&[("a", &[]), ("b", &[0]), ("c", &[]), ("d", &[2]), ("e", &[1])]);
    let comps = get_connected_components(&g, None);
    assert_eq!(comps.len(), 2);
    for x in &comps[0] {
        assert!(!comps[1].contains(x));
    }
    assert_eq!(comps[0].len() + comps[1].len(), 5);
}
