use irongolem::dag::linked_graph::LinkedGraph;
use irongolem::dag::node::{NodeContent, NodeId};
use irongolem::dag::verification::default_graph_verifier;
use irongolem::optimisers::advisor::DefaultAdvisor;
use irongolem::optimisers::genetic::gp_operators::{
    are_subtrees_the_same, equivalent_subtree, node_is_primary, num_of_parents_in_crossover,
    structural_equivalent_nodes,
};
use irongolem::optimisers::genetic::operators::base_mutations::{
    apply_mutation, no_mutation, simple_mutation, single_drop_mutation, single_edge_mutation, MutationTypesEnum,
};
use irongolem::optimisers::genetic::operators::crossover::{
    apply_crossover, crossover_graphs, exchange_edges_crossover, exchange_parents_both_crossover,
    exchange_parents_one_crossover, one_point_crossover, replace_subtrees, subtree_crossover,
    CrossoverTypesEnum,
};
use irongolem::optimisers::genetic::operators::mutation::mutate_graph;
use irongolem::optimisers::genetic::operators::subgraph::{connect_subgraphs, get_subgraphs, subgraph_crossover};
use irongolem::optimisers::genetic::params::{GraphRequirements, OptNodeFactory};
use irongolem::optimisers::genetic::rng::GeneticRng;
use irongolem::optimisers::random_graph_factory::RandomGrowthGraphFactory;

fn build(spec: &[(&str, &[usize])]) -> LinkedGraph {
    let mut g = LinkedGraph::new();
    for (name, parents) in spec {
        let ps: Vec<NodeId> = parents.iter().map(|p| NodeId(*p)).collect();
        g.add_detached(NodeContent::new(name.to_string()), &ps);
    }
    for i in 0..spec.len() {
        g.add_node(NodeId(i));
    }
    g
}

fn tree() -> LinkedGraph {
    build(&[("a", &[]), ("b", &[]), ("c", &[0, 1])])
}

fn factory() -> OptNodeFactory {
    OptNodeFactory::new(vec!["a".to_string(), "b".to_string(), "c".to_string()])
}

#[test]
fn parents_for_crossover_are_even() {
    assert_eq!(num_of_parents_in_crossover(3), 4);
    assert_eq!(num_of_parents_in_crossover(4), 4);
    assert_eq!(num_of_parents_in_crossover(0), 0);
}

#[test]
fn primary_nodes() {
    let g = tree();
    assert!(node_is_primary(&g, NodeId(2)));
    assert!(!node_is_primary(&g, NodeId(0)));
    let mut h = LinkedGraph::new();
    h.add_detached(
        NodeContent::with_params("a".to_string(), vec![("\"is_primary\"".to_string(), "Bool(true)".to_string())]),
        &[],
    );
    h.add_detached(NodeContent::new("b".to_string()), &[NodeId(0)]);
    h.add_node(NodeId(1));
    assert!(node_is_primary(&h, NodeId(0)));
}

#[test]
fn equivalent_subtrees_of_equal_trees() {
    let g1 = tree();
    let g2 = tree();
    let pairs = equivalent_subtree(&g1, &g2, true);
    assert!(pairs.contains(&(NodeId(2), NodeId(2))));
    let without_primary = equivalent_subtree(&g1, &g2, false);
    for (x, _) in &without_primary {
        assert!(!g1.parents_of(*x).is_empty());
    }
    assert_eq!(without_primary, vec![(NodeId(2), NodeId(2))]);
}

#[test]
fn structural_search_marks_seen() {
    let g1 = tree();
    let g2 = tree();
    let mut s1 = Vec::new();
    let mut s2 = Vec::new();
    let found = structural_equivalent_nodes(&g1, &g2, NodeId(2), NodeId(2), &mut s1, &mut s2);
    assert!(found.contains(&(NodeId(2), NodeId(2))));
    assert!(s1.contains(&NodeId(2)));
    let again = structural_equivalent_nodes(&g1, &g2, NodeId(2), NodeId(2), &mut s1, &mut s2);
    assert!(again.is_empty());
}

#[test]
fn subtrees_same_needs_matches() {
    let g1 = tree();
    let g2 = tree();
    assert!(!are_subtrees_the_same(&g1, &g2, &vec![], NodeId(2), NodeId(2)));
    assert!(are_subtrees_the_same(&g1, &g2, &vec![], NodeId(0), NodeId(1)));
    let m = vec![(NodeId(0), NodeId(0)), (NodeId(1), NodeId(1))];
    assert!(are_subtrees_the_same(&g1, &g2, &m, NodeId(2), NodeId(2)));
}

#[test]
fn replace_subtrees_within_depth() {
    let mut g1 = build(&[("a", &[]), ("b", &[0])]);
    let mut g2 = build(&[("x", &[]), ("y", &[]), ("z", &[0, 1])]);
    replace_subtrees(&mut g1, &mut g2, NodeId(0), NodeId(2), 1, 0, 10);
    assert_eq!(g1.descriptive_id(), "((/n_x;;/n_y;)/n_z;)/n_b");
    assert_eq!(g2.descriptive_id(), "/n_a");
}

#[test]
fn replace_subtrees_over_depth_keeps_graphs() {
    let mut g1 = build(&[("a", &[]), ("b", &[0])]);
    let mut g2 = build(&[("x", &[]), ("y", &[]), ("z", &[0, 1])]);
    replace_subtrees(&mut g1, &mut g2, NodeId(0), NodeId(2), 1, 0, 1);
    assert_eq!(g1.descriptive_id(), "(/n_a;)/n_b");
}

#[test]
fn crossovers_keep_graphs_well_formed() {
    for seed in 0..20u64 {
        let mut rng = GeneticRng::seeded(seed);
        let mut a = tree();
        let mut b = build(&[("x", &[]), ("y", &[0]), ("z", &[1])]);
        subtree_crossover(&mut a, &mut b, 10, &mut rng);
        one_point_crossover(&mut a, &mut b, 10, &mut rng);
        exchange_edges_crossover(&mut a, &mut b, &mut rng);
        exchange_parents_one_crossover(&mut a, &mut b, &mut rng);
        exchange_parents_both_crossover(&mut a, &mut b, &mut rng);
        subgraph_crossover(&mut a, &mut b, &mut rng);
        assert!(a.arena_len() > 0 && b.arena_len() > 0);
    }
}

#[test]
fn no_crossover_leaves_graphs() {
    let mut rng = GeneticRng::seeded(1);
    let mut a = tree();
    let mut b = build(&[("x", &[]), ("y", &[0])]);
    apply_crossover(CrossoverTypesEnum::NoCrossover, &mut a, &mut b, 5, &mut rng);
    assert_eq!(a.descriptive_id(), tree().descriptive_id());
    assert!(crossover_graphs(CrossoverTypesEnum::NoCrossover, &a, &b, 5, 3, &mut rng).is_none());
    assert!(crossover_graphs(CrossoverTypesEnum::Subtree, &a, &tree(), 5, 3, &mut rng).is_none());
}

#[test]
fn crossover_offspring_pass_rules() {
    let mut rng = GeneticRng::seeded(7);
    let a = tree();
    let b = build(&[("x", &[]), ("y", &[0]), ("z", &[1])]);
    if let Some((c, d)) = crossover_graphs(CrossoverTypesEnum::Subtree, &a, &b, 10, 5, &mut rng) {
        assert!(default_graph_verifier(&c));
        assert!(default_graph_verifier(&d));
    }
}

#[test]
fn subgraphs_of_edgeless_graph() {
    let mut rng = GeneticRng::seeded(3);
    let mut g = build(&[("a", &[])]);
    let (subs, div) = get_subgraphs(&mut g, &mut rng);
    assert_eq!(subs, vec![vec![NodeId(0)], vec![NodeId(0)]]);
    assert_eq!(div, vec![NodeId(0)]);
}

#[test]
fn subgraphs_split_chain() {
    let mut rng = GeneticRng::seeded(5);
    let mut g = build(&[("a", &[]), ("b", &[0]), ("c", &[1])]);
    let (subs, div) = get_subgraphs(&mut g, &mut rng);
    assert_eq!(subs.len(), 2);
    assert_eq!(subs[0].len() + subs[1].len(), 3);
    assert_eq!(g.get_edges().len(), 1);
    assert_eq!(div.len(), 2);
}

#[test]
fn connect_two_parts() {
    let mut rng = GeneticRng::seeded(9);
    let g1 = build(&[("a", &[]), ("b", &[])]);
    let g2 = build(&[("x", &[])]);
    let joined = connect_subgraphs(&g1, &vec![NodeId(0)], &vec![NodeId(0)], &g2, &vec![NodeId(0)], &vec![NodeId(0)], &mut rng);
    assert_eq!(joined.length(), 2);
    assert_eq!(joined.get_edges().len(), 1);
    assert_eq!(joined.arena_len(), 3);
}

#[test]
fn mutations_keep_factory_names() {
    let mut rng = GeneticRng::seeded(11);
    let mut f = factory();
    let mut gf = RandomGrowthGraphFactory::new(GeneticRng::seeded(12));
    let req = GraphRequirements::default();
    let g = tree();
    for t in MutationTypesEnum::rich_mutation_set() {
        let out = apply_mutation(t, g.duplicate(), &req, &mut f, &mut gf, &DefaultAdvisor, 5, 1, 1, &mut rng);
        assert!(out.arena_len() >= 1);
    }
    assert_eq!(f.get_all_available_operations().len(), 3);
    let same = no_mutation(tree());
    assert_eq!(same.descriptive_id(), tree().descriptive_id());
    if let Some(m) = mutate_graph(MutationTypesEnum::SingleChange, &g, &req, &mut f, &mut gf, &DefaultAdvisor, 5, 1, 1, &mut rng) {
        assert!(default_graph_verifier(&m));
        assert!(!m.graphs_equal(&g));
    }
}

#[test]
fn single_edge_joins_two_free_nodes() {
    let mut rng = GeneticRng::seeded(3);
    let g = build(&[("a", &[]), ("b", &[])]);
    let req = GraphRequirements::default();
    let out = single_edge_mutation(g, &req, 1, &mut rng);
    assert_eq!(out.get_edges().len(), 1);
}

#[test]
fn single_drop_with_default_advisor_removes_a_node() {
    let mut rng = GeneticRng::seeded(4);
    let out = single_drop_mutation(tree(), &DefaultAdvisor, 1, &mut rng);
    assert!(out.length() < 3);
    let single = build(&[("a", &[])]);
    let same = single_drop_mutation(single, &DefaultAdvisor, 3, &mut rng);
    assert_eq!(same.length(), 1);
}

#[test]
fn subtree_crossover_changes_deep_graphs() {
    let mut rng = GeneticRng::seeded(5);
    let mut a = build(&[("a", &[])]);
    let mut b = build(&[("x", &[]), ("y", &[0])]);
    let before_a = a.descriptive_id();
    let before_b = b.descriptive_id();
    subtree_crossover(&mut a, &mut b, 10, &mut rng);
    assert!(a.descriptive_id() != before_a || b.descriptive_id() != before_b);
}

#[test]
fn generated_graph_grows_below_root() {
    let mut gf = RandomGrowthGraphFactory::new(GeneticRng::seeded(6));
    let mut f = factory();
    let req = GraphRequirements::default();
    let g = gf.generate(&mut f, &req, None);
    assert!(g.length() >= 1);
}

#[test]
fn simple_mutation_replaces_root_when_certain() {
    let mut rng = GeneticRng::seeded(7);
    let mut f = factory();
    let out = simple_mutation(tree(), &mut f, 2, 1, &mut rng);
    let roots = out.root_nodes();
    assert_eq!(roots.len(), 1);
    assert_ne!(out.name(roots[0]), "c");
}

#[test]
fn subgraph_division_lists_every_cut_end() {
    for seed in 0..12u64 {
        let mut rng = GeneticRng::seeded(seed);
        let mut g = build(&[("a", &[]), ("b", &[0]), ("c", &[0]), ("d", &[1, 2])]);
        let before: Vec<Vec<NodeId>> = (0..4).map(|i| g.parents_of(NodeId(i)).clone()).collect();
        let (_subs, div) = get_subgraphs(&mut g, &mut rng);
        for i in 0..4usize {
            for p in &before[i] {
                if !g.parents_of(NodeId(i)).contains(p) {
                    assert!(div.contains(&NodeId(i)));
                    assert!(div.contains(p));
                }
            }
        }
        for (k, x) in div.iter().enumerate() {
            assert!(!div[k + 1..].contains(x));
        }
    }
}

#[test]
fn parent_exchange_creates_only_missing_names() {
    for seed in 0..8u64 {
        let mut rng = GeneticRng::seeded(seed);
        let mut first = build(&[("b", &[])]);
        let mut second = build(&[("a", &[]), ("b", &[0])]);
        exchange_parents_both_crossover(&mut first, &mut second, &mut rng);
        let named_b = (0..first.arena_len()).filter(|i| first.name(NodeId(*i)) == "b").count();
        assert_eq!(named_b, 1);
        assert_eq!(first.arena_len(), 2);
        assert_eq!(second.arena_len(), 2);
    }
}

#[test]
fn equivalent_pairs_join_active_nodes() {
    let g1 = tree();
    let g2 = build(&[("a", &[]), ("b", &[]), ("c", &[0, 1]), ("d", &[2])]);
    let pairs = equivalent_subtree(&g1, &g2, true);
    assert!(!pairs.is_empty());
    for (x, y) in &pairs {
        assert!(g1.contains(*x));
        assert!(g2.contains(*y));
    }
}
