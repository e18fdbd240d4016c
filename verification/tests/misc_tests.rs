use irongolem::adapter::{adapt_native_fn, register_native, AdaptRegistry, DirectAdapter};
use irongolem::api::GolemConfigError;
use irongolem::dag::linked_graph::LinkedGraph;
use irongolem::dag::node::{CycleError, NodeContent, NodeId, ReconnectType};
use irongolem::dag::verification::default_graph_verifier;
use irongolem::logging::{LogConfig, LogError, LogLevel};
use irongolem::optimisers::genetic::operators::reproduction::EvaluationAttemptsError;
use irongolem::optimisers::genetic::operators::base_mutations::MutationTypesEnum;
use irongolem::optimisers::genetic::parameters::parameter::ConstParameter;
use irongolem::optimisers::genetic::parameters::sequence_iterator::{fibonacci_sequence, SequenceIterator};
use irongolem::optimisers::genetic::params::{GraphRequirements, OptNodeFactory};
use irongolem::optimisers::genetic::rng::{self, GeneticRng};
use irongolem::optimisers::genetic::structure::{extension_picks, unique_structure_indices};
use irongolem::optimisers::initial_population_generator::InitialPopulationGenerator;
use irongolem::optimisers::random_graph_factory::RandomGrowthGraphFactory;
use irongolem::utilities::{decimal_text, determine_n_jobs};

fn build(spec: &[(&str, &[usize])]) -> LinkedGraph {
    let mut g = LinkedGraph::new();
    for (name, parents) in spec {
        let ps: Vec<NodeId> = parents.iter().map(|p| NodeId(*p)).collect();
        g.add_detached(NodeContent::new(name.to_string()), &ps);
    }
    for i in 0..spec.len() {
        g.add_node(NodeId(i));
    }
    g
}

fn fib(n: usize) -> usize {
    fibonacci_sequence(n)
}

#[test]
fn fibonacci_values() {
    assert_eq!(fibonacci_sequence(0), 0);
    assert_eq!(fibonacci_sequence(1), 1);
    assert_eq!(fibonacci_sequence(2), 1);
    assert_eq!(fibonacci_sequence(10), 55);
}

#[test]
fn sequence_iterator_walks_fibonacci() {
    let mut it = SequenceIterator::new(fib, Some(5), Some(8), None);
    assert_eq!(it.next_value(), 5);
    assert_eq!(it.current(), 5);
    assert!(it.has_next());
    assert_eq!(it.next_value(), 8);
    assert!(!it.has_next());
    assert_eq!(it.prev_value(), Some(5));
    assert!(it.has_prev());
}

#[test]
fn sequence_iterator_from_start() {
    let mut it = SequenceIterator::new(fib, None, None, None);
    assert!(!it.has_prev());
    assert_eq!(it.next_value(), 0);
    assert_eq!(it.prev_value(), None);
}

#[test]
fn sequence_iterator_with_minimum() {
    let mut it = SequenceIterator::new(fib, None, None, Some(3));
    assert_eq!(it.next_value(), 3);
    assert_eq!(it.next_value(), 5);
}

#[test]
fn const_parameter_keeps_value() {
    let p = ConstParameter::new(7usize);
    assert_eq!(p.initial(), 7);
    assert_eq!(p.next(&vec![1, 2, 3]), 7);
}

#[test]
fn mutation_sets() {
    let simple = MutationTypesEnum::simple_mutation_set();
    let rich = MutationTypesEnum::rich_mutation_set();
    assert_eq!(
        simple,
        vec![
            MutationTypesEnum::TreeGrowth,
            MutationTypesEnum::SingleAdd,
            MutationTypesEnum::SingleChange,
            MutationTypesEnum::SingleDrop,
            MutationTypesEnum::SingleEdge,
        ]
    );
    assert_eq!(
        rich,
        vec![MutationTypesEnum::Simple, MutationTypesEnum::Reduce, MutationTypesEnum::Growth, MutationTypesEnum::LocalGrowth]
    );
}

#[test]
fn node_factory_cycles_names() {
    let mut f = OptNodeFactory::new(vec!["a".to_string(), "b".to_string()]);
    assert_eq!(f.get_node(true).unwrap().name, "a");
    assert_eq!(f.get_node(true).unwrap().name, "b");
    assert_eq!(f.get_node(false).unwrap().name, "a");
    let g = build(&[("a", &[])]);
    assert_eq!(f.exchange_node(&g, NodeId(0)).unwrap().name, "b");
    let mut empty = OptNodeFactory::new(vec![]);
    assert!(empty.get_node(true).is_none());
    let mut single = OptNodeFactory::new(vec!["a".to_string()]);
    assert!(single.exchange_node(&g, NodeId(0)).is_none());
}

#[test]
fn registry_tracks_natives() {
    let mut reg = AdaptRegistry::new(vec![10, 20]);
    assert!(reg.is_native(10));
    assert!(!reg.is_native(30));
    reg.register_native(30);
    assert!(reg.is_native(30));
    reg.unregister_native(30);
    assert!(!reg.is_native(30));
    assert_eq!(register_native(&mut reg, 40), 40);
    assert!(reg.is_native(40));
    let f = adapt_native_fn(&mut reg, 3u8);
    assert_eq!(f, 3);
}

#[test]
fn direct_adapter_is_identity() {
    let a = DirectAdapter;
    let g = build(&[("a", &[]), ("b", &[0])]);
    let id = g.descriptive_id();
    assert_eq!(a.restore(a.adapt(g)).descriptive_id(), id);
}

#[test]
fn error_texts() {
    assert_eq!(GolemConfigError::new("bad".to_string()).message, "bad");
    assert_eq!(EvaluationAttemptsError::new(String::new()).text(), "Too many fitness evaluation errors.");
    assert_eq!(EvaluationAttemptsError::new("x".to_string()).text(), "x");
    assert_eq!(LogError::AlreadyInitialized.text(), "a global logger is already installed");
    let io = LogError::Io(std::io::Error::new(std::io::ErrorKind::Other, "boom"));
    assert_eq!(io.text(), "failed to set up log file: boom");
    assert_eq!(CycleError.message(), "Can not build ordered node hierarchy: graph has cycle");
}

#[test]
fn log_config_values() {
    let d = LogConfig::default();
    assert_eq!(d.level, LogLevel::Info);
    assert_eq!(d.directory, "logs");
    assert_eq!(d.file_name, "irongolem.log");
    let c = LogConfig::new(LogLevel::Debug, "out".to_string());
    assert_eq!(c.level, LogLevel::Debug);
    assert_eq!(c.file_name, "irongolem.log");
}

#[test]
fn defaults() {
    let r = GraphRequirements::default();
    assert_eq!(r.max_depth, 5);
    assert_eq!(r.min_arity, 1);
    assert_eq!(r.max_arity, 4);
    assert_eq!(ReconnectType::default(), ReconnectType::Single);
}

#[test]
fn seeded_rng_is_reproducible() {
    let mut a = GeneticRng::seeded(42);
    let mut b = GeneticRng::seeded(42);
    for _ in 0..10 {
        assert_eq!(a.gen_range(0, 100), b.gen_range(0, 100));
    }
}

#[test]
fn rng_helpers() {
    let mut r = GeneticRng::seeded(1);
    assert_eq!(r.random_index(0), 0);
    assert!(r.random_index(5) < 5);
    assert!(r.random_choice::<u8>(&[]).is_none());
    let s = r.sample(&[1, 2, 3, 4], 2);
    assert_eq!(s.len(), 2);
    assert_ne!(s[0], s[1]);
    let mut v = vec![1, 2, 3, 4, 5];
    r.shuffle(&mut v);
    let mut w = v.clone();
    w.sort();
    assert_eq!(w, vec![1, 2, 3, 4, 5]);
    assert!(!r.gen_ratio(0, 3));
    assert!(r.gen_ratio(3, 3));
    assert_eq!(rng::sample(&[1, 2], 5).len(), 2);
    assert!(rng::random_index(3) < 3);
}

#[test]
fn n_jobs_rules() {
    assert_eq!(determine_n_jobs(2, 4), Ok(2));
    assert_eq!(determine_n_jobs(8, 4), Ok(4));
    assert_eq!(determine_n_jobs(-1, 4), Ok(4));
    assert_eq!(determine_n_jobs(-4, 4), Ok(1));
    assert_eq!(determine_n_jobs(0, 4), Err("Unproper `n_jobs` = 0".to_string()));
    assert_eq!(determine_n_jobs(-5, 4), Err("Unproper `n_jobs` = -5".to_string()));
}

#[test]
fn decimal_texts() {
    assert_eq!(decimal_text(0), "0");
    assert_eq!(decimal_text(1234), "1234");
    assert_eq!(decimal_text(-2147483648), "-2147483648");
}

#[test]
fn unique_structures_keep_first() {
    let graphs = vec![build(&[("a", &[])]), build(&[("b", &[])]), build(&[("a", &[])])];
    assert_eq!(unique_structure_indices(&graphs), vec![0, 1]);
}

#[test]
fn extension_fills_population() {
    let mut r = GeneticRng::seeded(3);
    let picks = extension_picks(2, 5, &mut r);
    assert_eq!(picks.len(), 3);
    for (k, p) in picks.iter().enumerate() {
        assert!(*p < 2 + k);
    }
    assert!(extension_picks(0, 5, &mut r).is_empty());
    assert!(extension_picks(6, 5, &mut r).is_empty());
}

#[test]
fn initial_population_from_graphs() {
    let gen = InitialPopulationGenerator::new(2, GraphRequirements::default())
        .with_initial_graphs(vec![build(&[("a", &[])]), build(&[("b", &[])]), build(&[("c", &[])])]);
    let mut f = OptNodeFactory::new(vec!["a".to_string()]);
    let mut gf = RandomGrowthGraphFactory::new(GeneticRng::seeded(1));
    let pop = gen.generate(&mut f, &mut gf, &default_graph_verifier);
    assert_eq!(pop.len(), 2);
    assert_eq!(pop[1].descriptive_id(), "/n_b");
}

#[test]
fn initial_population_generated() {
    let gen = InitialPopulationGenerator::new(3, GraphRequirements::default());
    let mut f = OptNodeFactory::new(vec!["a".to_string(), "b".to_string(), "c".to_string()]);
    let mut gf = RandomGrowthGraphFactory::new(GeneticRng::seeded(2));
    let pop = gen.call(&mut f, &mut gf, &default_graph_verifier);
    assert!(pop.len() <= 3);
    for (i, g) in pop.iter().enumerate() {
        assert!(default_graph_verifier(g));
        for h in &pop[i + 1..] {
            assert!(!g.graphs_equal(h));
        }
    }
}

#[test]
fn random_factory_respects_depth() {
    let mut f = OptNodeFactory::new(vec!["a".to_string(), "b".to_string()]);
    let mut gf = RandomGrowthGraphFactory::new(GeneticRng::seeded(4));
    let g = gf.generate(&mut f, &GraphRequirements::default(), Some(3));
    assert!(g.depth() <= 3 || g.length() == 1);
}

fn pair_graph() -> LinkedGraph {
    let mut g = LinkedGraph::new();
    let a = g.add_detached(NodeContent::new("a".to_string()), &[]);
    let b = g.add_detached(NodeContent::new("b".to_string()), &[a]);
    g.add_node(b);
    g
}

#[test]
fn accept_generated_keeps_new_valid_graphs_once() {
    let gen = InitialPopulationGenerator::new(3, GraphRequirements::default());
    let mut population: Vec<LinkedGraph> = Vec::new();
    assert!(default_graph_verifier(&pair_graph()));
    assert!(gen.accept_generated(&mut population, pair_graph(), &default_graph_verifier));
    assert!(!gen.accept_generated(&mut population, pair_graph(), &default_graph_verifier));
    assert_eq!(population.len(), 1);
    assert!(pair_graph().check_wf());
}

#[test]
fn accept_generated_asks_the_configured_verifier() {
    let gen = InitialPopulationGenerator::new(3, GraphRequirements::default());
    let mut population: Vec<LinkedGraph> = Vec::new();
    let refuse_all = |_g: &LinkedGraph| false;
    assert!(!gen.accept_generated(&mut population, pair_graph(), &refuse_all));
    assert!(population.is_empty());
    let single_only = |g: &LinkedGraph| g.length() == 1;
    assert!(!gen.accept_generated(&mut population, pair_graph(), &single_only));
    assert!(gen.accept_generated(&mut population, build(&[("a", &[])]), &single_only));
    assert_eq!(population.len(), 1);
}

#[test]
fn generated_population_with_refusing_verifier_is_empty() {
    let gen = InitialPopulationGenerator::new(3, GraphRequirements::default());
    let mut f = OptNodeFactory::new(vec!["a".to_string(), "b".to_string()]);
    let mut gf = RandomGrowthGraphFactory::new(GeneticRng::seeded(5));
    let refuse_all = |_g: &LinkedGraph| false;
    let pop = gen.generate(&mut f, &mut gf, &refuse_all);
    assert!(pop.is_empty());
}
