use vstd::prelude::*;
use crate::dag::graph_node::root_ids;
use crate::dag::linked_graph::{same_structure, GraphModel, LinkedGraph};
use crate::dag::verification::{default_graph_verifier, passes_default_rules};
use crate::optimisers::advisor::GraphAdvisor;
use crate::optimisers::genetic::operators::base_mutations::{
    apply_mutation,
    mutation_outcome,
    MutationTypesEnum,
};
use crate::optimisers::genetic::params::{FactoryModel, GraphRequirements, OptNodeFactory};
use crate::optimisers::genetic::rng::GeneticRng;
use crate::optimisers::random_graph_factory::{growth_limit, RandomGrowthGraphFactory};

verus! {

/// `o` is a graph that an attempt of [`mutate_graph`] can give from a copy of
/// `g`: the outcome of `t` on it, for some state of the node factory.
pub open spec fn mutation_attempt(t: MutationTypesEnum, g: GraphModel, requirements: GraphRequirements, o: GraphModel) -> bool {
    exists|c: GraphModel, f0: FactoryModel, f1: FactoryModel|
        same_structure(g, c) && #[trigger] mutation_outcome(t, c, f0, f1, requirements, o)
}

/// What [`mutate_graph`] gives, over the models of its graphs: a graph that
/// an attempt gave, that passes the default rules and differs from `g` by
/// its root descriptive ids; or `None`, either after as many attempts as
/// allowed all failed the rules, or when the first attempt that passed gave
/// a graph with the root descriptive ids of `g` (or one too large to compare).
pub open spec fn mutate_graph_result(
    t: MutationTypesEnum,
    g: GraphModel,
    requirements: GraphRequirements,
    attempts: usize,
    r: Option<GraphModel>,
) -> bool {
    match r {
        Some(m) => m.wf() && passes_default_rules(m) && root_ids(m) != root_ids(g) && mutation_attempt(t, g, requirements, m),
        None => {
            ||| exists|fails: Seq<GraphModel>|
                fails.len() == attempts && forall|k: int|
                    0 <= k < fails.len() ==> (#[trigger] fails[k]).wf() && !passes_default_rules(fails[k])
                        && mutation_attempt(t, g, requirements, fails[k])
            ||| exists|m: GraphModel|
                #[trigger] mutation_attempt(t, g, requirements, m) && m.wf() && passes_default_rules(m) && (root_ids(m)
                    == root_ids(g) || m.len() == usize::MAX)
        },
    }
}

/// The model of a mutated graph, when there is one.
pub open spec fn mutated_view(r: Option<LinkedGraph>) -> Option<GraphModel> {
    match r {
        Some(m) => Some(m@),
        None => None,
    }
}

/// With at least one attempt allowed, mutating gives a graph whenever every
/// graph an attempt can give passes the default rules, differs from the
/// input by its root descriptive ids and can be compared; a graph given
/// passes the rules and differs from the input.
pub proof fn law_mutation_gives_graph(
    t: MutationTypesEnum,
    g: GraphModel,
    requirements: GraphRequirements,
    attempts: usize,
    r: Option<GraphModel>,
)
    requires
        mutate_graph_result(t, g, requirements, attempts, r),
        attempts > 0,
        forall|m: GraphModel|
            #[trigger] mutation_attempt(t, g, requirements, m) ==> passes_default_rules(m) && root_ids(m) != root_ids(g)
                && m.len() < usize::MAX,
    ensures
        r matches Some(m) && passes_default_rules(m) && root_ids(m) != root_ids(g),
{
    if r is None {
        if exists|fails: Seq<GraphModel>|
            fails.len() == attempts && forall|k: int|
                0 <= k < fails.len() ==> (#[trigger] fails[k]).wf() && !passes_default_rules(fails[k])
                    && mutation_attempt(t, g, requirements, fails[k]) {
            let fails = choose|fails: Seq<GraphModel>|
                fails.len() == attempts && forall|k: int|
                    0 <= k < fails.len() ==> (#[trigger] fails[k]).wf() && !passes_default_rules(fails[k])
                        && mutation_attempt(t, g, requirements, fails[k]);
            assert(fails[0].wf());
        }
    }
}

/// Mutates a copy of `graph` by `mutation_type`, retrying on a fresh copy up
/// to `max_num_of_operator_attempts` times until the result passes the
/// default rules. Returns the new graph, or `None` when no attempt passed or
/// the result has the same root descriptive ids as `graph`. A returned graph
/// is the outcome of `mutation_type` on a copy of `graph`, for the node
/// factory as it stood before and after that attempt.
pub fn mutate_graph<A: GraphAdvisor>(
    mutation_type: MutationTypesEnum,
    graph: &LinkedGraph,
    requirements: &GraphRequirements,
    factory: &mut OptNodeFactory,
    graph_factory: &mut RandomGrowthGraphFactory,
    advisor: &A,
    max_num_of_operator_attempts: usize,
    strength_num: u32,
    strength_den: u32,
    rng: &mut GeneticRng,
) -> (r: Option<LinkedGraph>)
    requires
        graph@.wf(),
        graph@.len() <= growth_limit(),
        strength_den > 0,
    ensures
        mutate_graph_result(mutation_type, graph@, *requirements, max_num_of_operator_attempts, mutated_view(r)),
        final(factory)@.available == old(factory)@.available,
        r is Some ==> r->0@.wf() && passes_default_rules(r->0@) && root_ids(r->0@) != root_ids(graph@),
        r is Some ==> exists|c: GraphModel, f0: FactoryModel, f1: FactoryModel|
            same_structure(graph@, c) && #[trigger] mutation_outcome(mutation_type, c, f0, f1, *requirements, r->0@),
{
    let mut found: Option<LinkedGraph> = None;
    let ghost mut wc: GraphModel = graph@;
    let ghost mut wf0: FactoryModel = factory@;
    let ghost mut wf1: FactoryModel = factory@;
    let mut attempt: usize = 0;
    let ghost mut fails: Seq<GraphModel> = Seq::empty();
    while attempt < max_num_of_operator_attempts
        invariant
            found is None ==> fails.len() == attempt,
            attempt <= max_num_of_operator_attempts,
            forall|k: int|
                0 <= k < fails.len() ==> (#[trigger] fails[k]).wf() && !passes_default_rules(fails[k])
                    && mutation_attempt(mutation_type, graph@, *requirements, fails[k]),
            graph@.wf(),
            graph@.len() <= growth_limit(),
            strength_den > 0,
            factory@.available == old(factory)@.available,
            found is Some ==> found->0@.wf() && passes_default_rules(found->0@),
            found is Some ==> same_structure(graph@, wc)
                && mutation_outcome(mutation_type, wc, wf0, wf1, *requirements, found->0@),
        ensures
            found is None ==> fails.len() == max_num_of_operator_attempts,
        decreases max_num_of_operator_attempts - attempt,
    {
        let copy = graph.deep_clone();
        let ghost copy_model = copy@;
        let ghost before = factory@;
        let new_graph = apply_mutation(
            mutation_type,
            copy,
            requirements,
            factory,
            graph_factory,
            advisor,
            max_num_of_operator_attempts,
            strength_num,
            strength_den,
            rng,
        );
        if default_graph_verifier(&new_graph) {
            proof {
                wc = copy_model;
                wf0 = before;
                wf1 = factory@;
            }
            found = Some(new_graph);
            break;
        }
        proof {
            assert(mutation_attempt(mutation_type, graph@, *requirements, new_graph@));
            let f0 = fails;
            fails = fails.push(new_graph@);
            assert forall|k: int| 0 <= k < fails.len() implies (#[trigger] fails[k]).wf() && !passes_default_rules(fails[k])
                && mutation_attempt(mutation_type, graph@, *requirements, fails[k]) by {
                if k < f0.len() {
                    assert(fails[k] == f0[k]);
                }
            }
        }
        attempt = attempt + 1;
    }
    match found {
        Some(g) => {
            proof {
                assert(mutation_outcome(mutation_type, wc, wf0, wf1, *requirements, g@));
                assert(mutation_attempt(mutation_type, graph@, *requirements, g@));
            }
            if g.arena_len() == usize::MAX || g.graphs_equal(graph) {
                None
            } else {
                Some(g)
            }
        },
        None => None,
    }
}

} // verus!
