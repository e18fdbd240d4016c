use vstd::prelude::*;
use crate::dag::graph_node::root_ids;
use crate::dag::linked_graph::LinkedGraph;
use crate::optimisers::genetic::constants::MAX_GRAPH_GEN_ATTEMPTS;
use crate::optimisers::genetic::params::{GraphRequirements, OptNodeFactory};
use crate::optimisers::random_graph_factory::{growth_limit, growth_limit_exec, RandomGrowthGraphFactory};

verus! {

/// The graphs `gs` are well formed, within the growth limit, have pairwise
/// different root descriptive ids, and `verifier` accepted each.
pub open spec fn distinct_valid<V: Fn(&LinkedGraph) -> bool>(gs: Seq<LinkedGraph>, verifier: V) -> bool {
    &&& forall|k: int| 0 <= k < gs.len() ==> (#[trigger] gs[k])@.wf() && gs[k]@.len() <= growth_limit()
    &&& forall|k: int| 0 <= k < gs.len() ==> verifier.ensures((&gs[k],), true)
    &&& forall|a: int, b: int| 0 <= a < b < gs.len() ==> root_ids((#[trigger] gs[a])@) != root_ids((#[trigger] gs[b])@)
}

/// Builds the first population of an optimisation: the initial graphs when
/// some were given, else random graphs from a factory.
pub struct InitialPopulationGenerator {
    pub pop_size: usize,
    pub requirements: GraphRequirements,
    /// Graphs handed out in place of random ones, when given.
    pub initial_graphs: Option<Vec<LinkedGraph>>,
}

impl InitialPopulationGenerator {
    /// A generator of `population_size` graphs under `requirements`.
    pub fn new(population_size: usize, requirements: GraphRequirements) -> (r: Self)
        ensures
            r.pop_size == population_size,
            r.requirements == requirements,
            r.initial_graphs is None,
    {
        InitialPopulationGenerator { pop_size: population_size, requirements, initial_graphs: None }
    }

    /// This generator, handing out `initial_graphs` in place of random ones.
    pub fn with_initial_graphs(self, initial_graphs: Vec<LinkedGraph>) -> (r: Self)
        ensures
            r.pop_size == self.pop_size,
            r.requirements == self.requirements,
            r.initial_graphs matches Some(gs) && gs@ == initial_graphs@,
    {
        InitialPopulationGenerator { initial_graphs: Some(initial_graphs), ..self }
    }

    /// Keeps the generated graph `g` in `population` when it is well formed,
    /// no larger than the growth limit, no kept graph has the same root
    /// descriptive ids and `verifier` accepts it (asked only in that case);
    /// says whether it was kept.
    pub fn accept_generated<V: Fn(&LinkedGraph) -> bool>(
        &self,
        population: &mut Vec<LinkedGraph>,
        g: LinkedGraph,
        verifier: &V,
    ) -> (r: bool)
        requires
            distinct_valid(old(population)@, *verifier),
            forall|x: &LinkedGraph| #[trigger] verifier.requires((x,)),
        ensures
            distinct_valid(final(population)@, *verifier),
            r ==> g@.wf() && g@.len() <= growth_limit() && verifier.ensures((&g,), true) && final(population)@
                == old(population)@.push(g),
            !r ==> final(population)@ == old(population)@,
            !r && g@.wf() && g@.len() <= growth_limit() && (forall|t: int|
                0 <= t < old(population)@.len() ==> root_ids((#[trigger] old(population)@[t])@) != root_ids(g@))
                ==> verifier.ensures((&g,), false),
            r ==> forall|t: int|
                0 <= t < old(population)@.len() ==> root_ids((#[trigger] old(population)@[t])@) != root_ids(g@),
    {
        if !g.check_wf() || g.arena_len() > growth_limit_exec() {
            return false;
        }
        let mut seen = false;
        let mut i: usize = 0;
        while i < population.len()
            invariant
                distinct_valid(population@, *verifier),
                g@.wf(),
                g@.len() <= growth_limit(),
                i <= population@.len(),
                !seen ==> forall|t: int| 0 <= t < i ==> root_ids((#[trigger] population@[t])@) != root_ids(g@),
                seen ==> exists|t: int| 0 <= t < population@.len() && root_ids((#[trigger] population@[t])@) == root_ids(g@),
            decreases population@.len() - i,
        {
            if population[i].graphs_equal(&g) {
                seen = true;
            }
            i = i + 1;
        }
        if seen {
            return false;
        }
        let accepted = verifier(&g);
        if accepted {
            let ghost p0 = population@;
            population.push(g);
            proof {
                assert forall|a: int, b: int| 0 <= a < b < population@.len() implies root_ids(
                    (#[trigger] population@[a])@,
                ) != root_ids((#[trigger] population@[b])@) by {
                    if b == p0.len() {
                        assert(population@[a] == p0[a]);
                    } else {
                        assert(population@[a] == p0[a] && population@[b] == p0[b]);
                    }
                }
                assert forall|k: int| 0 <= k < population@.len() implies (#[trigger] population@[k])@.wf()
                    && population@[k]@.len() <= growth_limit() by {
                    if k < p0.len() {
                        assert(population@[k] == p0[k]);
                    }
                }
                assert forall|k: int| 0 <= k < population@.len() implies verifier.ensures((&population@[k],), true) by {
                    if k < p0.len() {
                        assert(population@[k] == p0[k]);
                    }
                }
            }
            true
        } else {
            false
        }
    }

    /// The first population. With initial graphs, the first `pop_size` of
    /// them. Otherwise up to `pop_size` graphs from `graph_factory`, drawn at
    /// most `MAX_GRAPH_GEN_ATTEMPTS` times (so no more graphs than that),
    /// each kept as [`Self::accept_generated`] says, with `verifier` the
    /// check that the generation parameters configure.
    pub fn generate<V: Fn(&LinkedGraph) -> bool>(
        &self,
        factory: &mut OptNodeFactory,
        graph_factory: &mut RandomGrowthGraphFactory,
        verifier: &V,
    ) -> (r: Vec<LinkedGraph>)
        requires
            forall|x: &LinkedGraph| #[trigger] verifier.requires((x,)),
        ensures
            self.initial_graphs matches Some(gs) ==> r@.len() == (if gs@.len() < self.pop_size {
                gs@.len() as int
            } else {
                self.pop_size as int
            }) && forall|k: int| 0 <= k < r@.len() ==> (#[trigger] r@[k])@ == gs@[k]@,
            self.initial_graphs is None ==> r@.len() <= self.pop_size && distinct_valid(r@, *verifier),
            self.initial_graphs is None ==> r@.len() <= MAX_GRAPH_GEN_ATTEMPTS,
            final(factory)@.available == old(factory)@.available,
    {
        match &self.initial_graphs {
            Some(gs) => {
                let mut r: Vec<LinkedGraph> = Vec::new();
                let mut k: usize = 0;
                while k < gs.len() && k < self.pop_size
                    invariant
                        k <= gs@.len(),
                        k <= self.pop_size,
                        r@.len() == k,
                        forall|t: int| 0 <= t < k ==> (#[trigger] r@[t])@ == gs@[t]@,
                    decreases gs@.len() - k,
                {
                    r.push(gs[k].duplicate());
                    k = k + 1;
                }
                r
            },
            None => {
                let mut population: Vec<LinkedGraph> = Vec::new();
                let mut attempt: usize = 0;
                while attempt < MAX_GRAPH_GEN_ATTEMPTS && population.len() != self.pop_size
                    invariant
                        population@.len() <= self.pop_size,
                        population@.len() <= attempt,
                        attempt <= MAX_GRAPH_GEN_ATTEMPTS,
                        distinct_valid(population@, *verifier),
                        forall|x: &LinkedGraph| #[trigger] verifier.requires((x,)),
                        factory@.available == old(factory)@.available,
                    decreases MAX_GRAPH_GEN_ATTEMPTS - attempt,
                {
                    let g = graph_factory.generate(factory, &self.requirements, None);
                    self.accept_generated(&mut population, g, verifier);
                    attempt = attempt + 1;
                }
                population
            },
        }
    }

    /// The first population: see [`Self::generate`].
    pub fn call<V: Fn(&LinkedGraph) -> bool>(
        &self,
        factory: &mut OptNodeFactory,
        graph_factory: &mut RandomGrowthGraphFactory,
        verifier: &V,
    ) -> (r: Vec<LinkedGraph>)
        requires
            forall|x: &LinkedGraph| #[trigger] verifier.requires((x,)),
        ensures
            self.initial_graphs matches Some(gs) ==> r@.len() == (if gs@.len() < self.pop_size {
                gs@.len() as int
            } else {
                self.pop_size as int
            }) && forall|k: int| 0 <= k < r@.len() ==> (#[trigger] r@[k])@ == gs@[k]@,
            self.initial_graphs is None ==> r@.len() <= self.pop_size && distinct_valid(r@, *verifier),
            self.initial_graphs is None ==> r@.len() <= MAX_GRAPH_GEN_ATTEMPTS,
            final(factory)@.available == old(factory)@.available,
    {
        self.generate(factory, graph_factory, verifier)
    }
}

} // verus!
